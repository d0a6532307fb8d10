//! The catalog of a mesh file: names and source objects by kind and ID.

use vstd::prelude::*;

#[allow(unused_imports)]
use crate::columns::{batch_rows, same_texts, text_columns, u64_columns};
use crate::columns::Batch;
#[allow(unused_imports)]
use crate::error::fails_file;
use crate::error::{MeshError, MeshResult};
#[allow(unused_imports)]
use crate::rows::{missing_column, optional};
use crate::text::same_text;

verus! {

/// One catalog row: a kind, an ID within the kind, a name, and the object of
/// the scene that it stands for.
#[derive(Debug)]
pub struct CatalogName {
    pub kind: String,
    pub id: u64,
    pub name: String,
    pub source: Option<u64>,
}

/// A catalog row as plain values.
pub struct CatalogFact {
    pub kind: Seq<char>,
    pub id: u64,
    pub name: Seq<char>,
    pub source: Option<u64>,
}

impl View for CatalogName {
    type V = CatalogFact;

    open spec fn view(&self) -> CatalogFact {
        CatalogFact { kind: self.kind@, id: self.id, name: self.name@, source: self.source }
    }
}

/// Some row has this kind and ID.
pub open spec fn listed(facts: Seq<CatalogFact>, kind: Seq<char>, id: u64) -> bool {
    exists|i: int| 0 <= i < facts.len() && (#[trigger] facts[i]).kind == kind && facts[i].id == id
}

/// No two rows share a kind and an ID.
pub open spec fn distinct(facts: Seq<CatalogFact>) -> bool {
    forall|i: int, j: int|
        0 <= i < j < facts.len() ==> (#[trigger] facts[i]).kind != (#[trigger] facts[j]).kind
            || facts[i].id != facts[j].id
}

/// The catalog of a mesh file.
#[derive(Debug)]
pub struct CatalogNames {
    pub rows: Vec<CatalogName>,
}

impl View for CatalogNames {
    type V = Seq<CatalogFact>;

    open spec fn view(&self) -> Seq<CatalogFact> {
        Seq::new(self.rows@.len(), |i: int| self.rows@[i]@)
    }
}

/// The columns of a catalog batch.
#[derive(Debug)]
pub struct CatalogColumns {
    pub ids: Vec<(bool, u64)>,
    pub kinds: Vec<(bool, String)>,
    pub labels: Vec<(bool, String)>,
    pub sources: Vec<(bool, u64)>,
}

impl CatalogColumns {
    /// All columns have a slot for each row.
    pub open spec fn wf(self) -> bool {
        let count = self.ids@.len();
        &&& self.kinds@.len() == count
        &&& self.labels@.len() == count
        &&& self.sources@.len() == count
    }

    /// What each row says.
    pub open spec fn facts(self) -> Seq<CatalogFact> {
        Seq::new(
            self.ids@.len(),
            |row: int|
                CatalogFact {
                    kind: self.kinds@[row].1@,
                    id: self.ids@[row].1,
                    name: self.labels@[row].1@,
                    source: optional(self.sources@[row]),
                },
        )
    }

    /// What is wrong with a row that follows these facts, if anything.
    pub open spec fn fault(self, facts: Seq<CatalogFact>, row: int) -> Option<Seq<char>> {
        if self.ids@[row].0 || self.kinds@[row].0 || self.labels@[row].0 {
            Some("catalog row lacks kind, ID, or name"@)
        } else if listed(
            facts + self.facts().take(row),
            self.kinds@[row].1@,
            self.ids@[row].1,
        ) {
            Some("catalog IDs must be unique within each kind"@)
        } else {
            None
        }
    }
}

impl CatalogNames {
    pub open spec fn wf(self) -> bool {
        distinct(self@)
    }

    pub fn new() -> (result: CatalogNames)
        ensures
            result.wf(),
            result@ == Seq::<CatalogFact>::empty(),
    {
        let result = CatalogNames { rows: Vec::new() };
        assert(result@ =~= Seq::<CatalogFact>::empty());
        result
    }

    /// The place of the row with this kind and ID.
    fn find(&self, kind: &str, id: u64) -> (result: Option<usize>)
        ensures
            match result {
                Some(place) => place < self.rows@.len() && self@[place as int].kind == kind@
                    && self@[place as int].id == id,
                None => !listed(self@, kind@, id),
            },
    {
        let mut place: usize = 0;
        while place < self.rows.len()
            invariant
                place <= self.rows.len(),
                forall|i: int|
                    0 <= i < place ==> !((#[trigger] self@[i]).kind == kind@ && self@[i].id == id),
            decreases self.rows.len() - place,
        {
            if self.rows[place].id == id && same_text(self.rows[place].kind.as_str(), kind) {
                return Some(place);
            }
            place += 1;
        }
        None
    }

    /// The name of an ID of a kind, where the catalog lists it.
    pub fn name(&self, kind: &str, id: u64) -> (result: Option<&str>)
        requires
            self.wf(),
        ensures
            match result {
                Some(name) => exists|i: int|
                    0 <= i < self@.len() && (#[trigger] self@[i]).kind == kind@ && self@[i].id == id
                        && self@[i].name == name@,
                None => !listed(self@, kind@, id),
            },
    {
        match self.find(kind, id) {
            Some(place) => {
                assert(self@[place as int].name == self.rows@[place as int].name@);
                Some(self.rows[place].name.as_str())
            },
            None => None,
        }
    }

    /// The source object of an ID of a kind, where the catalog gives one.
    pub fn source(&self, kind: &str, id: u64) -> (result: Option<u64>)
        requires
            self.wf(),
        ensures
            match result {
                Some(object) => exists|i: int|
                    0 <= i < self@.len() && (#[trigger] self@[i]).kind == kind@ && self@[i].id == id
                        && self@[i].source == Some(object),
                None => forall|i: int|
                    0 <= i < self@.len() && (#[trigger] self@[i]).kind == kind@ && self@[i].id == id
                        ==> self@[i].source is None,
            },
    {
        match self.find(kind, id) {
            Some(place) => {
                assert(self@[place as int].source == self.rows@[place as int].source);
                assert forall|i: int|
                    0 <= i < self@.len() && (#[trigger] self@[i]).kind == kind@ && self@[i].id
                        == id implies i == place by {
                    let other = self@[place as int];
                    if i < place {
                        assert(self@[i].kind != other.kind || self@[i].id != other.id);
                    } else if i > place {
                        assert(other.kind != self@[i].kind || other.id != self@[i].id);
                    }
                }
                self.rows[place].source
            },
            None => None,
        }
    }

    /// The catalog with the rows of one more batch, or the fault of the first
    /// row that has one.
    pub fn extended(self, columns: &CatalogColumns) -> (result: MeshResult<CatalogNames>)
        requires
            self.wf(),
            columns.wf(),
        ensures
            match result {
                Ok(after) => after.wf() && after@ == self@ + columns.facts() && forall|row: int|
                    0 <= row < columns.ids@.len() ==> (#[trigger] columns.fault(self@, row)) is None,
                Err(_) => exists|row: int|
                    0 <= row < columns.ids@.len() && (#[trigger] columns.fault(self@, row)) is Some
                        && (forall|k: int|
                        0 <= k < row ==> (#[trigger] columns.fault(self@, k)) is None)
                        && fails_file(result, columns.fault(self@, row).unwrap()),
            },
    {
        let ghost start = self@;
        let ghost facts = columns.facts();
        let mut after = self;
        let mut row: usize = 0;
        assert(start + facts.take(0) =~= start);
        while row < columns.ids.len()
            invariant
                row <= columns.ids.len(),
                columns.wf(),
                start == self@,
                facts == columns.facts(),
                after.wf(),
                after@ == start + facts.take(row as int),
                forall|k: int| 0 <= k < row ==> (#[trigger] columns.fault(start, k)) is None,
            decreases columns.ids.len() - row,
        {
            if columns.ids[row].0 || columns.kinds[row].0 || columns.labels[row].0 {
                assert(columns.fault(start, row as int) is Some);
                return Err(MeshError::invalid_file("catalog row lacks kind, ID, or name"));
            }
            let id: u64 = columns.ids[row].1;
            let kind = &columns.kinds[row].1;
            match after.find(kind.as_str(), id) {
                Some(place) => {
                    assert(listed(after@, kind@, id));
                    assert(columns.fault(start, row as int) is Some);
                    return Err(
                        MeshError::invalid_file("catalog IDs must be unique within each kind"),
                    );
                },
                None => {},
            }
            let ghost before = after@;
            let slot = columns.sources[row];
            let source: Option<u64> = if slot.0 {
                None
            } else {
                Some(slot.1)
            };
            let added = CatalogName {
                kind: kind.clone(),
                id,
                name: columns.labels[row].1.clone(),
                source,
            };
            assert(added@ == facts[row as int]);
            let ghost fact = added@;
            after.rows.push(added);
            assert(after@ =~= before.push(fact));
            assert(before.push(fact) =~= start + facts.take(row + 1));
            assert(columns.fault(start, row as int) is None);
            assert(distinct(after@)) by {
                assert forall|i: int, j: int| 0 <= i < j < after@.len() implies (
                #[trigger] after@[i]).kind != (#[trigger] after@[j]).kind || after@[i].id
                    != after@[j].id by {
                    if j == before.len() {
                        assert(before[i] == after@[i]);
                    } else {
                        assert(before[i] == after@[i] && before[j] == after@[j]);
                    }
                }
            }
            row += 1;
        }
        assert(facts.take(row as int) =~= facts);
        Ok(after)
    }
}

impl CatalogColumns {
    /// The first column of a catalog batch that the batch lacks.
    pub open spec fn absent(batch: Batch) -> Option<Seq<char>> {
        if !u64_columns(batch).dom().contains("entity_id"@) {
            Some("entity_id"@)
        } else if !text_columns(batch).dom().contains("catalog_kind"@) {
            Some("catalog_kind"@)
        } else if !text_columns(batch).dom().contains("name"@) {
            Some("name"@)
        } else if !u64_columns(batch).dom().contains("source_object_id"@) {
            Some("source_object_id"@)
        } else {
            None
        }
    }

    /// These are the columns of the batch.
    pub open spec fn of(self, batch: Batch) -> bool {
        &&& self.wf()
        &&& self.ids@.len() == batch_rows(batch)
        &&& self.ids@ == u64_columns(batch)["entity_id"@]
        &&& same_texts(self.kinds@, text_columns(batch)["catalog_kind"@])
        &&& same_texts(self.labels@, text_columns(batch)["name"@])
        &&& self.sources@ == u64_columns(batch)["source_object_id"@]
    }

    pub fn read(batch: &Batch) -> (result: MeshResult<CatalogColumns>)
        ensures
            match CatalogColumns::absent(*batch) {
                Some(name) => fails_file(result, missing_column(name)),
                None => result matches Ok(columns) && columns.of(*batch),
            },
    {
        let ids = match batch.u64s("entity_id") {
            Ok(column) => column,
            Err(error) => {
                return Err(error);
            },
        };
        let kinds = match batch.strings("catalog_kind") {
            Ok(column) => column,
            Err(error) => {
                return Err(error);
            },
        };
        let labels = match batch.strings("name") {
            Ok(column) => column,
            Err(error) => {
                return Err(error);
            },
        };
        let sources = match batch.u64s("source_object_id") {
            Ok(column) => column,
            Err(error) => {
                return Err(error);
            },
        };
        Ok(CatalogColumns { ids, kinds, labels, sources })
    }
}

} // verus!
