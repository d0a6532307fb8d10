//! The audit of a whole mesh: every point has one owner row, every ghost agrees
//! with it, every ID is used once, and every element stands on points of its own
//! chunk.

use vstd::prelude::*;

#[allow(unused_imports)]
use crate::columns::{
    batch_rows, bool_columns, f64_columns, same_lists, u64_columns, u64_list_columns,
};
use crate::columns::Batch;
#[allow(unused_imports)]
use crate::error::fails_file;
use crate::error::{MeshError, MeshResult};
use crate::number::Real;
#[allow(unused_imports)]
use crate::rows::missing_column;
use crate::schema::{MeshCounts, RowKind};
use crate::sorted::{SortedMap, SortedSet};
#[allow(unused_imports)]
use crate::text::decimal;
use crate::text::sentence;

verus! {

/// The owner chunk and the place that a point's owner row gives.
#[derive(Debug, Clone, Copy, PartialEq, Eq, Structural)]
pub struct OwnerRow {
    pub chunk: u64,
    pub x: Real,
    pub y: Real,
    pub z: Real,
}

/// The rows name the same chunk and the same place.
pub open spec fn rows_agree(a: OwnerRow, b: OwnerRow) -> bool {
    a.chunk == b.chunk && a.x.same_value(b.x) && a.y.same_value(b.y) && a.z.same_value(b.z)
}

/// What an audit has seen so far, as plain values.
#[verifier::ext_equal]
pub struct AuditFacts {
    pub ids: Set<u64>,
    pub owners: Map<u64, OwnerRow>,
    pub local: Set<u64>,
    pub counts: MeshCounts,
}

/// What an audit has seen so far: all IDs, the owner rows of points, the
/// points of the chunk at hand, and how many of each kind there were.
#[derive(Debug)]
pub struct Audit {
    pub ids: SortedSet<u64>,
    pub owners: SortedMap<u64, OwnerRow>,
    pub local: SortedSet<u64>,
    pub counts: MeshCounts,
}

impl View for Audit {
    type V = AuditFacts;

    open spec fn view(&self) -> AuditFacts {
        AuditFacts {
            ids: self.ids@,
            owners: self.owners@,
            local: self.local@,
            counts: self.counts,
        }
    }
}

impl Audit {
    /// The counts add up to the IDs seen, and every owner row's ID is one.
    pub open spec fn wf(self) -> bool {
        &&& self.ids.wf()
        &&& self.owners.wf()
        &&& self.local.wf()
        &&& self.counts.entities() == self.ids.items@.len()
        &&& forall|id: u64| #[trigger] self.owners@.dom().contains(id) ==> self.ids@.contains(id)
    }
}

/// One row of a point batch.
pub struct PointRow {
    pub id: u64,
    pub ghost_row: bool,
    pub row: OwnerRow,
}

/// The columns of a point batch.
#[derive(Debug)]
pub struct PointColumns {
    pub ids: Vec<(bool, u64)>,
    pub owner_chunks: Vec<(bool, u64)>,
    pub ghosts: Vec<(bool, bool)>,
    pub x: Vec<(bool, u64)>,
    pub y: Vec<(bool, u64)>,
    pub z: Vec<(bool, u64)>,
}

impl PointColumns {
    pub open spec fn rows(self) -> Seq<PointRow> {
        Seq::new(self.ids@.len(), |row: int| self.row(row))
    }

    pub open spec fn wf(self) -> bool {
        let count = self.ids@.len();
        &&& self.owner_chunks@.len() == count
        &&& self.ghosts@.len() == count
        &&& self.x@.len() == count
        &&& self.y@.len() == count
        &&& self.z@.len() == count
    }

    pub open spec fn row(self, row: int) -> PointRow {
        PointRow {
            id: self.ids@[row].1,
            ghost_row: self.ghosts@[row].1,
            row: OwnerRow {
                chunk: self.owner_chunks@[row].1,
                x: Real { bits: self.x@[row].1 },
                y: Real { bits: self.y@[row].1 },
                z: Real { bits: self.z@[row].1 },
            },
        }
    }
}

/// What is wrong with a point row after these facts, if anything.
pub open spec fn point_fault(facts: AuditFacts, point: PointRow) -> Option<Seq<char>> {
    if !point.ghost_row {
        if facts.ids.contains(point.id) {
            Some("point "@ + decimal(point.id as nat) + " has duplicate owner rows"@)
        } else {
            None
        }
    } else if facts.owners.dom().contains(point.id) && !rows_agree(
        facts.owners[point.id],
        point.row,
    ) {
        Some("ghost point "@ + decimal(point.id as nat) + " disagrees with its owner"@)
    } else {
        None
    }
}

/// The facts with one more point row.
pub open spec fn with_point(facts: AuditFacts, point: PointRow) -> AuditFacts {
    if point.ghost_row {
        AuditFacts { local: facts.local.insert(point.id), ..facts }
    } else {
        AuditFacts {
            ids: facts.ids.insert(point.id),
            owners: facts.owners.insert(point.id, point.row),
            local: facts.local.insert(point.id),
            counts: MeshCounts { points: (facts.counts.points + 1) as u64, ..facts.counts },
        }
    }
}

/// The facts after the first rows of a point batch, or the first fault.
pub open spec fn after_points(facts: AuditFacts, points: Seq<PointRow>, rows: int) -> Result<
    AuditFacts,
    Seq<char>,
>
    decreases rows,
{
    if rows <= 0 {
        Ok(facts)
    } else {
        match after_points(facts, points, rows - 1) {
            Err(message) => Err(message),
            Ok(seen) => match point_fault(seen, points[rows - 1]) {
                Some(message) => Err(message),
                None => Ok(with_point(seen, points[rows - 1])),
            },
        }
    }
}

proof fn point_fault_stays(facts: AuditFacts, points: Seq<PointRow>, rows: int, all: int)
    requires
        rows <= all,
        after_points(facts, points, rows) is Err,
    ensures
        after_points(facts, points, all) == after_points(facts, points, rows),
    decreases all - rows,
{
    if rows < all {
        point_fault_stays(facts, points, rows, all - 1);
    }
}

/// One row of an element batch.
pub struct ElementRow {
    pub id: u64,
    pub points: Option<Seq<u64>>,
}

/// The columns of an element batch.
#[derive(Debug)]
pub struct ElementColumns {
    pub ids: Vec<(bool, u64)>,
    pub points: Vec<Option<Vec<u64>>>,
}

impl ElementColumns {
    pub open spec fn rows(self) -> Seq<ElementRow> {
        Seq::new(self.ids@.len(), |row: int| self.row(row))
    }

    pub open spec fn wf(self) -> bool {
        self.points@.len() == self.ids@.len()
    }

    pub open spec fn row(self, row: int) -> ElementRow {
        ElementRow {
            id: self.ids@[row].1,
            points: match self.points@[row] {
                Some(list) => Some(list@),
                None => None,
            },
        }
    }
}

/// All listed points are among these.
pub open spec fn all_local(points: Seq<u64>, local: Set<u64>) -> bool {
    forall|i: int| 0 <= i < points.len() ==> local.contains(#[trigger] points[i])
}

/// What is wrong with an element row after these facts, if anything.
pub open spec fn element_row_fault(facts: AuditFacts, element: ElementRow) -> Option<Seq<char>> {
    if facts.ids.contains(element.id) {
        Some("entity ID "@ + decimal(element.id as nat) + " is not globally unique"@)
    } else {
        match element.points {
            None => Some("list column must contain u64 values"@),
            Some(points) => if !all_local(points, facts.local) {
                Some(
                    "entity "@ + decimal(element.id as nat)
                        + " references a point absent from its exact chunk"@,
                )
            } else {
                None
            },
        }
    }
}

/// The counts with one more entity of a kind.
pub open spec fn counted(counts: MeshCounts, kind: RowKind) -> MeshCounts {
    match kind {
        RowKind::Edge => MeshCounts { edges: (counts.edges + 1) as u64, ..counts },
        RowKind::Face => MeshCounts { faces: (counts.faces + 1) as u64, ..counts },
        RowKind::Cell => MeshCounts { cells: (counts.cells + 1) as u64, ..counts },
        _ => counts,
    }
}

/// The facts with one more element row.
pub open spec fn with_element(facts: AuditFacts, kind: RowKind, element: ElementRow) -> AuditFacts {
    AuditFacts { ids: facts.ids.insert(element.id), counts: counted(facts.counts, kind), ..facts }
}

/// The facts after the first rows of an element batch, or the first fault.
pub open spec fn after_elements(
    facts: AuditFacts,
    kind: RowKind,
    elements: Seq<ElementRow>,
    rows: int,
) -> Result<AuditFacts, Seq<char>>
    decreases rows,
{
    if rows <= 0 {
        Ok(facts)
    } else {
        match after_elements(facts, kind, elements, rows - 1) {
            Err(message) => Err(message),
            Ok(seen) => match element_row_fault(seen, elements[rows - 1]) {
                Some(message) => Err(message),
                None => Ok(with_element(seen, kind, elements[rows - 1])),
            },
        }
    }
}

proof fn element_fault_stays(
    facts: AuditFacts,
    kind: RowKind,
    elements: Seq<ElementRow>,
    rows: int,
    all: int,
)
    requires
        rows <= all,
        after_elements(facts, kind, elements, rows) is Err,
    ensures
        after_elements(facts, kind, elements, all) == after_elements(facts, kind, elements, rows),
    decreases all - rows,
{
    if rows < all {
        element_fault_stays(facts, kind, elements, rows, all - 1);
    }
}

fn is_local(points: &Vec<u64>, local: &SortedSet<u64>) -> (result: bool)
    requires
        local.wf(),
    ensures
        result == all_local(points@, local@),
{
    let mut i: usize = 0;
    while i < points.len()
        invariant
            i <= points.len(),
            local.wf(),
            forall|k: int| 0 <= k < i ==> local@.contains(#[trigger] points@[k]),
        decreases points.len() - i,
    {
        if !local.contains(&points[i]) {
            assert(!local@.contains(points@[i as int]));
            return false;
        }
        i += 1;
    }
    true
}

fn same_rows(a: &OwnerRow, b: &OwnerRow) -> (result: bool)
    ensures
        result == rows_agree(*a, *b),
{
    a.chunk == b.chunk && a.x.equal(b.x) && a.y.equal(b.y) && a.z.equal(b.z)
}

impl Audit {
    pub fn new() -> (result: Audit)
        ensures
            result.wf(),
            result@ == (AuditFacts {
                ids: Set::empty(),
                owners: Map::empty(),
                local: Set::empty(),
                counts: MeshCounts { points: 0, edges: 0, faces: 0, cells: 0, spatial_nodes: 0 },
            }),
    {
        Audit {
            ids: SortedSet::new(),
            owners: SortedMap::new(),
            local: SortedSet::new(),
            counts: MeshCounts::default(),
        }
    }

    /// Turns to another chunk: no point of it has been seen.
    pub fn enter_chunk(&mut self)
        requires
            old(self).wf(),
        ensures
            final(self).wf(),
            final(self)@ == (AuditFacts { local: Set::empty(), ..old(self)@ }),
    {
        self.local = SortedSet::new();
    }

    /// Takes the rows of a point batch in.
    pub fn add_points(&mut self, columns: &PointColumns) -> (result: MeshResult<()>)
        requires
            old(self).wf(),
            columns.wf(),
        ensures
            match after_points(old(self)@, columns.rows(), columns.ids@.len() as int) {
                Ok(facts) => result is Ok && final(self).wf() && final(self)@ == facts,
                Err(message) => fails_file(result, message),
            },
    {
        let ghost start = self@;
        let ghost all = columns.ids@.len() as int;
        let mut row: usize = 0;
        while row < columns.ids.len()
            invariant
                row <= columns.ids.len(),
                all == columns.ids@.len(),
                columns.wf(),
                start == old(self)@,
                self.wf(),
                after_points(start, columns.rows(), row as int) == Ok::<AuditFacts, Seq<char>>(self@),
            decreases columns.ids.len() - row,
        {
            let ghost before = self@;
            let ghost point = columns.row(row as int);
            let id: u64 = columns.ids[row].1;
            let place = OwnerRow {
                chunk: columns.owner_chunks[row].1,
                x: Real { bits: columns.x[row].1 },
                y: Real { bits: columns.y[row].1 },
                z: Real { bits: columns.z[row].1 },
            };
            self.local.insert(id);
            if !columns.ghosts[row].1 {
                if !self.ids.insert(id) {
                    proof {
                        assert(after_points(start, columns.rows(), row + 1) is Err);
                        point_fault_stays(start, columns.rows(), row + 1, all);
                    }
                    return Err(
                        MeshError::InvalidFile(sentence("point ", id, " has duplicate owner rows")),
                    );
                }
                let seen: usize = self.ids.items.len();
                self.owners.insert(id, place);
                self.counts.points = self.counts.points + 1;
            } else {
                match self.owners.get(&id) {
                    Some(owner) => {
                        if !same_rows(owner, &place) {
                            proof {
                                assert(after_points(start, columns.rows(), row + 1) is Err);
                                point_fault_stays(start, columns.rows(), row + 1, all);
                            }
                            return Err(
                                MeshError::InvalidFile(
                                    sentence("ghost point ", id, " disagrees with its owner"),
                                ),
                            );
                        }
                    },
                    None => {},
                }
            }
            assert(self@ =~= with_point(before, point));
            row += 1;
        }
        Ok(())
    }

    /// Takes the rows of an edge, face or cell batch in.
    pub fn add_elements(&mut self, kind: RowKind, columns: &ElementColumns) -> (result: MeshResult<
        (),
    >)
        requires
            old(self).wf(),
            columns.wf(),
            kind is Edge || kind is Face || kind is Cell,
        ensures
            match after_elements(old(self)@, kind, columns.rows(), columns.ids@.len() as int) {
                Ok(facts) => result is Ok && final(self).wf() && final(self)@ == facts,
                Err(message) => fails_file(result, message),
            },
    {
        let ghost start = self@;
        let ghost all = columns.ids@.len() as int;
        let mut row: usize = 0;
        while row < columns.ids.len()
            invariant
                row <= columns.ids.len(),
                all == columns.ids@.len(),
                columns.wf(),
                kind is Edge || kind is Face || kind is Cell,
                start == old(self)@,
                self.wf(),
                after_elements(start, kind, columns.rows(), row as int) == Ok::<AuditFacts, Seq<char>>(
                    self@,
                ),
            decreases columns.ids.len() - row,
        {
            let ghost before = self@;
            let ghost element = columns.row(row as int);
            let id: u64 = columns.ids[row].1;
            if !self.ids.insert(id) {
                proof {
                    assert(after_elements(start, kind, columns.rows(), row + 1) is Err);
                    element_fault_stays(start, kind, columns.rows(), row + 1, all);
                }
                return Err(
                    MeshError::InvalidFile(sentence("entity ID ", id, " is not globally unique")),
                );
            }
            let seen: usize = self.ids.items.len();
            match &columns.points[row] {
                Some(points) => {
                    if !is_local(points, &self.local) {
                        proof {
                            assert(after_elements(start, kind, columns.rows(), row + 1) is Err);
                            element_fault_stays(start, kind, columns.rows(), row + 1, all);
                        }
                        return Err(
                            MeshError::InvalidFile(
                                sentence(
                                    "entity ",
                                    id,
                                    " references a point absent from its exact chunk",
                                ),
                            ),
                        );
                    }
                },
                None => {
                    proof {
                        assert(after_elements(start, kind, columns.rows(), row + 1) is Err);
                        element_fault_stays(start, kind, columns.rows(), row + 1, all);
                    }
                    return Err(MeshError::invalid_file("list column must contain u64 values"));
                },
            }
            match kind {
                RowKind::Edge => {
                    self.counts.edges = self.counts.edges + 1;
                },
                RowKind::Face => {
                    self.counts.faces = self.counts.faces + 1;
                },
                _ => {
                    self.counts.cells = self.counts.cells + 1;
                },
            }
            assert(self@ =~= with_element(before, kind, element));
            row += 1;
        }
        Ok(())
    }
}

impl PointColumns {
    /// The first column of a point batch that the batch lacks.
    pub open spec fn absent(batch: Batch) -> Option<Seq<char>> {
        if !u64_columns(batch).dom().contains("entity_id"@) {
            Some("entity_id"@)
        } else if !u64_columns(batch).dom().contains("owner_chunk_id"@) {
            Some("owner_chunk_id"@)
        } else if !bool_columns(batch).dom().contains("ghost"@) {
            Some("ghost"@)
        } else if !f64_columns(batch).dom().contains("x"@) {
            Some("x"@)
        } else if !f64_columns(batch).dom().contains("y"@) {
            Some("y"@)
        } else if !f64_columns(batch).dom().contains("z"@) {
            Some("z"@)
        } else {
            None
        }
    }

    /// These are the columns of the batch.
    pub open spec fn of(self, batch: Batch) -> bool {
        &&& self.ids@ == u64_columns(batch)["entity_id"@]
        &&& self.owner_chunks@ == u64_columns(batch)["owner_chunk_id"@]
        &&& self.ghosts@ == bool_columns(batch)["ghost"@]
        &&& self.x@ == f64_columns(batch)["x"@]
        &&& self.y@ == f64_columns(batch)["y"@]
        &&& self.z@ == f64_columns(batch)["z"@]
    }

    pub fn read(batch: &Batch) -> (result: MeshResult<PointColumns>)
        ensures
            match PointColumns::absent(*batch) {
                Some(name) => fails_file(result, missing_column(name)),
                None => result matches Ok(columns) && columns.wf() && columns.of(*batch) && columns.ids@.len() == batch_rows(*batch),
            },
    {
        let ids = match batch.u64s("entity_id") {
            Ok(column) => column,
            Err(error) => {
                return Err(error);
            },
        };
        let owner_chunks = match batch.u64s("owner_chunk_id") {
            Ok(column) => column,
            Err(error) => {
                return Err(error);
            },
        };
        let ghosts = match batch.bools("ghost") {
            Ok(column) => column,
            Err(error) => {
                return Err(error);
            },
        };
        let x = match batch.f64s("x") {
            Ok(column) => column,
            Err(error) => {
                return Err(error);
            },
        };
        let y = match batch.f64s("y") {
            Ok(column) => column,
            Err(error) => {
                return Err(error);
            },
        };
        let z = match batch.f64s("z") {
            Ok(column) => column,
            Err(error) => {
                return Err(error);
            },
        };
        Ok(PointColumns { ids, owner_chunks, ghosts, x, y, z })
    }
}

impl ElementColumns {
    /// The first column of an element batch that the batch lacks.
    pub open spec fn absent(batch: Batch) -> Option<Seq<char>> {
        if !u64_columns(batch).dom().contains("entity_id"@) {
            Some("entity_id"@)
        } else if !u64_list_columns(batch).dom().contains("point_ids"@) {
            Some("point_ids"@)
        } else {
            None
        }
    }

    /// These are the columns of the batch.
    pub open spec fn of(self, batch: Batch) -> bool {
        &&& self.ids@ == u64_columns(batch)["entity_id"@]
        &&& same_lists(self.points@, u64_list_columns(batch)["point_ids"@])
    }

    pub fn read(batch: &Batch) -> (result: MeshResult<ElementColumns>)
        ensures
            match ElementColumns::absent(*batch) {
                Some(name) => fails_file(result, missing_column(name)),
                None => result matches Ok(columns) && columns.wf() && columns.of(*batch) && columns.ids@.len() == batch_rows(*batch),
            },
    {
        let ids = match batch.u64s("entity_id") {
            Ok(column) => column,
            Err(error) => {
                return Err(error);
            },
        };
        let points = match batch.lists("point_ids") {
            Ok(column) => column,
            Err(error) => {
                return Err(error);
            },
        };
        Ok(ElementColumns { ids, points })
    }
}

/// The rows of a point batch.
pub open spec fn point_rows(batch: Batch) -> Seq<PointRow> {
    Seq::new(
        batch_rows(batch),
        |row: int|
            PointRow {
                id: u64_columns(batch)["entity_id"@][row].1,
                ghost_row: bool_columns(batch)["ghost"@][row].1,
                row: OwnerRow {
                    chunk: u64_columns(batch)["owner_chunk_id"@][row].1,
                    x: Real { bits: f64_columns(batch)["x"@][row].1 },
                    y: Real { bits: f64_columns(batch)["y"@][row].1 },
                    z: Real { bits: f64_columns(batch)["z"@][row].1 },
                },
            },
    )
}

/// The rows of an element batch.
pub open spec fn element_rows(batch: Batch) -> Seq<ElementRow> {
    Seq::new(
        batch_rows(batch),
        |row: int|
            ElementRow {
                id: u64_columns(batch)["entity_id"@][row].1,
                points: u64_list_columns(batch)["point_ids"@][row],
            },
    )
}

/// The facts after one batch of exact rows, or what is wrong with it.
pub open spec fn after_batch(facts: AuditFacts, kind: RowKind, batch: Batch) -> Result<
    AuditFacts,
    Seq<char>,
> {
    if kind is Point {
        match PointColumns::absent(batch) {
            Some(name) => Err(missing_column(name)),
            None => after_points(facts, point_rows(batch), batch_rows(batch) as int),
        }
    } else {
        match ElementColumns::absent(batch) {
            Some(name) => Err(missing_column(name)),
            None => after_elements(facts, kind, element_rows(batch), batch_rows(batch) as int),
        }
    }
}

impl Audit {
    /// Takes a batch of exact rows in.
    pub fn add_batch(&mut self, kind: RowKind, batch: &Batch) -> (result: MeshResult<()>)
        requires
            old(self).wf(),
            kind.exact(),
        ensures
            match after_batch(old(self)@, kind, *batch) {
                Ok(facts) => result is Ok && final(self).wf() && final(self)@ == facts,
                Err(message) => fails_file(result, message),
            },
    {
        if kind == RowKind::Point {
            match PointColumns::read(batch) {
                Ok(columns) => {
                    assert(columns.rows() =~= point_rows(*batch));
                    self.add_points(&columns)
                },
                Err(error) => Err(error),
            }
        } else {
            match ElementColumns::read(batch) {
                Ok(columns) => {
                    assert(columns.rows() =~= element_rows(*batch));
                    self.add_elements(kind, &columns)
                },
                Err(error) => Err(error),
            }
        }
    }
}

} // verus!
