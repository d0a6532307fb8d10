//! What the rows of a batch say: its kind, its bounds, its directory, catalog
//! and spatial rows.

use vstd::prelude::*;

use crate::columns::{
    find_bools, find_f64s, find_text_lists, find_texts, find_u32s, find_u64_lists, find_u64s, Batch,
};
#[allow(unused_imports)]
use crate::columns::{
    batch_rows, bool_columns, f64_columns, same_lists, same_text_lists, same_texts, text_columns,
    text_list_columns, u32_columns, u64_columns, u64_list_columns,
};
use crate::error::{MeshError, MeshResult};
#[allow(unused_imports)]
use crate::error::fails_file;
use crate::number::Real;
use crate::schema::{BatchDirectoryEntry, Bounds3, RowKind};
#[allow(unused_imports)]
use crate::schema::texts;
#[allow(unused_imports)]
use crate::text::debug_text;
use crate::text::{join, quoted, same_text};

verus! {

/// The message for a column that is missing or of another type.
pub open spec fn missing_column(name: Seq<char>) -> Seq<char> {
    "missing or invalid Arrow column "@ + debug_text(name)
}

fn missing(name: &str) -> (result: MeshError)
    ensures
        result is InvalidFile,
        result.text() == missing_column(name@),
{
    MeshError::InvalidFile(join("missing or invalid Arrow column ", quoted(name).as_str()))
}

impl Batch {
    pub fn strings(&self, name: &str) -> (result: MeshResult<Vec<(bool, String)>>)
        ensures
            match result {
                Ok(column) => text_columns(*self).dom().contains(name@) && same_texts(
                    column@,
                    text_columns(*self)[name@],
                ) && column.len() == batch_rows(*self),
                Err(_) => !text_columns(*self).dom().contains(name@) && fails_file(
                    result,
                    missing_column(name@),
                ),
            },
    {
        match find_texts(self, name) {
            Some(column) => Ok(column),
            None => Err(missing(name)),
        }
    }

    pub fn u64s(&self, name: &str) -> (result: MeshResult<Vec<(bool, u64)>>)
        ensures
            match result {
                Ok(column) => u64_columns(*self).dom().contains(name@) && column@ == u64_columns(
                    *self,
                )[name@] && column.len() == batch_rows(*self),
                Err(_) => !u64_columns(*self).dom().contains(name@) && fails_file(
                    result,
                    missing_column(name@),
                ),
            },
    {
        match find_u64s(self, name) {
            Some(column) => Ok(column),
            None => Err(missing(name)),
        }
    }

    pub fn u32s(&self, name: &str) -> (result: MeshResult<Vec<(bool, u32)>>)
        ensures
            match result {
                Ok(column) => u32_columns(*self).dom().contains(name@) && column@ == u32_columns(
                    *self,
                )[name@] && column.len() == batch_rows(*self),
                Err(_) => !u32_columns(*self).dom().contains(name@) && fails_file(
                    result,
                    missing_column(name@),
                ),
            },
    {
        match find_u32s(self, name) {
            Some(column) => Ok(column),
            None => Err(missing(name)),
        }
    }

    /// The numbers by their bits.
    pub fn f64s(&self, name: &str) -> (result: MeshResult<Vec<(bool, u64)>>)
        ensures
            match result {
                Ok(column) => f64_columns(*self).dom().contains(name@) && column@ == f64_columns(
                    *self,
                )[name@] && column.len() == batch_rows(*self),
                Err(_) => !f64_columns(*self).dom().contains(name@) && fails_file(
                    result,
                    missing_column(name@),
                ),
            },
    {
        match find_f64s(self, name) {
            Some(column) => Ok(column),
            None => Err(missing(name)),
        }
    }

    pub fn bools(&self, name: &str) -> (result: MeshResult<Vec<(bool, bool)>>)
        ensures
            match result {
                Ok(column) => bool_columns(*self).dom().contains(name@) && column@ == bool_columns(
                    *self,
                )[name@] && column.len() == batch_rows(*self),
                Err(_) => !bool_columns(*self).dom().contains(name@) && fails_file(
                    result,
                    missing_column(name@),
                ),
            },
    {
        match find_bools(self, name) {
            Some(column) => Ok(column),
            None => Err(missing(name)),
        }
    }

    pub fn lists(&self, name: &str) -> (result: MeshResult<Vec<Option<Vec<u64>>>>)
        ensures
            match result {
                Ok(column) => u64_list_columns(*self).dom().contains(name@) && same_lists(
                    column@,
                    u64_list_columns(*self)[name@],
                ) && column.len() == batch_rows(*self),
                Err(_) => !u64_list_columns(*self).dom().contains(name@) && fails_file(
                    result,
                    missing_column(name@),
                ),
            },
    {
        match find_u64_lists(self, name) {
            Some(column) => Ok(column),
            None => Err(missing(name)),
        }
    }

    pub fn text_lists(&self, name: &str) -> (result: MeshResult<Vec<Option<Vec<Option<String>>>>>)
        ensures
            match result {
                Ok(column) => text_list_columns(*self).dom().contains(name@) && same_text_lists(
                    column@,
                    text_list_columns(*self)[name@],
                ) && column.len() == batch_rows(*self),
                Err(_) => !text_list_columns(*self).dom().contains(name@) && fails_file(
                    result,
                    missing_column(name@),
                ),
            },
    {
        match find_text_lists(self, name) {
            Some(column) => Ok(column),
            None => Err(missing(name)),
        }
    }
}

/// The one kind that a column of row kinds names, or what is wrong with it.
pub open spec fn rows_kind(slots: Seq<(bool, Seq<char>)>) -> Result<RowKind, Seq<char>> {
    if slots.len() == 0 || slots[0].0 {
        Err("record batches must contain at least one row kind"@)
    } else {
        match RowKind::named(slots[0].1) {
            None => Err("unknown row kind"@),
            Some(kind) => if exists|row: int|
                0 <= row < slots.len() && ((#[trigger] slots[row]).0 || slots[row].1
                    != kind.name()) {
                Err("record batch mixes row kinds"@)
            } else {
                Ok(kind)
            },
        }
    }
}

/// What the slots of a column of strings hold.
pub open spec fn slots_of(column: Seq<(bool, String)>) -> Seq<(bool, Seq<char>)> {
    Seq::new(column.len(), |i: int| (column[i].0, column[i].1@))
}

/// The result is what the plain result says.
pub open spec fn tells<T>(result: MeshResult<T>, wanted: Result<T, Seq<char>>) -> bool {
    match wanted {
        Ok(value) => result == Ok::<T, MeshError>(value),
        Err(message) => fails_file(result, message),
    }
}

/// The kind that all rows of a column of row kinds name.
pub fn kind_of_rows(kinds: &Vec<(bool, String)>) -> (result: MeshResult<RowKind>)
    ensures
        tells(result, rows_kind(slots_of(kinds@))),
{
    let ghost slots = slots_of(kinds@);
    if kinds.len() == 0 || kinds[0].0 {
        return Err(MeshError::invalid_file("record batches must contain at least one row kind"));
    }
    assert(slots[0] == (kinds[0].0, kinds[0].1@));
    let kind = match RowKind::parse(kinds[0].1.as_str()) {
        Some(kind) => kind,
        None => {
            return Err(MeshError::invalid_file("unknown row kind"));
        },
    };
    let mut row: usize = 0;
    while row < kinds.len()
        invariant
            row <= kinds.len(),
            slots == slots_of(kinds@),
            kinds.len() > 0,
            !slots[0].0,
            RowKind::named(slots[0].1) == Some(kind),
            forall|k: int|
                0 <= k < row ==> !(#[trigger] slots[k]).0 && slots[k].1 == kind.name(),
        decreases kinds.len() - row,
    {
        assert(slots[row as int] == (kinds[row as int].0, kinds[row as int].1@));
        if kinds[row].0 || !same_text(kinds[row].1.as_str(), kind.as_str()) {
            return Err(MeshError::invalid_file("record batch mixes row kinds"));
        }
        row += 1;
    }
    Ok(kind)
}

/// The kind of a batch's rows.
pub fn batch_kind(batch: &Batch) -> (result: MeshResult<RowKind>)
    ensures
        if text_columns(*batch).dom().contains("row_kind"@) {
            tells(result, rows_kind(text_columns(*batch)["row_kind"@]))
        } else {
            fails_file(result, missing_column("row_kind"@))
        },
{
    match batch.strings("row_kind") {
        Ok(kinds) => {
            assert(slots_of(kinds@) =~= text_columns(*batch)["row_kind"@]);
            kind_of_rows(&kinds)
        },
        Err(error) => Err(error),
    }
}

/// The six columns that hold bounds, each where the batch has it.
#[derive(Debug)]
pub struct BoundsColumns {
    pub x_min: Option<Vec<(bool, u64)>>,
    pub x_max: Option<Vec<(bool, u64)>>,
    pub y_min: Option<Vec<(bool, u64)>>,
    pub y_max: Option<Vec<(bool, u64)>>,
    pub z_min: Option<Vec<(bool, u64)>>,
    pub z_max: Option<Vec<(bool, u64)>>,
}

/// The column, where it is there, has a slot for the row.
pub open spec fn reaches(column: Option<Vec<(bool, u64)>>, row: int) -> bool {
    column matches Some(slots) ==> 0 <= row < slots@.len()
}

/// The number in a slot.
pub open spec fn number_at(column: Option<Vec<(bool, u64)>>, row: int) -> Real {
    Real { bits: column.unwrap()@[row].1 }
}

/// The slot is null.
pub open spec fn null_at(column: Option<Vec<(bool, u64)>>, row: int) -> bool {
    column.unwrap()@[row].0
}

impl BoundsColumns {
    pub open spec fn covers(self, row: int) -> bool {
        &&& reaches(self.x_min, row)
        &&& reaches(self.x_max, row)
        &&& reaches(self.y_min, row)
        &&& reaches(self.y_max, row)
        &&& reaches(self.z_min, row)
        &&& reaches(self.z_max, row)
    }

    /// The first of the six columns that is not there.
    pub open spec fn absent(self) -> Option<Seq<char>> {
        if self.x_min is None {
            Some("x_min"@)
        } else if self.x_max is None {
            Some("x_max"@)
        } else if self.y_min is None {
            Some("y_min"@)
        } else if self.y_max is None {
            Some("y_max"@)
        } else if self.z_min is None {
            Some("z_min"@)
        } else if self.z_max is None {
            Some("z_max"@)
        } else {
            None
        }
    }

    pub open spec fn all_null(self, row: int) -> bool {
        &&& null_at(self.x_min, row)
        &&& null_at(self.x_max, row)
        &&& null_at(self.y_min, row)
        &&& null_at(self.y_max, row)
        &&& null_at(self.z_min, row)
        &&& null_at(self.z_max, row)
    }

    pub open spec fn some_null(self, row: int) -> bool {
        ||| null_at(self.x_min, row)
        ||| null_at(self.x_max, row)
        ||| null_at(self.y_min, row)
        ||| null_at(self.y_max, row)
        ||| null_at(self.z_min, row)
        ||| null_at(self.z_max, row)
    }

    pub open spec fn low(self, row: int) -> Seq<Real> {
        seq![number_at(self.x_min, row), number_at(self.y_min, row), number_at(self.z_min, row)]
    }

    pub open spec fn high(self, row: int) -> Seq<Real> {
        seq![number_at(self.x_max, row), number_at(self.y_max, row), number_at(self.z_max, row)]
    }

    /// Whether the corners of a row are finite and ordered.
    pub open spec fn ordered(self, row: int) -> bool {
        forall|axis: int|
            0 <= axis < 3 ==> (#[trigger] self.low(row)[axis]).finite() && self.high(
                row,
            )[axis].finite() && self.low(row)[axis].le(self.high(row)[axis])
    }

    /// What is wrong with the bounds of a row, if anything.
    pub open spec fn fault(self, row: int) -> Option<Seq<char>> {
        if self.absent() is Some {
            Some(missing_column(self.absent().unwrap()))
        } else if self.all_null(row) {
            None
        } else if self.some_null(row) {
            Some("bounds columns must be all null or all populated"@)
        } else if !self.ordered(row) {
            Some("row bounds are invalid"@)
        } else {
            None
        }
    }

    /// These are the bounds of a row.
    pub open spec fn gives(self, row: int, bounds: Option<Bounds3>) -> bool {
        match bounds {
            Some(found) => !self.all_null(row) && found.min@ == self.low(row) && found.max@
                == self.high(row),
            None => self.all_null(row),
        }
    }

    /// The bounds of a row: none where all six slots are null.
    pub fn row_bounds(&self, row: usize) -> (result: MeshResult<Option<Bounds3>>)
        requires
            self.covers(row as int),
        ensures
            match self.fault(row as int) {
                Some(message) => fails_file(result, message),
                None => result matches Ok(bounds) && self.gives(row as int, bounds),
            },
    {
        let x_min = match &self.x_min {
            Some(column) => column[row],
            None => {
                return Err(missing("x_min"));
            },
        };
        let x_max = match &self.x_max {
            Some(column) => column[row],
            None => {
                return Err(missing("x_max"));
            },
        };
        let y_min = match &self.y_min {
            Some(column) => column[row],
            None => {
                return Err(missing("y_min"));
            },
        };
        let y_max = match &self.y_max {
            Some(column) => column[row],
            None => {
                return Err(missing("y_max"));
            },
        };
        let z_min = match &self.z_min {
            Some(column) => column[row],
            None => {
                return Err(missing("z_min"));
            },
        };
        let z_max = match &self.z_max {
            Some(column) => column[row],
            None => {
                return Err(missing("z_max"));
            },
        };
        if x_min.0 && x_max.0 && y_min.0 && y_max.0 && z_min.0 && z_max.0 {
            return Ok(None);
        }
        if x_min.0 || x_max.0 || y_min.0 || y_max.0 || z_min.0 || z_max.0 {
            return Err(MeshError::invalid_file("bounds columns must be all null or all populated"));
        }
        let bounds = Bounds3 {
            min: [Real { bits: x_min.1 }, Real { bits: y_min.1 }, Real { bits: z_min.1 }],
            max: [Real { bits: x_max.1 }, Real { bits: y_max.1 }, Real { bits: z_max.1 }],
        };
        assert(bounds.min@ =~= self.low(row as int));
        assert(bounds.max@ =~= self.high(row as int));
        assert(bounds.valid() == self.ordered(row as int)) by {
            assert forall|axis: int| 0 <= axis < 3 implies bounds.min[axis] == self.low(
                row as int,
            )[axis] && bounds.max[axis] == self.high(row as int)[axis] by {
                assert(bounds.min[axis] == bounds.min@[axis]);
                assert(bounds.max[axis] == bounds.max@[axis]);
            }
            if bounds.valid() {
                assert forall|axis: int| 0 <= axis < 3 implies (#[trigger] self.low(
                    row as int,
                )[axis]).finite() && self.high(row as int)[axis].finite() && self.low(
                    row as int,
                )[axis].le(self.high(row as int)[axis]) by {
                    assert(bounds.min[axis].le(bounds.max[axis]));
                    assert(bounds.min[axis].finite());
                    assert(bounds.max[axis].finite());
                }
            }
            if self.ordered(row as int) {
                assert forall|axis: int| 0 <= axis < 3 implies (#[trigger] bounds.min[axis]).le(
                    bounds.max[axis],
                ) && bounds.min[axis].finite() by {
                    assert(self.low(row as int)[axis].finite());
                }
                assert forall|axis: int| 0 <= axis < 3 implies (
                #[trigger] bounds.max[axis]).finite() by {
                    assert(self.low(row as int)[axis].finite());
                }
            }
        }
        if !bounds.is_valid() {
            return Err(MeshError::invalid_file("row bounds are invalid"));
        }
        Ok(Some(bounds))
    }
}

/// The column that `find_f64s` finds under a name.
pub open spec fn found_f64s(column: Option<Vec<(bool, u64)>>, batch: Batch, name: Seq<char>) -> bool {
    match column {
        Some(slots) => f64_columns(batch).dom().contains(name) && slots@ == f64_columns(batch)[name]
            && slots@.len() == batch_rows(batch),
        None => !f64_columns(batch).dom().contains(name),
    }
}

impl BoundsColumns {
    /// These are the bounds columns of the batch.
    pub open spec fn of(self, batch: Batch) -> bool {
        &&& found_f64s(self.x_min, batch, "x_min"@)
        &&& found_f64s(self.x_max, batch, "x_max"@)
        &&& found_f64s(self.y_min, batch, "y_min"@)
        &&& found_f64s(self.y_max, batch, "y_max"@)
        &&& found_f64s(self.z_min, batch, "z_min"@)
        &&& found_f64s(self.z_max, batch, "z_max"@)
    }

    pub fn read(batch: &Batch) -> (result: BoundsColumns)
        ensures
            result.of(*batch),
            forall|row: int| 0 <= row < batch_rows(*batch) ==> #[trigger] result.covers(row),
    {
        BoundsColumns {
            x_min: find_f64s(batch, "x_min"),
            x_max: find_f64s(batch, "x_max"),
            y_min: find_f64s(batch, "y_min"),
            y_max: find_f64s(batch, "y_max"),
            z_min: find_f64s(batch, "z_min"),
            z_max: find_f64s(batch, "z_max"),
        }
    }
}

/// The texts that are there, in order.
pub open spec fn present(list: Seq<Option<String>>) -> Seq<Seq<char>>
    decreases list.len(),
{
    if list.len() == 0 {
        Seq::empty()
    } else {
        match list.last() {
            Some(text) => present(list.drop_last()).push(text@),
            None => present(list.drop_last()),
        }
    }
}

/// A copy of a slot of a column of number lists.
pub fn list_u64(lists: &Vec<Option<Vec<u64>>>, row: usize) -> (result: MeshResult<Vec<u64>>)
    requires
        row < lists.len(),
    ensures
        match lists[row as int] {
            Some(list) => result matches Ok(numbers) && numbers@ == list@,
            None => fails_file(result, "list column must contain u64 values"@),
        },
{
    match &lists[row] {
        Some(list) => {
            let mut numbers: Vec<u64> = Vec::new();
            let mut i: usize = 0;
            while i < list.len()
                invariant
                    i <= list.len(),
                    numbers@ == list@.take(i as int),
                decreases list.len() - i,
            {
                numbers.push(list[i]);
                assert(numbers@ =~= list@.take(i + 1));
                i += 1;
            }
            assert(list@.take(i as int) =~= list@);
            Ok(numbers)
        },
        None => Err(MeshError::invalid_file("list column must contain u64 values")),
    }
}

/// The strings of a slot of a column of string lists, without the nulls.
pub fn list_strings(lists: &Vec<Option<Vec<Option<String>>>>, row: usize) -> (result: MeshResult<
    Vec<String>,
>)
    requires
        row < lists.len(),
    ensures
        match lists[row as int] {
            Some(list) => result matches Ok(strings) && texts(strings@) == present(list@),
            None => fails_file(result, "list column must contain strings"@),
        },
{
    match &lists[row] {
        Some(list) => {
            let mut strings: Vec<String> = Vec::new();
            let mut i: usize = 0;
            assert(texts(strings@) =~= present(list@.take(0)));
            while i < list.len()
                invariant
                    i <= list.len(),
                    texts(strings@) == present(list@.take(i as int)),
                decreases list.len() - i,
            {
                let ghost before = strings@;
                assert(list@.take(i + 1).drop_last() =~= list@.take(i as int));
                match &list[i] {
                    Some(text) => {
                        strings.push(text.clone());
                        assert(texts(strings@) =~= texts(before).push(text@));
                    },
                    None => {},
                }
                i += 1;
            }
            assert(list@.take(i as int) =~= list@);
            Ok(strings)
        },
        None => Err(MeshError::invalid_file("list column must contain strings")),
    }
}

/// The columns of a directory batch.
#[derive(Debug)]
pub struct DirectoryColumns {
    pub indices: Vec<(bool, u64)>,
    pub kinds: Vec<(bool, String)>,
    pub nodes: Vec<(bool, u64)>,
    pub rows: Vec<(bool, u64)>,
    pub bytes: Vec<(bool, u64)>,
    pub element_types: Vec<Option<Vec<Option<String>>>>,
    pub zone_ids: Vec<Option<Vec<u64>>>,
    pub tag_ids: Vec<Option<Vec<u64>>>,
    pub bounds: BoundsColumns,
}

/// The value of a slot, unless it is null.
pub open spec fn optional(slot: (bool, u64)) -> Option<u64> {
    if slot.0 {
        None
    } else {
        Some(slot.1)
    }
}

impl DirectoryColumns {
    /// All columns have a slot for each row.
    pub open spec fn wf(self) -> bool {
        let count = self.indices@.len();
        &&& self.kinds@.len() == count
        &&& self.nodes@.len() == count
        &&& self.rows@.len() == count
        &&& self.bytes@.len() == count
        &&& self.element_types@.len() == count
        &&& self.zone_ids@.len() == count
        &&& self.tag_ids@.len() == count
        &&& forall|row: int| 0 <= row < count ==> #[trigger] self.bounds.covers(row)
    }

    /// What is wrong with a row, if anything.
    pub open spec fn fault(self, row: int) -> Option<Seq<char>> {
        if RowKind::named(self.kinds@[row].1@) is None {
            Some("directory contains an unknown row kind"@)
        } else if self.bounds.fault(row) is Some {
            self.bounds.fault(row)
        } else if self.element_types@[row] is None {
            Some("list column must contain strings"@)
        } else if self.zone_ids@[row] is None || self.tag_ids@[row] is None {
            Some("list column must contain u64 values"@)
        } else {
            None
        }
    }

    /// The entry is what a row says.
    pub open spec fn gives(self, row: int, entry: BatchDirectoryEntry) -> bool {
        &&& entry.batch_index == self.indices@[row].1 as usize
        &&& RowKind::named(self.kinds@[row].1@) == Some(entry.row_kind)
        &&& entry.spatial_node_id == optional(self.nodes@[row])
        &&& self.bounds.gives(row, entry.bounds)
        &&& entry.rows == self.rows@[row].1 as usize
        &&& entry.decoded_bytes == self.bytes@[row].1 as usize
        &&& self.element_types@[row] matches Some(list) && texts(entry.element_types@) == present(
            list@,
        )
        &&& self.zone_ids@[row] matches Some(list) && entry.zone_ids@ == list@
        &&& self.tag_ids@[row] matches Some(list) && entry.tag_ids@ == list@
    }

    /// No row before this one has a fault.
    pub open spec fn sound_before(self, row: int) -> bool {
        forall|i: int| 0 <= i < row ==> (#[trigger] self.fault(i)) is None
    }

    fn entry(&self, row: usize) -> (result: MeshResult<BatchDirectoryEntry>)
        requires
            self.wf(),
            row < self.indices.len(),
        ensures
            match self.fault(row as int) {
                Some(message) => fails_file(result, message),
                None => result matches Ok(entry) && self.gives(row as int, entry),
            },
    {
        let row_kind = match RowKind::parse(self.kinds[row].1.as_str()) {
            Some(kind) => kind,
            None => {
                return Err(MeshError::invalid_file("directory contains an unknown row kind"));
            },
        };
        assert(self.bounds.covers(row as int));
        let bounds = match self.bounds.row_bounds(row) {
            Ok(bounds) => bounds,
            Err(error) => {
                return Err(error);
            },
        };
        let element_types = match list_strings(&self.element_types, row) {
            Ok(list) => list,
            Err(error) => {
                return Err(error);
            },
        };
        let zone_ids = match list_u64(&self.zone_ids, row) {
            Ok(list) => list,
            Err(error) => {
                return Err(error);
            },
        };
        let tag_ids = match list_u64(&self.tag_ids, row) {
            Ok(list) => list,
            Err(error) => {
                return Err(error);
            },
        };
        let node = self.nodes[row];
        Ok(
            BatchDirectoryEntry {
                batch_index: self.indices[row].1 as usize,
                row_kind,
                spatial_node_id: if node.0 {
                    None
                } else {
                    Some(node.1)
                },
                bounds,
                rows: self.rows[row].1 as usize,
                decoded_bytes: self.bytes[row].1 as usize,
                element_types,
                zone_ids,
                tag_ids,
            },
        )
    }

    /// The entries of all rows, or the fault of the first row that has one.
    pub fn entries(&self) -> (result: MeshResult<Vec<BatchDirectoryEntry>>)
        requires
            self.wf(),
        ensures
            match result {
                Ok(entries) => entries@.len() == self.indices@.len() && forall|row: int|
                    0 <= row < entries@.len() ==> (#[trigger] self.fault(row)) is None
                        && self.gives(row, entries@[row]),
                Err(_) => exists|row: int|
                    0 <= row < self.indices@.len() && self.sound_before(row)
                        && (#[trigger] self.fault(row)) is Some && fails_file(
                        result,
                        self.fault(row).unwrap(),
                    ),
            },
    {
        let mut entries: Vec<BatchDirectoryEntry> = Vec::new();
        let mut row: usize = 0;
        while row < self.indices.len()
            invariant
                row <= self.indices.len(),
                self.wf(),
                entries.len() == row,
                forall|i: int|
                    0 <= i < row ==> (#[trigger] self.fault(i)) is None && self.gives(i, entries@[i]),
            decreases self.indices.len() - row,
        {
            match self.entry(row) {
                Ok(entry) => {
                    entries.push(entry);
                },
                Err(error) => {
                    assert(self.sound_before(row as int));
                    assert(self.fault(row as int) is Some);
                    return Err(error);
                },
            }
            row += 1;
        }
        Ok(entries)
    }
}

impl DirectoryColumns {
    /// The first column of a directory batch that the batch lacks.
    pub open spec fn absent(batch: Batch) -> Option<Seq<char>> {
        if !u64_columns(batch).dom().contains("batch_index"@) {
            Some("batch_index"@)
        } else if !text_columns(batch).dom().contains("kind"@) {
            Some("kind"@)
        } else if !u64_columns(batch).dom().contains("spatial_node_id"@) {
            Some("spatial_node_id"@)
        } else if !u64_columns(batch).dom().contains("rows"@) {
            Some("rows"@)
        } else if !u64_columns(batch).dom().contains("decoded_bytes"@) {
            Some("decoded_bytes"@)
        } else if !text_list_columns(batch).dom().contains("element_types"@) {
            Some("element_types"@)
        } else if !u64_list_columns(batch).dom().contains("zone_ids"@) {
            Some("zone_ids"@)
        } else if !u64_list_columns(batch).dom().contains("tag_ids"@) {
            Some("tag_ids"@)
        } else {
            None
        }
    }

    /// These are the columns of the batch.
    pub open spec fn of(self, batch: Batch) -> bool {
        &&& self.wf()
        &&& self.indices@.len() == batch_rows(batch)
        &&& self.indices@ == u64_columns(batch)["batch_index"@]
        &&& same_texts(self.kinds@, text_columns(batch)["kind"@])
        &&& self.nodes@ == u64_columns(batch)["spatial_node_id"@]
        &&& self.rows@ == u64_columns(batch)["rows"@]
        &&& self.bytes@ == u64_columns(batch)["decoded_bytes"@]
        &&& same_text_lists(self.element_types@, text_list_columns(batch)["element_types"@])
        &&& same_lists(self.zone_ids@, u64_list_columns(batch)["zone_ids"@])
        &&& same_lists(self.tag_ids@, u64_list_columns(batch)["tag_ids"@])
        &&& self.bounds.of(batch)
    }

    pub fn read(batch: &Batch) -> (result: MeshResult<DirectoryColumns>)
        ensures
            match DirectoryColumns::absent(*batch) {
                Some(name) => fails_file(result, missing_column(name)),
                None => result matches Ok(columns) && columns.of(*batch),
            },
    {
        let indices = match batch.u64s("batch_index") {
            Ok(column) => column,
            Err(error) => {
                return Err(error);
            },
        };
        let kinds = match batch.strings("kind") {
            Ok(column) => column,
            Err(error) => {
                return Err(error);
            },
        };
        let nodes = match batch.u64s("spatial_node_id") {
            Ok(column) => column,
            Err(error) => {
                return Err(error);
            },
        };
        let rows = match batch.u64s("rows") {
            Ok(column) => column,
            Err(error) => {
                return Err(error);
            },
        };
        let bytes = match batch.u64s("decoded_bytes") {
            Ok(column) => column,
            Err(error) => {
                return Err(error);
            },
        };
        let element_types = match batch.text_lists("element_types") {
            Ok(column) => column,
            Err(error) => {
                return Err(error);
            },
        };
        let zone_ids = match batch.lists("zone_ids") {
            Ok(column) => column,
            Err(error) => {
                return Err(error);
            },
        };
        let tag_ids = match batch.lists("tag_ids") {
            Ok(column) => column,
            Err(error) => {
                return Err(error);
            },
        };
        let bounds = BoundsColumns::read(batch);
        Ok(DirectoryColumns { indices, kinds, nodes, rows, bytes, element_types, zone_ids, tag_ids, bounds })
    }
}

/// The rows of a batch have a kind exactly where there is one and every row names it.
pub proof fn rows_have_one_kind(slots: Seq<(bool, Seq<char>)>, kind: RowKind)
    ensures
        rows_kind(slots) == Ok::<RowKind, Seq<char>>(kind) <==> {
            &&& slots.len() > 0
            &&& RowKind::named(slots[0].1) == Some(kind)
            &&& forall|row: int|
                0 <= row < slots.len() ==> !(#[trigger] slots[row]).0 && slots[row].1 == kind.name()
        },
{
    if rows_kind(slots) == Ok::<RowKind, Seq<char>>(kind) {
        assert forall|row: int| 0 <= row < slots.len() implies !(#[trigger] slots[row]).0
            && slots[row].1 == kind.name() by {}
    }
    if slots.len() > 0 && RowKind::named(slots[0].1) == Some(kind) && forall|row: int|
        0 <= row < slots.len() ==> !(#[trigger] slots[row]).0 && slots[row].1 == kind.name() {
        assert(!slots[0].0);
    }
}

/// A row has bounds where all six numbers are there, finite, and each least one is no
/// greater than its greatest one; it has none where all six are missing.
pub proof fn row_bounds_are_ordered(columns: BoundsColumns, row: int, bounds: Option<Bounds3>)
    requires
        columns.fault(row) is None,
        columns.gives(row, bounds),
    ensures
        columns.absent() is None,
        match bounds {
            Some(found) => forall|axis: int|
                0 <= axis < 3 ==> (#[trigger] found.min@[axis]).finite() && found.max@[axis].finite()
                    && found.min@[axis].le(found.max@[axis]),
            None => columns.x_min.unwrap()@[row].0 && columns.x_max.unwrap()@[row].0
                && columns.y_min.unwrap()@[row].0 && columns.y_max.unwrap()@[row].0
                && columns.z_min.unwrap()@[row].0 && columns.z_max.unwrap()@[row].0,
        },
        bounds matches Some(found) ==> {
            &&& found.min@[0].bits == columns.x_min.unwrap()@[row].1
            &&& found.max@[0].bits == columns.x_max.unwrap()@[row].1
            &&& found.min@[1].bits == columns.y_min.unwrap()@[row].1
            &&& found.max@[1].bits == columns.y_max.unwrap()@[row].1
            &&& found.min@[2].bits == columns.z_min.unwrap()@[row].1
            &&& found.max@[2].bits == columns.z_max.unwrap()@[row].1
        },
{
    if let Some(found) = bounds {
        assert(columns.ordered(row));
        assert forall|axis: int| 0 <= axis < 3 implies (#[trigger] found.min@[axis]).finite()
            && found.max@[axis].finite() && found.min@[axis].le(found.max@[axis]) by {
            assert(columns.low(row)[axis].finite());
        }
    }
}

} // verus!
