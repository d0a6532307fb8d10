//! Whether a decoded batch is what its directory row promises.

use vstd::prelude::*;

#[allow(unused_imports)]
use crate::columns::{batch_rows, f64_columns, text_columns, u64_list_columns};
use crate::columns::Batch;
#[allow(unused_imports)]
use crate::error::fails_file;
use crate::error::{MeshError, MeshResult};
use crate::number::Real;
use crate::rows::batch_kind;
#[allow(unused_imports)]
use crate::rows::{missing_column, rows_kind};
#[allow(unused_imports)]
use crate::schema::arity_ok;
use crate::schema::{expected_points, BatchDirectoryEntry, RowKind};
#[allow(unused_imports)]
use crate::text::decimal;
use crate::text::{append_decimal, join, sentence};

verus! {

/// A slot holds a finite number.
pub open spec fn finite_slot(slot: (bool, u64)) -> bool {
    !slot.0 && (Real { bits: slot.1 }).finite()
}

/// Every row of three coordinate columns holds finite numbers.
pub open spec fn finite_rows(
    x: Seq<(bool, u64)>,
    y: Seq<(bool, u64)>,
    z: Seq<(bool, u64)>,
) -> bool {
    forall|row: int|
        0 <= row < x.len() ==> finite_slot(#[trigger] x[row]) && finite_slot(y[row])
            && finite_slot(z[row])
}

fn is_finite_slot(slot: (bool, u64)) -> (result: bool)
    ensures
        result == finite_slot(slot),
{
    let number = Real { bits: slot.1 };
    !slot.0 && number.is_finite()
}

/// Whether the coordinates of a point batch are all there and finite.
pub fn check_points(
    x: &Vec<(bool, u64)>,
    y: &Vec<(bool, u64)>,
    z: &Vec<(bool, u64)>,
) -> (result: MeshResult<()>)
    requires
        x.len() == y.len(),
        x.len() == z.len(),
    ensures
        if finite_rows(x@, y@, z@) {
            result is Ok
        } else {
            fails_file(result, "point batch contains null or non-finite coordinates"@)
        },
{
    let mut row: usize = 0;
    while row < x.len()
        invariant
            row <= x.len(),
            x.len() == y.len(),
            x.len() == z.len(),
            forall|k: int|
                0 <= k < row ==> finite_slot(#[trigger] x@[k]) && finite_slot(y@[k])
                    && finite_slot(z@[k]),
        decreases x.len() - row,
    {
        let finite = is_finite_slot(x[row]) && is_finite_slot(y[row]) && is_finite_slot(z[row]);
        assert(finite == (finite_slot(x@[row as int]) && finite_slot(y@[row as int])
            && finite_slot(z@[row as int])));
        if !finite {
            return Err(
                MeshError::invalid_file("point batch contains null or non-finite coordinates"),
            );
        }
        assert forall|k: int| 0 <= k < row + 1 implies finite_slot(#[trigger] x@[k]) && finite_slot(
            y@[k],
        ) && finite_slot(z@[k]) by {
            if k < row {
                assert(finite_slot(x@[k]));
            }
        }
        row += 1;
    }
    Ok(())
}

/// What is wrong with a row of an element batch, if anything.
pub open spec fn element_fault(kind: (bool, Seq<char>), points: Option<Seq<u64>>) -> Option<
    Seq<char>,
> {
    if kind.0 {
        Some("element batch has a null element type"@)
    } else {
        match points {
            None => Some("list column must contain u64 values"@),
            Some(list) => if !arity_ok(kind.1, list.len()) {
                Some(kind.1 + " row has invalid arity "@ + decimal(list.len()))
            } else {
                None
            },
        }
    }
}

/// The fault of a row of exec columns.
pub open spec fn row_fault(
    types: Seq<(bool, String)>,
    points: Seq<Option<Vec<u64>>>,
    row: int,
) -> Option<Seq<char>> {
    element_fault(
        (types[row].0, types[row].1@),
        match points[row] {
            Some(list) => Some(list@),
            None => None,
        },
    )
}

/// Whether every element of a batch has a known type and as many points as the
/// type asks for.
pub fn check_elements(types: &Vec<(bool, String)>, points: &Vec<Option<Vec<u64>>>) -> (result:
    MeshResult<()>)
    requires
        types.len() == points.len(),
    ensures
        match result {
            Ok(_) => forall|row: int|
                0 <= row < types@.len() ==> (#[trigger] row_fault(types@, points@, row)) is None,
            Err(_) => exists|row: int|
                0 <= row < types@.len() && (#[trigger] row_fault(types@, points@, row)) is Some && (
                forall|k: int|
                    0 <= k < row ==> (#[trigger] row_fault(types@, points@, k)) is None)
                    && fails_file(result, row_fault(types@, points@, row).unwrap()),
        },
{
    let mut row: usize = 0;
    while row < types.len()
        invariant
            row <= types.len(),
            types.len() == points.len(),
            forall|k: int| 0 <= k < row ==> (#[trigger] row_fault(types@, points@, k)) is None,
        decreases types.len() - row,
    {
        if types[row].0 {
            assert(row_fault(types@, points@, row as int) is Some);
            return Err(MeshError::invalid_file("element batch has a null element type"));
        }
        match &points[row] {
            None => {
                assert(row_fault(types@, points@, row as int) is Some);
                return Err(MeshError::invalid_file("list column must contain u64 values"));
            },
            Some(list) => {
                let count: usize = list.len();
                let suits = match expected_points(types[row].1.as_str()) {
                    Some(range) => range.0 <= count && count <= range.1,
                    None => false,
                };
                if !suits {
                    assert(row_fault(types@, points@, row as int) is Some);
                    let mut text = join(types[row].1.as_str(), " row has invalid arity ");
                    append_decimal(&mut text, count as u64);
                    return Err(MeshError::InvalidFile(text));
                }
            },
        }
        assert(row_fault(types@, points@, row as int) is None);
        row += 1;
    }
    Ok(())
}

/// The batch's rows are of the kind and number that the directory says.
pub open spec fn kind_agrees(batch: Batch, entry: BatchDirectoryEntry) -> bool {
    &&& text_columns(batch).dom().contains("row_kind"@)
    &&& rows_kind(text_columns(batch)["row_kind"@]) == Ok::<RowKind, Seq<char>>(entry.row_kind)
    &&& batch_rows(batch) == entry.rows
}

/// Point rows have finite coordinates.
pub open spec fn points_agree(batch: Batch) -> bool {
    &&& f64_columns(batch).dom().contains("x"@)
    &&& f64_columns(batch).dom().contains("y"@)
    &&& f64_columns(batch).dom().contains("z"@)
    &&& finite_rows(f64_columns(batch)["x"@], f64_columns(batch)["y"@], f64_columns(batch)["z"@])
}

/// Element rows have a known type and the number of points that it asks for.
pub open spec fn elements_agree(batch: Batch) -> bool {
    &&& text_columns(batch).dom().contains("element_type"@)
    &&& u64_list_columns(batch).dom().contains("point_ids"@)
    &&& forall|row: int|
        0 <= row < batch_rows(batch) ==> element_fault(
            #[trigger] text_columns(batch)["element_type"@][row],
            u64_list_columns(batch)["point_ids"@][row],
        ) is None
}

/// The kind holds points.
pub open spec fn holds_points(kind: RowKind) -> bool {
    kind is Point || kind is PreviewPoint
}

/// The kind holds elements.
pub open spec fn holds_elements(kind: RowKind) -> bool {
    kind is Edge || kind is Face || kind is Cell || kind is PreviewElement
}

/// The batch is what its directory row promises.
pub open spec fn batch_agrees(batch: Batch, entry: BatchDirectoryEntry) -> bool {
    &&& kind_agrees(batch, entry)
    &&& holds_points(entry.row_kind) ==> points_agree(batch)
    &&& holds_elements(entry.row_kind) ==> elements_agree(batch)
}

/// The first row of an element batch with a fault has this one.
pub open spec fn first_element_fault(batch: Batch, message: Seq<char>) -> bool {
    exists|row: int|
        0 <= row < batch_rows(batch) && element_fault(
            #[trigger] text_columns(batch)["element_type"@][row],
            u64_list_columns(batch)["point_ids"@][row],
        ) == Some(message) && forall|k: int|
            0 <= k < row ==> element_fault(
                #[trigger] text_columns(batch)["element_type"@][k],
                u64_list_columns(batch)["point_ids"@][k],
            ) is None
}

/// The message says in what the batch's rows are not of the kind and number
/// that the directory says.
pub open spec fn kind_disagrees(
    batch: Batch,
    entry: BatchDirectoryEntry,
    message: Seq<char>,
) -> bool {
    if !text_columns(batch).dom().contains("row_kind"@) {
        message == missing_column("row_kind"@)
    } else {
        match rows_kind(text_columns(batch)["row_kind"@]) {
            Err(text) => message == text,
            Ok(_) => !kind_agrees(batch, entry) && message == "decoded batch "@ + decimal(
                entry.batch_index as nat,
            ) + " disagrees with its directory row"@,
        }
    }
}

/// The message says what is wrong with a batch of points.
pub open spec fn points_disagree(batch: Batch, message: Seq<char>) -> bool {
    if !f64_columns(batch).dom().contains("x"@) {
        message == missing_column("x"@)
    } else if !f64_columns(batch).dom().contains("y"@) {
        message == missing_column("y"@)
    } else if !f64_columns(batch).dom().contains("z"@) {
        message == missing_column("z"@)
    } else {
        !points_agree(batch) && message == "point batch contains null or non-finite coordinates"@
    }
}

/// The message says what is wrong with a batch of elements.
pub open spec fn elements_disagree(batch: Batch, message: Seq<char>) -> bool {
    if !text_columns(batch).dom().contains("element_type"@) {
        message == missing_column("element_type"@)
    } else if !u64_list_columns(batch).dom().contains("point_ids"@) {
        message == missing_column("point_ids"@)
    } else {
        first_element_fault(batch, message)
    }
}

/// The message says in what a batch is not what its directory row promises.
pub open spec fn batch_disagrees(
    batch: Batch,
    entry: BatchDirectoryEntry,
    message: Seq<char>,
) -> bool {
    if !kind_agrees(batch, entry) {
        kind_disagrees(batch, entry, message)
    } else if holds_points(entry.row_kind) {
        points_disagree(batch, message)
    } else {
        holds_elements(entry.row_kind) && elements_disagree(batch, message)
    }
}

fn check_kind(batch: &Batch, entry: &BatchDirectoryEntry) -> (result: MeshResult<()>)
    ensures
        match result {
            Ok(_) => kind_agrees(*batch, *entry),
            Err(error) => error is InvalidFile && !kind_agrees(*batch, *entry) && kind_disagrees(
                *batch,
                *entry,
                error.text(),
            ),
        },
{
    match batch_kind(batch) {
        Ok(kind) => {
            if kind != entry.row_kind || batch.num_rows() != entry.rows {
                return Err(
                    MeshError::InvalidFile(
                        sentence(
                            "decoded batch ",
                            entry.batch_index as u64,
                            " disagrees with its directory row",
                        ),
                    ),
                );
            }
            Ok(())
        },
        Err(error) => Err(error),
    }
}

fn check_point_batch(batch: &Batch) -> (result: MeshResult<()>)
    ensures
        match result {
            Ok(_) => points_agree(*batch),
            Err(error) => error is InvalidFile && !points_agree(*batch) && points_disagree(
                *batch,
                error.text(),
            ),
        },
{
    let x = match batch.f64s("x") {
        Ok(column) => column,
        Err(error) => {
            return Err(error);
        },
    };
    let y = match batch.f64s("y") {
        Ok(column) => column,
        Err(error) => {
            return Err(error);
        },
    };
    let z = match batch.f64s("z") {
        Ok(column) => column,
        Err(error) => {
            return Err(error);
        },
    };
    check_points(&x, &y, &z)
}

fn check_element_batch(batch: &Batch) -> (result: MeshResult<()>)
    ensures
        match result {
            Ok(_) => elements_agree(*batch),
            Err(error) => error is InvalidFile && !elements_agree(*batch) && elements_disagree(
                *batch,
                error.text(),
            ),
        },
{
    let types = match batch.strings("element_type") {
        Ok(column) => column,
        Err(error) => {
            return Err(error);
        },
    };
    let points = match batch.lists("point_ids") {
        Ok(column) => column,
        Err(error) => {
            return Err(error);
        },
    };
    assert forall|row: int| 0 <= row < types@.len() implies #[trigger] row_fault(
        types@,
        points@,
        row,
    ) == element_fault(
        text_columns(*batch)["element_type"@][row],
        u64_list_columns(*batch)["point_ids"@][row],
    ) by {
        let slot = types@[row];
        let list = points@[row];
    }
    let result = check_elements(&types, &points);
    proof {
        if result is Ok {
            assert forall|row: int| 0 <= row < batch_rows(*batch) implies element_fault(
                #[trigger] text_columns(*batch)["element_type"@][row],
                u64_list_columns(*batch)["point_ids"@][row],
            ) is None by {
                assert(row_fault(types@, points@, row) is None);
            }
        } else {
            let row = choose|row: int|
                0 <= row < types@.len() && (#[trigger] row_fault(types@, points@, row)) is Some && (
                forall|k: int|
                    0 <= k < row ==> (#[trigger] row_fault(types@, points@, k)) is None)
                    && fails_file(result, row_fault(types@, points@, row).unwrap());
            let slot = text_columns(*batch)["element_type"@][row];
            assert forall|k: int| 0 <= k < row implies element_fault(
                #[trigger] text_columns(*batch)["element_type"@][k],
                u64_list_columns(*batch)["point_ids"@][k],
            ) is None by {
                assert(row_fault(types@, points@, k) is None);
            }
        }
    }
    result
}

/// Whether a decoded batch is what its directory row promises.
pub fn validate_decoded_batch(batch: &Batch, entry: &BatchDirectoryEntry) -> (result: MeshResult<()>)
    ensures
        match result {
            Ok(_) => batch_agrees(*batch, *entry),
            Err(error) => error is InvalidFile && !batch_agrees(*batch, *entry) && batch_disagrees(
                *batch,
                *entry,
                error.text(),
            ),
        },
{
    match check_kind(batch, entry) {
        Ok(_) => {},
        Err(error) => {
            return Err(error);
        },
    }
    let kind = entry.row_kind;
    match kind {
        RowKind::Point | RowKind::PreviewPoint => check_point_batch(batch),
        RowKind::Edge | RowKind::Face | RowKind::Cell | RowKind::PreviewElement => check_element_batch(
            batch,
        ),
        _ => Ok(()),
    }
}

} // verus!
