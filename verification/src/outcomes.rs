//! An export has one outcome: the mesh and the session that it is read from
//! settle the bytes, or the error.

use vstd::prelude::*;

#[allow(unused_imports)]
use crate::columns::{batch_rows, text_columns, u64_list_columns, Batch};
#[allow(unused_imports)]
use crate::convert::{
    batch_had, batch_lost, batches_had, boundary_batch_fails, boundary_from, boundary_kind_of,
    boundary_unfit, bytes_of, cell_batch_fails, cells_unfit, cells_written, elements_from,
    export_fails, exports, first_numbering, is_export, later_fails, marked_unfit, markers_of,
    numbers_of, point_batch_fails, points_from, points_numbered, rows_of, same_batches_had,
    same_boundary_failure, same_cell_failure, same_loss, su2_text_of, writes_before,
};
#[allow(unused_imports)]
use crate::decoded::{batch_disagrees, element_fault, first_element_fault};
#[allow(unused_imports)]
use crate::error::{MeshError, MeshResult};
#[allow(unused_imports)]
use crate::file::{names_are_distinct, of_kind, MeshFile};
#[allow(unused_imports)]
use crate::rendering::{
    boundary_is_settled, elements_are_settled, elements_begin, markers_are_settled,
    markers_text_is_settled, numbers_settled, points_are_settled, points_text_is_settled,
    repeat_stays, rows_grow, same_element, su2_text_is_unique,
};
#[allow(unused_imports)]
use crate::schema::{BatchDirectoryEntry, RowKind};
#[allow(unused_imports)]
use crate::session::MeshReadSession;
#[allow(unused_imports)]
use crate::su2::{
    cell_error, element_text, marker_fault_is_there, with_markers, with_points, BoundaryLine,
    ElementLine, Marker, Numbering, PointLine,
};

verus! {

/// What is wrong with a batch settles what is said of it.
proof fn disagreements_settled(
    batch: Batch,
    entry: BatchDirectoryEntry,
    a: Seq<char>,
    b: Seq<char>,
)
    requires
        batch_disagrees(batch, entry, a),
        batch_disagrees(batch, entry, b),
    ensures
        a == b,
{
    if first_element_fault(batch, a) && first_element_fault(batch, b) {
        let types = text_columns(batch)["element_type"@];
        let points = u64_list_columns(batch)["point_ids"@];
        let i = choose|row: int|
            0 <= row < batch_rows(batch) && element_fault(#[trigger] types[row], points[row])
                == Some(a) && forall|k: int|
                0 <= k < row ==> element_fault(#[trigger] types[k], points[k]) is None;
        let j = choose|row: int|
            0 <= row < batch_rows(batch) && element_fault(#[trigger] types[row], points[row])
                == Some(b) && forall|k: int|
                0 <= k < row ==> element_fault(#[trigger] types[k], points[k]) is None;
        if i < j {
            assert(element_fault(types[i], points[i]) is None);
        } else if j < i {
            assert(element_fault(types[j], points[j]) is None);
        }
    }
}

/// Why the batch of an entry cannot be had settles the error.
proof fn losses_settled(
    mesh: MeshFile,
    session: MeshReadSession,
    entry: BatchDirectoryEntry,
    a: MeshError,
    b: MeshError,
)
    requires
        batch_lost(mesh, session, entry, a),
        batch_lost(mesh, session, entry, b),
    ensures
        a.agrees_with(b),
{
    let index = entry.batch_index;
    let batch = mesh.batches()[index as int];
    if !mesh.shows(session, index) && session.readable(index as int) {
        disagreements_settled(batch, mesh.entry_of(index), a.text(), b.text());
    }
}

/// A batch of points before which all is well cannot fail if all is well behind
/// it too.
proof fn points_pass_on(
    mesh: MeshFile,
    session: MeshReadSession,
    place: int,
    upto: int,
    error: MeshError,
)
    requires
        point_batch_fails(mesh, session, place, error),
        place < upto <= of_kind(mesh.entries(), RowKind::Point).len(),
        batches_had(mesh, session, of_kind(mesh.entries(), RowKind::Point), upto),
    ensures
        !points_numbered(mesh, of_kind(mesh.entries(), RowKind::Point), upto),
{
    let list = of_kind(mesh.entries(), RowKind::Point);
    let dimension = mesh.header().dimension;
    let start = first_numbering(mesh);
    assert(batch_had(mesh, session, list[place]));
    let few = choose|points: Seq<PointLine>|
        #[trigger] points_from(mesh.batches(), list, place + 1, points) && with_points(
            dimension,
            start,
            points,
            points.len() as int,
        ) == Err::<Numbering, Seq<char>>(error.text());
    if points_numbered(mesh, list, upto) {
        let many = choose|points: Seq<PointLine>|
            #[trigger] points_from(mesh.batches(), list, upto, points) && with_points(
                dimension,
                start,
                points,
                points.len() as int,
            ) is Ok;
        repeat_stays(mesh, list, place + 1, upto, few, many);
    }
}

proof fn point_failures_settled(
    mesh: MeshFile,
    session: MeshReadSession,
    p: int,
    q: int,
    a: MeshError,
    b: MeshError,
)
    requires
        point_batch_fails(mesh, session, p, a),
        point_batch_fails(mesh, session, q, b),
    ensures
        a.agrees_with(b),
{
    let list = of_kind(mesh.entries(), RowKind::Point);
    let dimension = mesh.header().dimension;
    let start = first_numbering(mesh);
    if p < q {
        points_pass_on(mesh, session, p, q, a);
    } else if q < p {
        points_pass_on(mesh, session, q, p, b);
    } else if batch_lost(mesh, session, list[p], a) {
        losses_settled(mesh, session, list[p], a, b);
    } else {
        let first = choose|points: Seq<PointLine>|
            #[trigger] points_from(mesh.batches(), list, p + 1, points) && with_points(
                dimension,
                start,
                points,
                points.len() as int,
            ) == Err::<Numbering, Seq<char>>(a.text());
        let second = choose|points: Seq<PointLine>|
            #[trigger] points_from(mesh.batches(), list, p + 1, points) && with_points(
                dimension,
                start,
                points,
                points.len() as int,
            ) == Err::<Numbering, Seq<char>>(b.text());
        points_are_settled(mesh.batches(), list, p + 1, first, second);
        points_text_is_settled(dimension, start, first, second, first.len() as int);
    }
}

/// A batch of cells before which all is well cannot fail if all is well behind
/// it too.
proof fn cells_pass_on(
    mesh: MeshFile,
    session: MeshReadSession,
    numbers: Map<u64, usize>,
    place: int,
    upto: int,
    error: MeshError,
)
    requires
        cell_batch_fails(mesh, session, numbers, place, error),
        place < upto <= of_kind(mesh.entries(), RowKind::Cell).len(),
        batches_had(mesh, session, of_kind(mesh.entries(), RowKind::Cell), upto),
    ensures
        !cells_written(mesh, numbers, of_kind(mesh.entries(), RowKind::Cell), upto),
{
    let list = of_kind(mesh.entries(), RowKind::Cell);
    assert(batch_had(mesh, session, list[place]));
    rows_grow(mesh.batches(), list, place + 1, upto);
    if cells_written(mesh, numbers, list, upto) {
        let (few, row) = choose|cells: Seq<ElementLine>, row: int|
            #[trigger] elements_from(mesh.batches(), list, place + 1, cells) && 0 <= row < cells.len()
                && writes_before(numbers, cells, row) && (element_text(
                numbers,
                #[trigger] cells[row],
            ) matches Err(fault) && cell_error(Err::<(), MeshError>(error), cells[row], fault));
        let many = choose|cells: Seq<ElementLine>|
            #[trigger] elements_from(mesh.batches(), list, upto, cells) && writes_before(
                numbers,
                cells,
                cells.len() as int,
            );
        elements_begin(mesh.batches(), list, place + 1, upto, few, many);
        assert(same_element(few[row], many.take(few.len() as int)[row]));
        assert(element_text(numbers, many[row]) is Ok);
    }
}

proof fn unfit_cells_settled(
    mesh: MeshFile,
    numbers: Map<u64, usize>,
    list: Seq<BatchDirectoryEntry>,
    count: int,
    a: MeshError,
    b: MeshError,
)
    requires
        cells_unfit(mesh, numbers, list, count, a),
        cells_unfit(mesh, numbers, list, count, b),
    ensures
        a.agrees_with(b),
{
    let (first, i) = choose|cells: Seq<ElementLine>, row: int|
        #[trigger] elements_from(mesh.batches(), list, count, cells) && 0 <= row < cells.len()
            && writes_before(numbers, cells, row) && (element_text(
            numbers,
            #[trigger] cells[row],
        ) matches Err(fault) && cell_error(Err::<(), MeshError>(a), cells[row], fault));
    let (second, j) = choose|cells: Seq<ElementLine>, row: int|
        #[trigger] elements_from(mesh.batches(), list, count, cells) && 0 <= row < cells.len()
            && writes_before(numbers, cells, row) && (element_text(
            numbers,
            #[trigger] cells[row],
        ) matches Err(fault) && cell_error(Err::<(), MeshError>(b), cells[row], fault));
    elements_are_settled(mesh.batches(), list, count, first, second);
    assert(same_element(first[i], second[i]));
    assert(same_element(first[j], second[j]));
    if i < j {
        assert(element_text(numbers, second[i]) is Ok);
    } else if j < i {
        assert(element_text(numbers, first[j]) is Ok);
    }
}

proof fn cell_failures_settled(
    mesh: MeshFile,
    session: MeshReadSession,
    numbers: Map<u64, usize>,
    p: int,
    q: int,
    a: MeshError,
    b: MeshError,
)
    requires
        cell_batch_fails(mesh, session, numbers, p, a),
        cell_batch_fails(mesh, session, numbers, q, b),
    ensures
        a.agrees_with(b),
{
    let list = of_kind(mesh.entries(), RowKind::Cell);
    if p < q {
        cells_pass_on(mesh, session, numbers, p, q, a);
    } else if q < p {
        cells_pass_on(mesh, session, numbers, q, p, b);
    } else if batch_lost(mesh, session, list[p], a) {
        losses_settled(mesh, session, list[p], a, b);
    } else if rows_of(mesh.batches(), list, p + 1) <= usize::MAX {
        unfit_cells_settled(mesh, numbers, list, p + 1, a, b);
    }
}

proof fn boundary_failures_settled(
    mesh: MeshFile,
    session: MeshReadSession,
    p: int,
    q: int,
    a: MeshError,
    b: MeshError,
)
    requires
        boundary_batch_fails(mesh, session, p, a),
        boundary_batch_fails(mesh, session, q, b),
    ensures
        a.agrees_with(b),
{
    let list = of_kind(mesh.entries(), boundary_kind_of(mesh.header().dimension));
    if p < q {
        assert(batch_had(mesh, session, list[p]));
    } else if q < p {
        assert(batch_had(mesh, session, list[q]));
    } else {
        losses_settled(mesh, session, list[p], a, b);
    }
}

proof fn unfit_boundary_settled(
    mesh: MeshFile,
    numbers: Map<u64, usize>,
    a: MeshError,
    b: MeshError,
)
    requires
        mesh.wf(),
        boundary_unfit(mesh, numbers, a),
        boundary_unfit(mesh, numbers, b),
    ensures
        a.agrees_with(b),
{
    let list = of_kind(mesh.entries(), boundary_kind_of(mesh.header().dimension));
    let (first, marks) = choose|lines: Seq<BoundaryLine>, markers: Seq<Marker>|
        boundary_from(mesh.batches(), list, list.len() as int, lines) && #[trigger] markers_of(
            mesh,
            lines,
            markers,
        ) && marked_unfit(numbers, lines, markers, a);
    let (second, others) = choose|lines: Seq<BoundaryLine>, markers: Seq<Marker>|
        boundary_from(mesh.batches(), list, list.len() as int, lines) && #[trigger] markers_of(
            mesh,
            lines,
            markers,
        ) && marked_unfit(numbers, lines, markers, b);
    names_are_distinct(mesh);
    boundary_is_settled(mesh.batches(), list, list.len() as int, first, second);
    markers_are_settled(mesh, first, second, marks, others);
    let count = marks.len() as int;
    markers_text_is_settled(numbers, Seq::empty(), first, second, marks, others, count);
    marker_fault_is_there(numbers, Seq::empty(), first, marks, count);
    if let Err(fault) = with_markers(numbers, Seq::empty(), first, marks, count) {
        assert(first[fault.0].tag == second[fault.0].tag);
        assert(same_element(first[fault.0].element, second[fault.0].element));
    }
}

proof fn later_failures_settled(
    mesh: MeshFile,
    session: MeshReadSession,
    numbers: Map<u64, usize>,
    a: MeshError,
    b: MeshError,
)
    requires
        mesh.wf(),
        later_fails(mesh, session, numbers, a),
        later_fails(mesh, session, numbers, b),
    ensures
        a.agrees_with(b),
{
    let cells = of_kind(mesh.entries(), RowKind::Cell).len() as int;
    let edges = of_kind(mesh.entries(), boundary_kind_of(mesh.header().dimension));
    let p = choose|place: int| #[trigger] cell_batch_fails(mesh, session, numbers, place, a);
    let q = choose|place: int| #[trigger] cell_batch_fails(mesh, session, numbers, place, b);
    let r = choose|place: int| #[trigger] boundary_batch_fails(mesh, session, place, a);
    let s = choose|place: int| #[trigger] boundary_batch_fails(mesh, session, place, b);
    if cell_batch_fails(mesh, session, numbers, p, a) {
        if cell_batch_fails(mesh, session, numbers, q, b) {
            cell_failures_settled(mesh, session, numbers, p, q, a, b);
        } else {
            cells_pass_on(mesh, session, numbers, p, cells, a);
        }
    } else if cell_batch_fails(mesh, session, numbers, q, b) {
        cells_pass_on(mesh, session, numbers, q, cells, b);
    } else if boundary_batch_fails(mesh, session, r, a) {
        if boundary_batch_fails(mesh, session, s, b) {
            boundary_failures_settled(mesh, session, r, s, a, b);
        } else {
            assert(batch_had(mesh, session, edges[r]));
        }
    } else if boundary_batch_fails(mesh, session, s, b) {
        assert(batch_had(mesh, session, edges[s]));
    } else {
        unfit_boundary_settled(mesh, numbers, a, b);
    }
}

/// The error of an export that fails is settled by the mesh and the session.
pub proof fn export_error_is_unique(
    mesh: MeshFile,
    session: MeshReadSession,
    a: MeshError,
    b: MeshError,
)
    requires
        mesh.wf(),
        export_fails(mesh, session, a),
        export_fails(mesh, session, b),
    ensures
        a.agrees_with(b),
{
    let list = of_kind(mesh.entries(), RowKind::Point);
    let all = list.len() as int;
    let p = choose|place: int| #[trigger] point_batch_fails(mesh, session, place, a);
    let q = choose|place: int| #[trigger] point_batch_fails(mesh, session, place, b);
    if point_batch_fails(mesh, session, p, a) {
        if point_batch_fails(mesh, session, q, b) {
            point_failures_settled(mesh, session, p, q, a, b);
        } else {
            numbered_points(mesh);
            points_pass_on(mesh, session, p, all, a);
        }
    } else if point_batch_fails(mesh, session, q, b) {
        numbered_points(mesh);
        points_pass_on(mesh, session, q, all, b);
    } else {
        let first = choose|numbers: Map<u64, usize>| #[trigger]
            numbers_of(mesh, numbers) && later_fails(mesh, session, numbers, a);
        let second = choose|numbers: Map<u64, usize>| #[trigger]
            numbers_of(mesh, numbers) && later_fails(mesh, session, numbers, b);
        numbers_settled(mesh, first, second);
        later_failures_settled(mesh, session, first, a, b);
    }
}

proof fn numbered_points(mesh: MeshFile)
    requires
        exists|numbers: Map<u64, usize>| #[trigger] numbers_of(mesh, numbers),
    ensures
        points_numbered(
            mesh,
            of_kind(mesh.entries(), RowKind::Point),
            of_kind(mesh.entries(), RowKind::Point).len() as int,
        ),
{
    let numbers = choose|numbers: Map<u64, usize>| #[trigger] numbers_of(mesh, numbers);
    let list = of_kind(mesh.entries(), RowKind::Point);
    let points = choose|points: Seq<PointLine>|
        #[trigger] points_from(mesh.batches(), list, list.len() as int, points) && (with_points(
            mesh.header().dimension,
            first_numbering(mesh),
            points,
            points.len() as int,
        ) matches Ok(last) && last.numbers == numbers);
    assert(points_from(mesh.batches(), list, list.len() as int, points));
}

proof fn same_point_failure(
    mesh: MeshFile,
    a: MeshReadSession,
    b: MeshReadSession,
    place: int,
    error: MeshError,
)
    requires
        b.same_file(a),
        point_batch_fails(mesh, b, place, error),
    ensures
        point_batch_fails(mesh, a, place, error),
{
    let list = of_kind(mesh.entries(), RowKind::Point);
    same_batches_had(mesh, a, b, list, place);
    same_loss(mesh, a, b, list[place], error);
}

proof fn same_later_failure(
    mesh: MeshFile,
    a: MeshReadSession,
    b: MeshReadSession,
    numbers: Map<u64, usize>,
    error: MeshError,
)
    requires
        b.same_file(a),
        later_fails(mesh, b, numbers, error),
    ensures
        later_fails(mesh, a, numbers, error),
{
    let cells = of_kind(mesh.entries(), RowKind::Cell);
    let edges = of_kind(mesh.entries(), boundary_kind_of(mesh.header().dimension));
    if exists|place: int| #[trigger] cell_batch_fails(mesh, b, numbers, place, error) {
        let place = choose|place: int| #[trigger]
            cell_batch_fails(mesh, b, numbers, place, error);
        same_cell_failure(mesh, a, b, numbers, place, error);
    } else {
        same_batches_had(mesh, a, b, cells, cells.len() as int);
        if exists|place: int| #[trigger] boundary_batch_fails(mesh, b, place, error) {
            let place = choose|place: int| #[trigger] boundary_batch_fails(mesh, b, place, error);
            same_boundary_failure(mesh, a, b, place, error);
        } else {
            same_batches_had(mesh, a, b, edges, edges.len() as int);
        }
    }
}

/// Sessions that read the same export the same.
proof fn same_file_same_export(
    mesh: MeshFile,
    a: MeshReadSession,
    b: MeshReadSession,
    result: MeshResult<Vec<u8>>,
)
    requires
        b.same_file(a),
        is_export(mesh, b, result),
    ensures
        is_export(mesh, a, result),
{
    same_exports(mesh, a, b);
    same_exports(mesh, b, a);
    if let Err(error) = result {
        if exists|place: int| #[trigger] point_batch_fails(mesh, b, place, error) {
            let place = choose|place: int| #[trigger] point_batch_fails(mesh, b, place, error);
            same_point_failure(mesh, a, b, place, error);
        } else {
            let points = of_kind(mesh.entries(), RowKind::Point);
            same_batches_had(mesh, a, b, points, points.len() as int);
            let numbers = choose|numbers: Map<u64, usize>| #[trigger]
                numbers_of(mesh, numbers) && later_fails(mesh, b, numbers, error);
            same_later_failure(mesh, a, b, numbers, error);
        }
    }
}

proof fn same_exports(mesh: MeshFile, a: MeshReadSession, b: MeshReadSession)
    requires
        b.same_file(a),
    ensures
        exports(mesh, b) ==> exports(mesh, a),
{
    if exports(mesh, b) {
        let points = of_kind(mesh.entries(), RowKind::Point);
        let cells = of_kind(mesh.entries(), RowKind::Cell);
        let edges = of_kind(mesh.entries(), boundary_kind_of(mesh.header().dimension));
        same_batches_had(mesh, a, b, points, points.len() as int);
        same_batches_had(mesh, a, b, cells, cells.len() as int);
        same_batches_had(mesh, a, b, edges, edges.len() as int);
    }
}

/// Exporting a mesh has one outcome, by whichever function and however often it
/// is exported from sessions that read the same: the same bytes, or the same
/// error.
pub proof fn export_is_settled(
    mesh: MeshFile,
    first_session: MeshReadSession,
    second_session: MeshReadSession,
    a: MeshResult<Vec<u8>>,
    b: MeshResult<Vec<u8>>,
)
    requires
        mesh.wf(),
        second_session.same_file(first_session),
        is_export(mesh, first_session, a),
        is_export(mesh, second_session, b),
    ensures
        match a {
            Ok(bytes) => b matches Ok(others) && bytes@ == others@,
            Err(error) => b matches Err(other) && error.agrees_with(other),
        },
{
    same_file_same_export(mesh, first_session, second_session, b);
    if a is Ok {
        let first = choose|text: Seq<char>|
            su2_text_of(mesh, text) && a->Ok_0@ == #[trigger] bytes_of(text);
        let second = choose|text: Seq<char>|
            su2_text_of(mesh, text) && b->Ok_0@ == #[trigger] bytes_of(text);
        su2_text_is_unique(mesh, first, second);
    } else {
        export_error_is_unique(mesh, first_session, a->Err_0, b->Err_0);
    }
}

} // verus!
