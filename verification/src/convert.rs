//! Exporters from finished mesh files.

use vstd::prelude::*;
use vstd::string::StringExecFns;

use crate::columns::{find_f64_texts, Batch};
#[allow(unused_imports)]
use crate::columns::{
    batch_rows, bool_columns, f64_columns, same_lists, same_texts, scientific_text, text_columns,
    u64_columns, u64_list_columns,
};
#[allow(unused_imports)]
use crate::error::fails_input;
use crate::error::{MeshError, MeshResult};
use crate::file::MeshFile;
#[allow(unused_imports)]
use crate::file::{has_entry, of_kind, referred};
#[allow(unused_imports)]
use crate::rendering::{failed_export, marker_faults_settled};
#[allow(unused_imports)]
use crate::session::from_outside;
use crate::session::MeshReadSession;
#[allow(unused_imports)]
use crate::names::listed;
use crate::rows::list_u64;
#[allow(unused_imports)]
use crate::rows::missing_column;
use crate::schema::RowKind;
#[allow(unused_imports)]
use crate::schema::BatchDirectoryEntry;
#[allow(unused_imports)]
use crate::sorted::Key;
use crate::su2::{
    marker_tags, write_cells, write_markers, BoundaryLine, ElementLine, Marker, PointLine,
    PointNumbers,
};
#[allow(unused_imports)]
use crate::su2::{
    boundary_error, cell_error, cell_fault_is_there, element_text, tags_of, with_cells,
    with_markers, with_points, ElementFault, Numbering,
};
use crate::text::{append_decimal, join, quoted, same_text};
#[allow(unused_imports)]
use crate::text::{debug_text, decimal};

verus! {

/// The line says what a row of a point batch says.
pub open spec fn point_line_of(batch: Batch, row: int, line: PointLine) -> bool {
    &&& line.id == u64_columns(batch)["entity_id"@][row].1
    &&& line.ghost_row == bool_columns(batch)["ghost"@][row].1
    &&& line.x@ == scientific_text(f64_columns(batch)["x"@][row].1)
    &&& line.y@ == scientific_text(f64_columns(batch)["y"@][row].1)
    &&& line.z@ == scientific_text(f64_columns(batch)["z"@][row].1)
}

/// The lines are those of a point batch.
pub open spec fn point_lines_of(batch: Batch, lines: Seq<PointLine>) -> bool {
    &&& lines.len() == batch_rows(batch)
    &&& forall|row: int| 0 <= row < lines.len() ==> point_line_of(batch, row, #[trigger] lines[row])
}

/// The lines are those of the first point batches of a list.
pub open spec fn points_from(
    batches: Seq<Batch>,
    entries: Seq<BatchDirectoryEntry>,
    count: int,
    lines: Seq<PointLine>,
) -> bool
    decreases count,
{
    if count <= 0 {
        lines.len() == 0
    } else {
        let batch = batches[entries[count - 1].batch_index as int];
        let split = lines.len() - batch_rows(batch);
        0 <= split && point_lines_of(batch, lines.skip(split)) && points_from(
            batches,
            entries,
            count - 1,
            lines.take(split),
        )
    }
}

/// The line says what a row of an element batch says.
pub open spec fn element_line_of(batch: Batch, row: int, line: ElementLine) -> bool {
    &&& line.element_type@ == text_columns(batch)["element_type"@][row].1
    &&& u64_list_columns(batch)["point_ids"@][row] == Some(line.points@)
}

/// The lines are those of an element batch.
pub open spec fn element_lines_of(batch: Batch, lines: Seq<ElementLine>) -> bool {
    &&& lines.len() == batch_rows(batch)
    &&& forall|row: int|
        0 <= row < lines.len() ==> element_line_of(batch, row, #[trigger] lines[row])
}

/// The lines are those of the first element batches of a list.
pub open spec fn elements_from(
    batches: Seq<Batch>,
    entries: Seq<BatchDirectoryEntry>,
    count: int,
    lines: Seq<ElementLine>,
) -> bool
    decreases count,
{
    if count <= 0 {
        lines.len() == 0
    } else {
        let batch = batches[entries[count - 1].batch_index as int];
        let split = lines.len() - batch_rows(batch);
        0 <= split && element_lines_of(batch, lines.skip(split)) && elements_from(
            batches,
            entries,
            count - 1,
            lines.take(split),
        )
    }
}

/// The row lies on the boundary.
pub open spec fn on_boundary(batch: Batch, row: int) -> bool {
    !bool_columns(batch)["boundary"@][row].0 && bool_columns(batch)["boundary"@][row].1
}

/// The first tag of a list, 0 for an empty one.
pub open spec fn first_tag(tags: Seq<u64>) -> u64 {
    if tags.len() == 0 {
        0
    } else {
        tags[0]
    }
}

/// The line says what a row of a boundary batch says.
pub open spec fn boundary_line_of(batch: Batch, row: int, line: BoundaryLine) -> bool {
    &&& u64_list_columns(batch)["tag_ids"@][row] matches Some(tags) && line.tag == first_tag(tags)
    &&& element_line_of(batch, row, line.element)
}

/// The lines are earlier ones and then those of the boundary rows among the
/// first rows of a batch.
pub open spec fn boundary_lines_after(
    batch: Batch,
    rows: int,
    before: Seq<BoundaryLine>,
    lines: Seq<BoundaryLine>,
) -> bool
    decreases rows,
{
    if rows <= 0 {
        lines == before
    } else if on_boundary(batch, rows - 1) {
        lines.len() > 0 && boundary_line_of(batch, rows - 1, lines.last()) && boundary_lines_after(
            batch,
            rows - 1,
            before,
            lines.drop_last(),
        )
    } else {
        boundary_lines_after(batch, rows - 1, before, lines)
    }
}

/// The lines are those of the boundary rows of the first batches of a list.
pub open spec fn boundary_from(
    batches: Seq<Batch>,
    entries: Seq<BatchDirectoryEntry>,
    count: int,
    lines: Seq<BoundaryLine>,
) -> bool
    decreases count,
{
    if count <= 0 {
        lines.len() == 0
    } else {
        exists|before: Seq<BoundaryLine>|
            boundary_from(batches, entries, count - 1, before) && #[trigger] boundary_lines_after(
                batches[entries[count - 1].batch_index as int],
                batch_rows(batches[entries[count - 1].batch_index as int]) as int,
                before,
                lines,
            )
    }
}

/// The label of a tag: its name in the catalog, or "boundary".
pub open spec fn label_of(mesh: MeshFile, tag: u64, label: Seq<char>) -> bool {
    if listed(mesh.names(), "tag"@, tag) {
        exists|i: int|
            0 <= i < mesh.names().len() && (#[trigger] mesh.names()[i]).kind == "tag"@
                && mesh.names()[i].id == tag && mesh.names()[i].name == label
    } else {
        label == "boundary"@
    }
}

/// The markers are the tags of the lines, in order, with their labels.
pub open spec fn markers_of(mesh: MeshFile, lines: Seq<BoundaryLine>, markers: Seq<Marker>) -> bool {
    &&& forall|i: int|
        0 <= i < markers.len() ==> tags_of(lines).contains((#[trigger] markers[i]).tag) && label_of(
            mesh,
            markers[i].tag,
            markers[i].label@,
        )
    &&& forall|i: int, j: int|
        0 <= i < j < markers.len() ==> (#[trigger] markers[i]).tag < (#[trigger] markers[j]).tag
    &&& forall|tag: u64| #[trigger]
        tags_of(lines).contains(tag) ==> exists|i: int|
            0 <= i < markers.len() && (#[trigger] markers[i]).tag == tag
}

/// The kind of the boundary elements of a mesh.
pub open spec fn boundary_kind_of(dimension: u8) -> RowKind {
    if dimension == 2 {
        RowKind::Edge
    } else {
        RowKind::Face
    }
}

/// The text before the points.
pub open spec fn header_text(dimension: u8, points: u64) -> Seq<char> {
    "NDIME= "@ + decimal(dimension as nat) + "\nNPOIN= "@ + decimal(points as nat) + "\n"@
}

/// The text is the SU2 text of these points, cells, boundary elements and
/// markers.
pub open spec fn is_su2_text(
    mesh: MeshFile,
    points: Seq<PointLine>,
    cells: Seq<ElementLine>,
    lines: Seq<BoundaryLine>,
    markers: Seq<Marker>,
    text: Seq<char>,
) -> bool {
    let header = mesh.header();
    let start = first_numbering(mesh);
    with_points(header.dimension, start, points, points.len() as int) matches Ok(numbered)
        && with_cells(
        numbered.numbers,
        numbered.text + "NELEM= "@ + decimal(header.counts.cells as nat) + "\n"@,
        0,
        cells,
        cells.len() as int,
    ) matches Ok(body) && with_markers(
        numbered.numbers,
        body + "NMARK= "@ + decimal(markers.len()) + "\n"@,
        lines,
        markers,
        markers.len() as int,
    ) == Ok::<Seq<char>, (int, ElementFault)>(text)
}

/// The lists are what the batches of the mesh say.
pub open spec fn lists_of(
    mesh: MeshFile,
    points: Seq<PointLine>,
    cells: Seq<ElementLine>,
    lines: Seq<BoundaryLine>,
) -> bool {
    let kind = boundary_kind_of(mesh.header().dimension);
    let point_entries = of_kind(mesh.entries(), RowKind::Point);
    let cell_entries = of_kind(mesh.entries(), RowKind::Cell);
    let boundary_entries = of_kind(mesh.entries(), kind);
    &&& points_from(mesh.batches(), point_entries, point_entries.len() as int, points)
    &&& elements_from(mesh.batches(), cell_entries, cell_entries.len() as int, cells)
    &&& boundary_from(mesh.batches(), boundary_entries, boundary_entries.len() as int, lines)
}

/// The text is the SU2 text of the mesh.
pub open spec fn su2_text_of(mesh: MeshFile, text: Seq<char>) -> bool {
    exists|
        points: Seq<PointLine>,
        cells: Seq<ElementLine>,
        lines: Seq<BoundaryLine>,
        markers: Seq<Marker>,
    |
        lists_of(mesh, points, cells, lines) && markers_of(mesh, lines, markers)
            && #[trigger] is_su2_text(mesh, points, cells, lines, markers, text)
}

/// The column that a point batch lacks, if any.
pub open spec fn point_column_absent(batch: Batch) -> Option<Seq<char>> {
    if !u64_columns(batch).dom().contains("entity_id"@) {
        Some("entity_id"@)
    } else if !bool_columns(batch).dom().contains("ghost"@) {
        Some("ghost"@)
    } else if !f64_columns(batch).dom().contains("x"@) {
        Some("x"@)
    } else if !f64_columns(batch).dom().contains("y"@) {
        Some("y"@)
    } else if !f64_columns(batch).dom().contains("z"@) {
        Some("z"@)
    } else {
        None
    }
}

/// The column that an element batch lacks, if any.
pub open spec fn element_column_absent(batch: Batch) -> Option<Seq<char>> {
    if !text_columns(batch).dom().contains("element_type"@) {
        Some("element_type"@)
    } else if !u64_list_columns(batch).dom().contains("point_ids"@) {
        Some("point_ids"@)
    } else {
        None
    }
}

/// The column that a batch of boundary elements lacks, if any.
pub open spec fn boundary_column_absent(batch: Batch) -> Option<Seq<char>> {
    if !bool_columns(batch).dom().contains("boundary"@) {
        Some("boundary"@)
    } else if !u64_list_columns(batch).dom().contains("tag_ids"@) {
        Some("tag_ids"@)
    } else {
        element_column_absent(batch)
    }
}

/// A row of the batch has no list of points.
pub open spec fn lacks_points(batch: Batch, row: int) -> bool {
    u64_list_columns(batch)["point_ids"@][row] is None
}

/// A boundary row of the batch has no list of tags or of points.
pub open spec fn lacks_tags_or_points(batch: Batch, row: int) -> bool {
    on_boundary(batch, row) && (u64_list_columns(batch)["tag_ids"@][row] is None || lacks_points(
        batch,
        row,
    ))
}

/// The message says why the rows of an element batch cannot be had.
pub open spec fn elements_unread(batch: Batch, message: Seq<char>) -> bool {
    match element_column_absent(batch) {
        Some(name) => message == missing_column(name),
        None => message == "list column must contain u64 values"@ && exists|row: int|
            0 <= row < batch_rows(batch) && #[trigger] lacks_points(batch, row),
    }
}

/// The message says why the boundary rows of a batch cannot be had.
pub open spec fn boundary_unread(batch: Batch, message: Seq<char>) -> bool {
    match boundary_column_absent(batch) {
        Some(name) => message == missing_column(name),
        None => message == "list column must contain u64 values"@ && exists|row: int|
            0 <= row < batch_rows(batch) && #[trigger] lacks_tags_or_points(batch, row),
    }
}

/// The message says why the rows of a batch of an exact kind cannot be had.
pub open spec fn rows_unread(batch: Batch, kind: RowKind, message: Seq<char>) -> bool {
    if kind is Point {
        point_column_absent(batch) matches Some(name) && message == missing_column(name)
    } else if kind is Cell {
        elements_unread(batch, message)
    } else {
        boundary_unread(batch, message)
    }
}

/// The boundary rows of a batch can be had.
pub open spec fn boundary_rows_had(batch: Batch) -> bool {
    boundary_column_absent(batch) is None && forall|row: int|
        0 <= row < batch_rows(batch) ==> !(#[trigger] lacks_tags_or_points(batch, row))
}

/// The rows of a batch of an exact kind can be had.
pub open spec fn rows_had(batch: Batch, kind: RowKind) -> bool {
    if kind is Point {
        point_column_absent(batch) is None
    } else if kind is Cell {
        element_column_absent(batch) is None && forall|row: int|
            0 <= row < batch_rows(batch) ==> !(#[trigger] lacks_points(batch, row))
    } else {
        boundary_rows_had(batch)
    }
}

/// The batch of an entry can be read, is what the entry promises, and its rows
/// can be had.
pub open spec fn batch_had(
    mesh: MeshFile,
    session: MeshReadSession,
    entry: BatchDirectoryEntry,
) -> bool {
    mesh.shows(session, entry.batch_index) && rows_had(
        mesh.batches()[entry.batch_index as int],
        entry.row_kind,
    )
}

/// The first batches of a list can all be had.
pub open spec fn batches_had(
    mesh: MeshFile,
    session: MeshReadSession,
    list: Seq<BatchDirectoryEntry>,
    count: int,
) -> bool {
    forall|k: int| 0 <= k < count ==> batch_had(mesh, session, #[trigger] list[k])
}

/// The error says why the batch of an entry cannot be had.
pub open spec fn batch_lost(
    mesh: MeshFile,
    session: MeshReadSession,
    entry: BatchDirectoryEntry,
    error: MeshError,
) -> bool {
    if mesh.shows(session, entry.batch_index) {
        let batch = mesh.batches()[entry.batch_index as int];
        !rows_had(batch, entry.row_kind) && error is InvalidFile && rows_unread(
            batch,
            entry.row_kind,
            error.text(),
        )
    } else {
        mesh.view_fails(session, entry.batch_index, error)
    }
}

/// The numbering before the first point.
pub open spec fn first_numbering(mesh: MeshFile) -> Numbering {
    Numbering {
        text: header_text(mesh.header().dimension, mesh.header().counts.points),
        numbers: Map::empty(),
        next: 0,
    }
}

/// The points of the first batches of a list can be numbered.
pub open spec fn points_numbered(
    mesh: MeshFile,
    list: Seq<BatchDirectoryEntry>,
    count: int,
) -> bool {
    exists|points: Seq<PointLine>|
        #[trigger] points_from(mesh.batches(), list, count, points) && with_points(
            mesh.header().dimension,
            first_numbering(mesh),
            points,
            points.len() as int,
        ) is Ok
}

/// The message says which point of the first batches of a list has more than
/// one owner row.
pub open spec fn points_repeat(
    mesh: MeshFile,
    list: Seq<BatchDirectoryEntry>,
    count: int,
    message: Seq<char>,
) -> bool {
    exists|points: Seq<PointLine>|
        #[trigger] points_from(mesh.batches(), list, count, points) && with_points(
            mesh.header().dimension,
            first_numbering(mesh),
            points,
            points.len() as int,
        ) == Err::<Numbering, Seq<char>>(message)
}

/// The export ends with this error at a batch of points.
pub open spec fn point_batch_fails(
    mesh: MeshFile,
    session: MeshReadSession,
    place: int,
    error: MeshError,
) -> bool {
    let list = of_kind(mesh.entries(), RowKind::Point);
    &&& 0 <= place < list.len()
    &&& batches_had(mesh, session, list, place)
    &&& points_numbered(mesh, list, place)
    &&& {
        ||| batch_lost(mesh, session, list[place], error)
        ||| batch_had(mesh, session, list[place]) && error is InvalidFile && points_repeat(
            mesh,
            list,
            place + 1,
            error.text(),
        )
    }
}

/// The points of the mesh have these numbers.
pub open spec fn numbers_of(mesh: MeshFile, numbers: Map<u64, usize>) -> bool {
    let list = of_kind(mesh.entries(), RowKind::Point);
    exists|points: Seq<PointLine>|
        #[trigger] points_from(mesh.batches(), list, list.len() as int, points) && (with_points(
            mesh.header().dimension,
            first_numbering(mesh),
            points,
            points.len() as int,
        ) matches Ok(last) && last.numbers == numbers)
}

/// The number of rows of the first batches of a list.
pub open spec fn rows_of(batches: Seq<Batch>, list: Seq<BatchDirectoryEntry>, count: int) -> nat
    decreases count,
{
    if count <= 0 {
        0
    } else {
        rows_of(batches, list, count - 1) + batch_rows(
            batches[list[count - 1].batch_index as int],
        )
    }
}

/// The elements up to a row can be written.
pub open spec fn writes_before(
    numbers: Map<u64, usize>,
    cells: Seq<ElementLine>,
    row: int,
) -> bool {
    forall|k: int| 0 <= k < row ==> (element_text(numbers, #[trigger] cells[k])) is Ok
}

/// The cells of the first batches of a list can be written and counted.
pub open spec fn cells_written(
    mesh: MeshFile,
    numbers: Map<u64, usize>,
    list: Seq<BatchDirectoryEntry>,
    count: int,
) -> bool {
    rows_of(mesh.batches(), list, count) <= usize::MAX && exists|cells: Seq<ElementLine>|
        #[trigger] elements_from(mesh.batches(), list, count, cells) && writes_before(
            numbers,
            cells,
            cells.len() as int,
        )
}

/// The error says which cell of the first batches of a list is the first that
/// cannot be written.
pub open spec fn cells_unfit(
    mesh: MeshFile,
    numbers: Map<u64, usize>,
    list: Seq<BatchDirectoryEntry>,
    count: int,
    error: MeshError,
) -> bool {
    exists|cells: Seq<ElementLine>, row: int|
        #[trigger] elements_from(mesh.batches(), list, count, cells) && 0 <= row < cells.len()
            && writes_before(numbers, cells, row) && (element_text(
            numbers,
            #[trigger] cells[row],
        ) matches Err(fault) && cell_error(Err::<(), MeshError>(error), cells[row], fault))
}

/// The export ends with this error at a batch of cells: it cannot be had, there
/// are more cells than a machine word can number, or one cannot be written.
pub open spec fn cell_batch_fails(
    mesh: MeshFile,
    session: MeshReadSession,
    numbers: Map<u64, usize>,
    place: int,
    error: MeshError,
) -> bool {
    let list = of_kind(mesh.entries(), RowKind::Cell);
    &&& 0 <= place < list.len()
    &&& batches_had(mesh, session, list, place)
    &&& cells_written(mesh, numbers, list, place)
    &&& {
        ||| batch_lost(mesh, session, list[place], error)
        ||| batch_had(mesh, session, list[place]) && if rows_of(mesh.batches(), list, place + 1)
            > usize::MAX {
            error is LimitExceeded && error.text() == "SU2 export cannot number so many elements"@
        } else {
            cells_unfit(mesh, numbers, list, place + 1, error)
        }
    }
}

/// The export ends with this error at a batch of boundary elements.
pub open spec fn boundary_batch_fails(
    mesh: MeshFile,
    session: MeshReadSession,
    place: int,
    error: MeshError,
) -> bool {
    let list = of_kind(mesh.entries(), boundary_kind_of(mesh.header().dimension));
    &&& 0 <= place < list.len()
    &&& batches_had(mesh, session, list, place)
    &&& batch_lost(mesh, session, list[place], error)
}

/// These boundary elements under these markers have a first that cannot be
/// written, and the error says which.
pub open spec fn marked_unfit(
    numbers: Map<u64, usize>,
    lines: Seq<BoundaryLine>,
    markers: Seq<Marker>,
    error: MeshError,
) -> bool {
    with_markers(numbers, Seq::empty(), lines, markers, markers.len() as int) matches Err(fault)
        && boundary_error(Err::<(), MeshError>(error), lines[fault.0], fault.1)
}

/// The error says which boundary element is the first that cannot be written.
pub open spec fn boundary_unfit(
    mesh: MeshFile,
    numbers: Map<u64, usize>,
    error: MeshError,
) -> bool {
    let list = of_kind(mesh.entries(), boundary_kind_of(mesh.header().dimension));
    exists|lines: Seq<BoundaryLine>, markers: Seq<Marker>|
        boundary_from(mesh.batches(), list, list.len() as int, lines) && #[trigger] markers_of(
            mesh,
            lines,
            markers,
        ) && marked_unfit(numbers, lines, markers, error)
}

/// The batches of points can all be had.
pub open spec fn points_had(mesh: MeshFile, session: MeshReadSession) -> bool {
    let list = of_kind(mesh.entries(), RowKind::Point);
    batches_had(mesh, session, list, list.len() as int)
}

/// The batches of cells can all be had, counted and written.
pub open spec fn cells_had(
    mesh: MeshFile,
    session: MeshReadSession,
    numbers: Map<u64, usize>,
) -> bool {
    let list = of_kind(mesh.entries(), RowKind::Cell);
    batches_had(mesh, session, list, list.len() as int) && cells_written(
        mesh,
        numbers,
        list,
        list.len() as int,
    )
}

/// The batches of boundary elements can all be had.
pub open spec fn boundary_had(mesh: MeshFile, session: MeshReadSession) -> bool {
    let list = of_kind(mesh.entries(), boundary_kind_of(mesh.header().dimension));
    batches_had(mesh, session, list, list.len() as int)
}

/// The error with which an export ends behind the points, given their numbers.
pub open spec fn later_fails(
    mesh: MeshFile,
    session: MeshReadSession,
    numbers: Map<u64, usize>,
    error: MeshError,
) -> bool {
    ||| exists|place: int| #[trigger] cell_batch_fails(mesh, session, numbers, place, error)
    ||| cells_had(mesh, session, numbers) && exists|place: int| #[trigger]
        boundary_batch_fails(mesh, session, place, error)
    ||| cells_had(mesh, session, numbers) && boundary_had(mesh, session) && boundary_unfit(
        mesh,
        numbers,
        error,
    )
}

/// The error with which the export of a mesh from a session ends: what comes
/// first of what is in its way, points before cells before boundary elements,
/// batch by batch.
pub open spec fn export_fails(mesh: MeshFile, session: MeshReadSession, error: MeshError) -> bool {
    ||| exists|place: int| #[trigger] point_batch_fails(mesh, session, place, error)
    ||| points_had(mesh, session) && exists|numbers: Map<u64, usize>| #[trigger]
        numbers_of(mesh, numbers) && later_fails(mesh, session, numbers, error)
}

/// The mesh can be exported from the session: the batches of its points, cells
/// and boundary elements can all be had, its cells can be counted, and it has an
/// SU2 text.
pub open spec fn exports(mesh: MeshFile, session: MeshReadSession) -> bool {
    let cells = of_kind(mesh.entries(), RowKind::Cell);
    &&& points_had(mesh, session)
    &&& batches_had(mesh, session, cells, cells.len() as int)
    &&& rows_of(mesh.batches(), cells, cells.len() as int) <= usize::MAX
    &&& boundary_had(mesh, session)
    &&& exists|text: Seq<char>| su2_text_of(mesh, text)
}

proof fn kind_entries_are_listed(entries: Seq<BatchDirectoryEntry>, kind: RowKind)
    ensures
        forall|i: int|
            0 <= i < of_kind(entries, kind).len() ==> entries.contains(
                #[trigger] of_kind(entries, kind)[i],
            ) && of_kind(entries, kind)[i].row_kind == kind,
{
    let keep = |entry: BatchDirectoryEntry| entry.row_kind == kind;
    let list = of_kind(entries, kind);
    assert forall|i: int| 0 <= i < list.len() implies entries.contains(#[trigger] list[i])
        && list[i].row_kind == kind by {
        assert(list.contains(list[i]));
        entries.lemma_filter_contains_rev(keep, list[i]);
        entries.lemma_filter_pred(keep, i);
    }
}

proof fn listed_entry(mesh: MeshFile, entry: BatchDirectoryEntry)
    requires
        mesh.wf(),
        mesh.entries().contains(entry),
    ensures
        has_entry(mesh.entries(), entry.batch_index),
        mesh.entry_of(entry.batch_index) == entry,
{
    let place = mesh.entries().index_of(entry);
    assert(mesh.entries()[place] == entry);
    mesh.entry_is_its_own(place);
}

proof fn same_view(
    mesh: MeshFile,
    a: MeshReadSession,
    b: MeshReadSession,
    index: usize,
    error: MeshError,
)
    requires
        b.same_file(a),
    ensures
        mesh.shows(a, index) == mesh.shows(b, index),
        mesh.view_fails(a, index, error) == mesh.view_fails(b, index, error),
{
}

fn coordinate_texts(batch: &Batch, name: &str) -> (result: MeshResult<Vec<String>>)
    ensures
        match result {
            Ok(column) => f64_columns(*batch).dom().contains(name@) && column.len() == batch_rows(
                *batch,
            ) && forall|i: int|
                0 <= i < column@.len() ==> (#[trigger] column@[i])@ == scientific_text(
                    f64_columns(*batch)[name@][i].1,
                ),
            Err(error) => !f64_columns(*batch).dom().contains(name@) && error is InvalidFile
                && error.text() == missing_column(name@),
        },
{
    match find_f64_texts(batch, name) {
        Some(column) => Ok(column),
        None => Err(
            MeshError::InvalidFile(
                join("missing or invalid Arrow column ", quoted(name).as_str()),
            ),
        ),
    }
}

/// The lines of a point batch.
pub fn point_lines(batch: &Batch) -> (result: MeshResult<Vec<PointLine>>)
    ensures
        match result {
            Ok(lines) => rows_had(*batch, RowKind::Point) && point_lines_of(*batch, lines@),
            Err(error) => error is InvalidFile && (point_column_absent(*batch) matches Some(name)
                && error.text() == missing_column(name)),
        },
{
    let ids = match batch.u64s("entity_id") {
        Ok(column) => column,
        Err(error) => {
            return Err(error);
        },
    };
    let ghosts = match batch.bools("ghost") {
        Ok(column) => column,
        Err(error) => {
            return Err(error);
        },
    };
    let x = match coordinate_texts(batch, "x") {
        Ok(column) => column,
        Err(error) => {
            return Err(error);
        },
    };
    let y = match coordinate_texts(batch, "y") {
        Ok(column) => column,
        Err(error) => {
            return Err(error);
        },
    };
    let z = match coordinate_texts(batch, "z") {
        Ok(column) => column,
        Err(error) => {
            return Err(error);
        },
    };
    let mut lines: Vec<PointLine> = Vec::new();
    let mut row: usize = 0;
    while row < ids.len()
        invariant
            row <= ids.len(),
            ids.len() == batch_rows(*batch),
            ghosts.len() == ids.len(),
            x.len() == ids.len(),
            y.len() == ids.len(),
            z.len() == ids.len(),
            ids@ == u64_columns(*batch)["entity_id"@],
            ghosts@ == bool_columns(*batch)["ghost"@],
            forall|i: int|
                0 <= i < x@.len() ==> (#[trigger] x@[i])@ == scientific_text(
                    f64_columns(*batch)["x"@][i].1,
                ),
            forall|i: int|
                0 <= i < y@.len() ==> (#[trigger] y@[i])@ == scientific_text(
                    f64_columns(*batch)["y"@][i].1,
                ),
            forall|i: int|
                0 <= i < z@.len() ==> (#[trigger] z@[i])@ == scientific_text(
                    f64_columns(*batch)["z"@][i].1,
                ),
            lines.len() == row,
            forall|i: int| 0 <= i < row ==> point_line_of(*batch, i, #[trigger] lines@[i]),
        decreases ids.len() - row,
    {
        lines.push(
            PointLine {
                id: ids[row].1,
                ghost_row: ghosts[row].1,
                x: x[row].clone(),
                y: y[row].clone(),
                z: z[row].clone(),
            },
        );
        assert(point_line_of(*batch, row as int, lines@[row as int]));
        row += 1;
    }
    Ok(lines)
}

fn element_line(
    types: &Vec<(bool, String)>,
    points: &Vec<Option<Vec<u64>>>,
    row: usize,
) -> (result: MeshResult<ElementLine>)
    requires
        row < types.len(),
        row < points.len(),
    ensures
        match result {
            Ok(line) => line.element_type@ == types@[row as int].1@ && (
            points@[row as int] matches Some(list) && list@ == line.points@),
            Err(error) => points@[row as int] is None && error is InvalidFile && error.text()
                == "list column must contain u64 values"@,
        },
{
    match list_u64(points, row) {
        Ok(list) => Ok(ElementLine { element_type: types[row].1.clone(), points: list }),
        Err(error) => Err(error),
    }
}

/// The lines of a cell batch.
pub fn element_lines(batch: &Batch) -> (result: MeshResult<Vec<ElementLine>>)
    ensures
        match result {
            Ok(lines) => rows_had(*batch, RowKind::Cell) && element_lines_of(*batch, lines@),
            Err(error) => error is InvalidFile && elements_unread(*batch, error.text()),
        },
{
    let types = match batch.strings("element_type") {
        Ok(column) => column,
        Err(error) => {
            return Err(error);
        },
    };
    let points = match batch.lists("point_ids") {
        Ok(column) => column,
        Err(error) => {
            return Err(error);
        },
    };
    let mut lines: Vec<ElementLine> = Vec::new();
    let mut row: usize = 0;
    while row < types.len()
        invariant
            row <= types.len(),
            element_column_absent(*batch) is None,
            types.len() == batch_rows(*batch),
            points.len() == types.len(),
            same_texts(types@, text_columns(*batch)["element_type"@]),
            same_lists(points@, u64_list_columns(*batch)["point_ids"@]),
            lines.len() == row,
            forall|i: int| 0 <= i < row ==> element_line_of(*batch, i, #[trigger] lines@[i]),
        decreases types.len() - row,
    {
        assert(types@[row as int].1@ == text_columns(*batch)["element_type"@][row as int].1);
        let ghost list = points@[row as int];
        match element_line(&types, &points, row) {
            Ok(line) => {
                assert(element_line_of(*batch, row as int, line));
                lines.push(line);
            },
            Err(error) => {
                assert(lacks_points(*batch, row as int));
                return Err(error);
            },
        }
        row += 1;
    }
    assert forall|k: int| 0 <= k < batch_rows(*batch) implies !(#[trigger] lacks_points(
        *batch,
        k,
    )) by {
        assert(element_line_of(*batch, k, lines@[k]));
    }
    Ok(lines)
}

/// Adds the boundary rows of a batch to the lines before them.
pub fn append_boundary(lines: &mut Vec<BoundaryLine>, batch: &Batch) -> (result: MeshResult<()>)
    ensures
        match result {
            Ok(_) => boundary_rows_had(*batch) && boundary_lines_after(
                *batch,
                batch_rows(*batch) as int,
                old(lines)@,
                final(lines)@,
            ),
            Err(error) => error is InvalidFile && boundary_unread(*batch, error.text()),
        },
{
    let boundary = match batch.bools("boundary") {
        Ok(column) => column,
        Err(error) => {
            return Err(error);
        },
    };
    let tags = match batch.lists("tag_ids") {
        Ok(column) => column,
        Err(error) => {
            return Err(error);
        },
    };
    let types = match batch.strings("element_type") {
        Ok(column) => column,
        Err(error) => {
            return Err(error);
        },
    };
    let points = match batch.lists("point_ids") {
        Ok(column) => column,
        Err(error) => {
            return Err(error);
        },
    };
    let ghost start = lines@;
    let mut row: usize = 0;
    while row < boundary.len()
        invariant
            row <= boundary.len(),
            boundary_column_absent(*batch) is None,
            boundary.len() == batch_rows(*batch),
            tags.len() == boundary.len(),
            types.len() == boundary.len(),
            points.len() == boundary.len(),
            boundary@ == bool_columns(*batch)["boundary"@],
            same_lists(tags@, u64_list_columns(*batch)["tag_ids"@]),
            same_texts(types@, text_columns(*batch)["element_type"@]),
            same_lists(points@, u64_list_columns(*batch)["point_ids"@]),
            start == old(lines)@,
            boundary_lines_after(*batch, row as int, start, lines@),
            forall|k: int| 0 <= k < row ==> !(#[trigger] lacks_tags_or_points(*batch, k)),
        decreases boundary.len() - row,
    {
        if !boundary[row].0 && boundary[row].1 {
            let ghost before = lines@;
            assert(types@[row as int].1@ == text_columns(*batch)["element_type"@][row as int].1);
            let ghost list = points@[row as int];
            let ghost names = tags@[row as int];
            let tag: u64 = match &tags[row] {
                Some(list) => if list.len() == 0 {
                    0
                } else {
                    list[0]
                },
                None => {
                    assert(lacks_tags_or_points(*batch, row as int));
                    return Err(MeshError::invalid_file("list column must contain u64 values"));
                },
            };
            match element_line(&types, &points, row) {
                Ok(element) => {
                    let line = BoundaryLine { tag, element };
                    assert(boundary_line_of(*batch, row as int, line));
                    lines.push(line);
                    assert(lines@.drop_last() =~= before);
                },
                Err(error) => {
                    assert(lacks_tags_or_points(*batch, row as int));
                    return Err(error);
                },
            }
        }
        row += 1;
    }
    Ok(())
}

proof fn points_join(
    dimension: u8,
    seen: Numbering,
    a: Seq<PointLine>,
    b: Seq<PointLine>,
    count: int,
    middle: Numbering,
)
    requires
        0 <= count <= b.len(),
        with_points(dimension, seen, a, a.len() as int) == Ok::<Numbering, Seq<char>>(middle),
    ensures
        with_points(dimension, seen, a + b, a.len() + count) == with_points(
            dimension,
            middle,
            b,
            count,
        ),
    decreases count,
{
    if count > 0 {
        points_join(dimension, seen, a, b, count - 1, middle);
        assert((a + b)[a.len() + count - 1] == b[count - 1]);
    } else {
        same_points(dimension, seen, a, a + b, a.len() as int);
    }
}

proof fn same_points(
    dimension: u8,
    seen: Numbering,
    a: Seq<PointLine>,
    b: Seq<PointLine>,
    count: int,
)
    requires
        count <= a.len(),
        count <= b.len(),
        forall|i: int| 0 <= i < count ==> a[i] == b[i],
    ensures
        with_points(dimension, seen, a, count) == with_points(dimension, seen, b, count),
    decreases count,
{
    if count > 0 {
        same_points(dimension, seen, a, b, count - 1);
    }
}

proof fn cells_join(
    numbers: Map<u64, usize>,
    text: Seq<char>,
    a: Seq<ElementLine>,
    b: Seq<ElementLine>,
    count: int,
    middle: Seq<char>,
)
    requires
        0 <= count <= b.len(),
        with_cells(numbers, text, 0, a, a.len() as int) == Ok::<Seq<char>, (int, ElementFault)>(
            middle,
        ),
        with_cells(numbers, middle, a.len(), b, count) is Ok,
    ensures
        with_cells(numbers, text, 0, a + b, a.len() + count) == with_cells(
            numbers,
            middle,
            a.len(),
            b,
            count,
        ),
    decreases count,
{
    if count > 0 {
        cells_join(numbers, text, a, b, count - 1, middle);
        assert((a + b)[a.len() + count - 1] == b[count - 1]);
    } else {
        same_cells(numbers, text, a, a + b, a.len() as int);
    }
}

proof fn same_cells(
    numbers: Map<u64, usize>,
    text: Seq<char>,
    a: Seq<ElementLine>,
    b: Seq<ElementLine>,
    count: int,
)
    requires
        count <= a.len(),
        count <= b.len(),
        forall|i: int| 0 <= i < count ==> a[i] == b[i],
    ensures
        with_cells(numbers, text, 0, a, count) == with_cells(numbers, text, 0, b, count),
    decreases count,
{
    if count > 0 {
        same_cells(numbers, text, a, b, count - 1);
    }
}

proof fn lines_are_counted(
    batches: Seq<Batch>,
    list: Seq<BatchDirectoryEntry>,
    count: int,
    cells: Seq<ElementLine>,
)
    requires
        elements_from(batches, list, count, cells),
    ensures
        cells.len() == rows_of(batches, list, count),
    decreases count,
{
    if count > 0 {
        let batch = batches[list[count - 1].batch_index as int];
        let split = cells.len() - batch_rows(batch);
        lines_are_counted(batches, list, count - 1, cells.take(split));
    }
}

proof fn first_cell_fault(
    numbers: Map<u64, usize>,
    text: Seq<char>,
    first: nat,
    cells: Seq<ElementLine>,
    rows: int,
)
    requires
        rows <= cells.len(),
    ensures
        with_cells(numbers, text, first, cells, rows) matches Err(fault) ==> writes_before(
            numbers,
            cells,
            fault.0,
        ),
        with_cells(numbers, text, first, cells, rows) is Ok ==> writes_before(numbers, cells, rows),
    decreases rows,
{
    if rows > 0 {
        first_cell_fault(numbers, text, first, cells, rows - 1);
    }
}

fn write_points(mesh: &MeshFile, session: &mut MeshReadSession) -> (result: MeshResult<
    (PointNumbers, Ghost<Seq<PointLine>>),
>)
    requires
        mesh.wf(),
        old(session).reads(mesh.stored()),
    ensures
        final(session).same_file(*old(session)),
        match result {
            Ok(written) => {
                let numbered = written.0;
                let points = written.1@;
                let header = mesh.header();
                let entries = of_kind(mesh.entries(), RowKind::Point);
                let start = first_numbering(*mesh);
                &&& numbered.wf()
                &&& points_had(*mesh, *old(session))
                &&& points_from(mesh.batches(), entries, entries.len() as int, points)
                &&& with_points(header.dimension, start, points, points.len() as int) == Ok::<
                    Numbering,
                    Seq<char>,
                >(numbered@)
            },
            Err(error) => exists|place: int| #[trigger]
                point_batch_fails(*mesh, *old(session), place, error),
        },
{
    let dimension: u8 = mesh.manifest().dimension;
    let mut text = "NDIME= ".to_owned();
    append_decimal(&mut text, dimension as u64);
    text.append("\nNPOIN= ");
    append_decimal(&mut text, mesh.manifest().counts.points);
    text.append("\n");
    assert(text@ =~= header_text(dimension, mesh.header().counts.points));
    let mut numbered = PointNumbers::new(text);
    let ghost start = numbered@;
    let ghost first = *session;
    let ghost mut points: Seq<PointLine> = Seq::empty();
    let entries = mesh.entity_batches(RowKind::Point);
    let ghost list = of_kind(mesh.entries(), RowKind::Point);
    proof {
        kind_entries_are_listed(mesh.entries(), RowKind::Point);
    }
    let mut i: usize = 0;
    while i < entries.len()
        invariant
            i <= entries.len(),
            mesh.wf(),
            first == *old(session),
            session.same_file(first),
            first.reads(mesh.stored()),
            dimension == mesh.header().dimension,
            start == first_numbering(*mesh),
            referred(entries@) == list,
            list == of_kind(mesh.entries(), RowKind::Point),
            forall|k: int|
                0 <= k < list.len() ==> mesh.entries().contains(#[trigger] list[k])
                    && list[k].row_kind == RowKind::Point,
            numbered.wf(),
            batches_had(*mesh, first, list, i as int),
            points_from(mesh.batches(), list, i as int, points),
            with_points(dimension, start, points, points.len() as int) == Ok::<
                Numbering,
                Seq<char>,
            >(numbered@),
        decreases entries.len() - i,
    {
        assert(referred(entries@)[i as int] == *entries@[i as int]);
        assert(points_numbered(*mesh, list, i as int));
        let ghost entry = list[i as int];
        let ghost current = *session;
        proof {
            listed_entry(*mesh, entry);
        }
        let view = match mesh.view_from(session, entries[i].batch_index) {
            Ok(view) => view,
            Err(error) => {
                proof {
                    same_view(*mesh, first, current, entry.batch_index, error);
                    assert(point_batch_fails(*mesh, first, i as int, error));
                }
                return Err(error);
            },
        };
        assert(mesh.shows(first, entry.batch_index) == mesh.shows(current, entry.batch_index));
        let lines = match point_lines(&view.batch) {
            Ok(lines) => lines,
            Err(error) => {
                assert(batch_lost(*mesh, first, entry, error));
                assert(point_batch_fails(*mesh, first, i as int, error));
                return Err(error);
            },
        };
        assert(batch_had(*mesh, first, entry));
        let ghost middle = numbered@;
        proof {
            points_join(dimension, start, points, lines@, lines@.len() as int, middle);
            let more = points + lines@;
            assert(more.skip(points.len() as int) =~= lines@);
            assert(more.take(points.len() as int) =~= points);
            assert(points_from(mesh.batches(), list, i + 1, more));
            points = more;
        }
        match numbered.write(dimension, &lines) {
            Ok(_) => {},
            Err(error) => {
                assert(points_repeat(*mesh, list, i + 1, error.text()));
                assert(point_batch_fails(*mesh, first, i as int, error));
                return Err(error);
            },
        }
        i += 1;
    }
    Ok((numbered, Ghost(points)))
}

fn write_all_cells(
    mesh: &MeshFile,
    session: &mut MeshReadSession,
    text: &mut String,
    numbered: &PointNumbers,
) -> (result: MeshResult<Ghost<Seq<ElementLine>>>)
    requires
        mesh.wf(),
        old(session).reads(mesh.stored()),
        numbered.wf(),
    ensures
        final(session).same_file(*old(session)),
        match result {
            Ok(written) => {
                let cells = written@;
                let entries = of_kind(mesh.entries(), RowKind::Cell);
                &&& cells_had(*mesh, *old(session), numbered.numbers@)
                &&& elements_from(mesh.batches(), entries, entries.len() as int, cells)
                &&& with_cells(
                    numbered.numbers@,
                    old(text)@ + "NELEM= "@ + decimal(mesh.header().counts.cells as nat) + "\n"@,
                    0,
                    cells,
                    cells.len() as int,
                ) == Ok::<Seq<char>, (int, ElementFault)>(final(text)@)
            },
            Err(error) => exists|place: int| #[trigger]
                cell_batch_fails(*mesh, *old(session), numbered.numbers@, place, error),
        },
{
    text.append("NELEM= ");
    append_decimal(text, mesh.manifest().counts.cells);
    text.append("\n");
    let ghost start = text@;
    let ghost first = *session;
    let ghost numbers = numbered.numbers@;
    let ghost mut cells: Seq<ElementLine> = Seq::empty();
    let entries = mesh.entity_batches(RowKind::Cell);
    let ghost list = of_kind(mesh.entries(), RowKind::Cell);
    proof {
        kind_entries_are_listed(mesh.entries(), RowKind::Cell);
    }
    let mut element_number: usize = 0;
    let mut i: usize = 0;
    while i < entries.len()
        invariant
            i <= entries.len(),
            mesh.wf(),
            first == *old(session),
            session.same_file(first),
            first.reads(mesh.stored()),
            numbers == numbered.numbers@,
            referred(entries@) == list,
            list == of_kind(mesh.entries(), RowKind::Cell),
            forall|k: int|
                0 <= k < list.len() ==> mesh.entries().contains(#[trigger] list[k])
                    && list[k].row_kind == RowKind::Cell,
            numbered.wf(),
            start == old(text)@ + "NELEM= "@ + decimal(mesh.header().counts.cells as nat) + "\n"@,
            element_number == cells.len(),
            batches_had(*mesh, first, list, i as int),
            elements_from(mesh.batches(), list, i as int, cells),
            with_cells(numbers, start, 0, cells, cells.len() as int) == Ok::<
                Seq<char>,
                (int, ElementFault),
            >(text@),
        decreases entries.len() - i,
    {
        assert(referred(entries@)[i as int] == *entries@[i as int]);
        let ghost entry = list[i as int];
        let ghost current = *session;
        proof {
            listed_entry(*mesh, entry);
            lines_are_counted(mesh.batches(), list, i as int, cells);
            first_cell_fault(numbers, start, 0, cells, cells.len() as int);
            assert(cells_written(*mesh, numbers, list, i as int));
        }
        let view = match mesh.view_from(session, entries[i].batch_index) {
            Ok(view) => view,
            Err(error) => {
                proof {
                    same_view(*mesh, first, current, entry.batch_index, error);
                    assert(cell_batch_fails(*mesh, first, numbers, i as int, error));
                }
                return Err(error);
            },
        };
        assert(mesh.shows(first, entry.batch_index) == mesh.shows(current, entry.batch_index));
        let lines = match element_lines(&view.batch) {
            Ok(lines) => lines,
            Err(error) => {
                assert(batch_lost(*mesh, first, entry, error));
                assert(cell_batch_fails(*mesh, first, numbers, i as int, error));
                return Err(error);
            },
        };
        assert(batch_had(*mesh, first, entry));
        let ghost before = cells;
        proof {
            let more = cells + lines@;
            assert(more.skip(cells.len() as int) =~= lines@);
            assert(more.take(cells.len() as int) =~= cells);
            assert(elements_from(mesh.batches(), list, i + 1, more));
            cells = more;
            lines_are_counted(mesh.batches(), list, i + 1, cells);
        }
        let next: usize = match element_number.checked_add(lines.len()) {
            Some(next) => next,
            None => {
                let error = MeshError::limit_exceeded("SU2 export cannot number so many elements");
                assert(cell_batch_fails(*mesh, first, numbers, i as int, error));
                return Err(error);
            },
        };
        let ghost middle = text@;
        match write_cells(text, &numbered.numbers, element_number, &lines) {
            Ok(_) => {},
            Err(error) => {
                proof {
                    let all = lines@.len() as int;
                    cell_fault_is_there(numbers, middle, before.len(), lines@, all);
                    first_cell_fault(numbers, middle, before.len(), lines@, all);
                    if let Err(fault) = with_cells(numbers, middle, before.len(), lines@, all) {
                        let row = before.len() + fault.0;
                        assert(cells[row] == lines@[fault.0]);
                        assert forall|k: int| 0 <= k < row implies (element_text(
                            numbers,
                            #[trigger] cells[k],
                        )) is Ok by {
                            if k < before.len() {
                                assert(cells[k] == before[k]);
                            } else {
                                assert(cells[k] == lines@[k - before.len()]);
                            }
                        }
                        assert(writes_before(numbers, cells, row));
                        assert(cells_unfit(*mesh, numbers, list, i + 1, error));
                    }
                    assert(cell_batch_fails(*mesh, first, numbers, i as int, error));
                }
                return Err(error);
            },
        }
        element_number = next;
        proof {
            cells_join(numbers, start, before, lines@, lines@.len() as int, middle);
        }
        i += 1;
    }
    proof {
        lines_are_counted(mesh.batches(), list, i as int, cells);
        first_cell_fault(numbers, start, 0, cells, cells.len() as int);
        assert(cells_written(*mesh, numbers, list, i as int));
    }
    Ok(Ghost(cells))
}

fn boundary_lines(mesh: &MeshFile, session: &mut MeshReadSession, kind: RowKind) -> (result: MeshResult<
    Vec<BoundaryLine>,
>)
    requires
        mesh.wf(),
        old(session).reads(mesh.stored()),
        kind == boundary_kind_of(mesh.header().dimension),
    ensures
        final(session).same_file(*old(session)),
        match result {
            Ok(lines) => boundary_had(*mesh, *old(session)) && boundary_from(
                mesh.batches(),
                of_kind(mesh.entries(), kind),
                of_kind(mesh.entries(), kind).len() as int,
                lines@,
            ),
            Err(error) => exists|place: int| #[trigger]
                boundary_batch_fails(*mesh, *old(session), place, error),
        },
{
    let mut lines: Vec<BoundaryLine> = Vec::new();
    let ghost first = *session;
    let entries = mesh.entity_batches(kind);
    let ghost list = of_kind(mesh.entries(), kind);
    proof {
        kind_entries_are_listed(mesh.entries(), kind);
    }
    let mut i: usize = 0;
    while i < entries.len()
        invariant
            i <= entries.len(),
            mesh.wf(),
            first == *old(session),
            session.same_file(first),
            first.reads(mesh.stored()),
            referred(entries@) == list,
            list == of_kind(mesh.entries(), kind),
            forall|k: int|
                0 <= k < list.len() ==> mesh.entries().contains(#[trigger] list[k])
                    && list[k].row_kind == kind,
            kind == boundary_kind_of(mesh.header().dimension),
            batches_had(*mesh, first, list, i as int),
            boundary_from(mesh.batches(), list, i as int, lines@),
        decreases entries.len() - i,
    {
        assert(referred(entries@)[i as int] == *entries@[i as int]);
        let ghost entry = list[i as int];
        let ghost current = *session;
        proof {
            listed_entry(*mesh, entry);
        }
        let view = match mesh.view_from(session, entries[i].batch_index) {
            Ok(view) => view,
            Err(error) => {
                proof {
                    same_view(*mesh, first, current, entry.batch_index, error);
                    assert(boundary_batch_fails(*mesh, first, i as int, error));
                }
                return Err(error);
            },
        };
        assert(mesh.shows(first, entry.batch_index) == mesh.shows(current, entry.batch_index));
        let ghost before = lines@;
        match append_boundary(&mut lines, &view.batch) {
            Ok(_) => {},
            Err(error) => {
                assert(batch_lost(*mesh, first, entry, error));
                assert(boundary_batch_fails(*mesh, first, i as int, error));
                return Err(error);
            },
        }
        assert(batch_had(*mesh, first, entry));
        assert(boundary_from(mesh.batches(), list, i + 1, lines@));
        i += 1;
    }
    Ok(lines)
}

fn list_markers(mesh: &MeshFile, lines: &Vec<BoundaryLine>) -> (result: Vec<Marker>)
    requires
        mesh.wf(),
    ensures
        markers_of(*mesh, lines@, result@),
{
    let tags = marker_tags(lines);
    let mut markers: Vec<Marker> = Vec::new();
    let mut i: usize = 0;
    while i < tags.items.len()
        invariant
            i <= tags.items.len(),
            mesh.wf(),
            tags.wf(),
            tags@ == tags_of(lines@),
            markers.len() == i,
            forall|k: int|
                0 <= k < i ==> (#[trigger] markers@[k]).tag == tags.items@[k] && label_of(
                    *mesh,
                    markers@[k].tag,
                    markers@[k].label@,
                ),
        decreases tags.items.len() - i,
    {
        let tag: u64 = tags.items[i];
        let label = match mesh.catalog_name("tag", tag) {
            Some(name) => name.to_owned(),
            None => "boundary".to_owned(),
        };
        assert(label_of(*mesh, tag, label@));
        markers.push(Marker { tag, label });
        i += 1;
    }
    proof {
        assert forall|k: int| 0 <= k < markers@.len() implies tags_of(lines@).contains(
            (#[trigger] markers@[k]).tag,
        ) by {
            assert(tags.items@.contains(tags.items@[k]));
            assert(tags@.contains(tags.items@[k]));
        }
        assert forall|a: int, b: int| 0 <= a < b < markers@.len() implies (
        #[trigger] markers@[a]).tag < (#[trigger] markers@[b]).tag by {
            assert(tags.items@[a].before(tags.items@[b]));
        }
        assert forall|tag: u64| #[trigger] tags_of(lines@).contains(tag) implies exists|k: int|
            0 <= k < markers@.len() && (#[trigger] markers@[k]).tag == tag by {
            assert(tags@.contains(tag));
            let k = choose|k: int| 0 <= k < tags.items@.len() && tags.items@[k] == tag;
            assert(markers@[k].tag == tag);
        }
    }
    markers
}

pub(crate) proof fn same_batches_had(
    mesh: MeshFile,
    a: MeshReadSession,
    b: MeshReadSession,
    list: Seq<BatchDirectoryEntry>,
    count: int,
)
    requires
        b.same_file(a),
        batches_had(mesh, b, list, count),
    ensures
        batches_had(mesh, a, list, count),
{
    assert forall|k: int| 0 <= k < count implies batch_had(mesh, a, #[trigger] list[k]) by {
        assert(batch_had(mesh, b, list[k]));
    }
}

pub(crate) proof fn same_loss(
    mesh: MeshFile,
    a: MeshReadSession,
    b: MeshReadSession,
    entry: BatchDirectoryEntry,
    error: MeshError,
)
    requires
        b.same_file(a),
    ensures
        batch_lost(mesh, a, entry, error) == batch_lost(mesh, b, entry, error),
        batch_had(mesh, a, entry) == batch_had(mesh, b, entry),
{
    same_view(mesh, a, b, entry.batch_index, error);
}

pub(crate) proof fn same_cell_failure(
    mesh: MeshFile,
    a: MeshReadSession,
    b: MeshReadSession,
    numbers: Map<u64, usize>,
    place: int,
    error: MeshError,
)
    requires
        b.same_file(a),
        cell_batch_fails(mesh, b, numbers, place, error),
    ensures
        cell_batch_fails(mesh, a, numbers, place, error),
{
    let list = of_kind(mesh.entries(), RowKind::Cell);
    same_batches_had(mesh, a, b, list, place);
    same_loss(mesh, a, b, list[place], error);
}

pub(crate) proof fn same_boundary_failure(
    mesh: MeshFile,
    a: MeshReadSession,
    b: MeshReadSession,
    place: int,
    error: MeshError,
)
    requires
        b.same_file(a),
        boundary_batch_fails(mesh, b, place, error),
    ensures
        boundary_batch_fails(mesh, a, place, error),
{
    let list = of_kind(mesh.entries(), boundary_kind_of(mesh.header().dimension));
    same_batches_had(mesh, a, b, list, place);
    same_loss(mesh, a, b, list[place], error);
}

/// The SU2 text of a mesh, from a session on its file.
pub fn su2_text_from(mesh: &MeshFile, session: &mut MeshReadSession) -> (result: MeshResult<String>)
    requires
        mesh.wf(),
        old(session).reads(mesh.stored()),
    ensures
        final(session).same_file(*old(session)),
        result is Ok <==> exports(*mesh, *old(session)),
        match result {
            Ok(text) => su2_text_of(*mesh, text@),
            Err(error) => export_fails(*mesh, *old(session), error),
        },
{
    let ghost first = *session;
    let (numbered, points) = match write_points(mesh, session) {
        Ok(written) => written,
        Err(error) => {
            proof {
                failed_export(*mesh, first, error);
            }
            return Err(error);
        },
    };
    let ghost numbers = numbered.numbers@;
    assert(numbers_of(*mesh, numbers));
    let mut text = numbered.text.clone();
    let ghost second = *session;
    let cells = match write_all_cells(mesh, session, &mut text, &numbered) {
        Ok(written) => written,
        Err(error) => {
            proof {
                let place = choose|place: int| #[trigger]
                    cell_batch_fails(*mesh, second, numbers, place, error);
                same_cell_failure(*mesh, first, second, numbers, place, error);
                assert(later_fails(*mesh, first, numbers, error));
                failed_export(*mesh, first, error);
            }
            return Err(error);
        },
    };
    proof {
        let list = of_kind(mesh.entries(), RowKind::Cell);
        same_batches_had(*mesh, first, second, list, list.len() as int);
    }
    let kind = if mesh.manifest().dimension == 2 {
        RowKind::Edge
    } else {
        RowKind::Face
    };
    let ghost third = *session;
    let lines = match boundary_lines(mesh, session, kind) {
        Ok(lines) => lines,
        Err(error) => {
            proof {
                let place = choose|place: int| #[trigger]
                    boundary_batch_fails(*mesh, third, place, error);
                same_boundary_failure(*mesh, first, third, place, error);
                assert(later_fails(*mesh, first, numbers, error));
                failed_export(*mesh, first, error);
            }
            return Err(error);
        },
    };
    proof {
        let list = of_kind(mesh.entries(), kind);
        same_batches_had(*mesh, first, third, list, list.len() as int);
    }
    let markers = list_markers(mesh, &lines);
    let ghost body = text@ + "NMARK= "@ + decimal(markers@.len()) + "\n"@;
    match write_markers(&mut text, &numbered.numbers, &lines, &markers) {
        Ok(_) => {},
        Err(error) => {
            proof {
                let count = markers@.len() as int;
                marker_faults_settled(numbers, body, Seq::empty(), lines@, markers@, count);
                assert(marked_unfit(numbers, lines@, markers@, error));
                assert(boundary_unfit(*mesh, numbers, error));
                assert(later_fails(*mesh, first, numbers, error));
                failed_export(*mesh, first, error);
            }
            return Err(error);
        },
    }
    assert(lists_of(*mesh, points@, cells@, lines@));
    assert(is_su2_text(*mesh, points@, cells@, lines@, markers@, text@));
    assert(su2_text_of(*mesh, text@));
    Ok(text)
}

/// The SU2 text of a mesh. Whether the outside reader takes the file is for it
/// to say; what follows is what an export from a session gives.
pub fn su2_text(mesh: &MeshFile) -> (result: MeshResult<String>)
    requires
        mesh.wf(),
    ensures
        match result {
            Ok(text) => su2_text_of(*mesh, text@) && some_session_exports(*mesh),
            Err(error) => from_outside(error) || no_session_exports(*mesh, error),
        },
{
    match mesh.session() {
        Ok(mut session) => su2_text_from(mesh, &mut session),
        Err(error) => Err(error),
    }
}

/// A session on the mesh's file exports it.
pub open spec fn some_session_exports(mesh: MeshFile) -> bool {
    exists|session: MeshReadSession| #[trigger]
        session.reads(mesh.stored()) && exports(mesh, session)
}

/// A session on the mesh's file fails to export it with this error.
pub open spec fn no_session_exports(mesh: MeshFile, error: MeshError) -> bool {
    exists|session: MeshReadSession| #[trigger]
        session.reads(mesh.stored()) && !exports(mesh, session) && export_fails(
            mesh,
            session,
            error,
        )
}

/// The bytes of a text.
pub open spec fn bytes_of(text: Seq<char>) -> Seq<u8> {
    vstd::utf8::encode_utf8(text)
}

/// The bytes are those of the SU2 text of the mesh.
pub open spec fn is_su2_file(mesh: MeshFile, bytes: Seq<u8>) -> bool {
    exists|text: Seq<char>| su2_text_of(mesh, text) && bytes == #[trigger] bytes_of(text)
}

/// The result is what exporting the mesh from the session gives.
pub open spec fn is_export(
    mesh: MeshFile,
    session: MeshReadSession,
    result: MeshResult<Vec<u8>>,
) -> bool {
    &&& result is Ok <==> exports(mesh, session)
    &&& match result {
        Ok(bytes) => is_su2_file(mesh, bytes@),
        Err(error) => export_fails(mesh, session, error),
    }
}

/// The bytes of the SU2 text of a mesh, from a session on its file.
pub fn write_from(mesh: &MeshFile, session: &mut MeshReadSession) -> (result: MeshResult<Vec<u8>>)
    requires
        mesh.wf(),
        old(session).reads(mesh.stored()),
    ensures
        final(session).same_file(*old(session)),
        is_export(*mesh, *old(session), result),
{
    match su2_text_from(mesh, session) {
        Ok(text) => {
            let bytes = text.as_str().as_bytes_vec();
            assert(bytes@ == bytes_of(text@));
            Ok(bytes)
        },
        Err(error) => Err(error),
    }
}

/// The bytes of the SU2 text of a mesh.
pub fn write(mesh: &MeshFile) -> (result: MeshResult<Vec<u8>>)
    requires
        mesh.wf(),
    ensures
        match result {
            Ok(bytes) => is_su2_file(*mesh, bytes@) && some_session_exports(*mesh),
            Err(error) => from_outside(error) || no_session_exports(*mesh, error),
        },
{
    match mesh.session() {
        Ok(mut session) => write_from(mesh, &mut session),
        Err(error) => Err(error),
    }
}

/// A format that a mesh can be exported to.
#[derive(Debug)]
pub struct MeshConverter {
    pub id: &'static str,
    pub label: &'static str,
    pub extension: &'static str,
}

/// The formats that a mesh can be exported to.
pub fn converters() -> (result: Vec<MeshConverter>)
    ensures
        result@.len() == 1,
        result@[0].id@ == "su2"@,
        result@[0].label@ == "SU2"@,
        result@[0].extension@ == "su2"@,
{
    let mut list: Vec<MeshConverter> = Vec::new();
    list.push(MeshConverter { id: "su2", label: "SU2", extension: "su2" });
    list
}

/// The format of that ID.
pub fn converter(id: &str) -> (result: Option<MeshConverter>)
    ensures
        match result {
            Some(found) => id@ == "su2"@ && found.id@ == "su2"@ && found.label@ == "SU2"@
                && found.extension@ == "su2"@,
            None => id@ != "su2"@,
        },
{
    if same_text(id, "su2") {
        Some(MeshConverter { id: "su2", label: "SU2", extension: "su2" })
    } else {
        None
    }
}

/// The bytes of a mesh in the format of that ID, from a session on its file.
pub fn write_to_from(
    converter_id: &str,
    mesh: &MeshFile,
    session: &mut MeshReadSession,
) -> (result: MeshResult<Vec<u8>>)
    requires
        mesh.wf(),
        old(session).reads(mesh.stored()),
    ensures
        final(session).same_file(*old(session)),
        if converter_id@ == "su2"@ {
            is_export(*mesh, *old(session), result)
        } else {
            fails_input(result, "unknown mesh converter "@ + debug_text(converter_id@))
        },
{
    if same_text(converter_id, "su2") {
        write_from(mesh, session)
    } else {
        Err(
            MeshError::InvalidInput(
                join("unknown mesh converter ", quoted(converter_id).as_str()),
            ),
        )
    }
}

/// The bytes of a mesh in the format of that ID.
pub fn write_to(converter_id: &str, mesh: &MeshFile) -> (result: MeshResult<Vec<u8>>)
    requires
        mesh.wf(),
    ensures
        if converter_id@ == "su2"@ {
            match result {
                Ok(bytes) => is_su2_file(*mesh, bytes@) && some_session_exports(*mesh),
                Err(error) => from_outside(error) || no_session_exports(*mesh, error),
            }
        } else {
            fails_input(result, "unknown mesh converter "@ + debug_text(converter_id@))
        },
{
    if same_text(converter_id, "su2") {
        write(mesh)
    } else {
        Err(
            MeshError::InvalidInput(
                join("unknown mesh converter ", quoted(converter_id).as_str()),
            ),
        )
    }
}

/// The boundary elements of a batch are its rows that are known to lie on the boundary,
/// in order, each with its type, its points and the first of its tags.
pub proof fn boundary_rows_are_exact(
    batch: Batch,
    rows: int,
    before: Seq<BoundaryLine>,
    lines: Seq<BoundaryLine>,
) -> (places: Seq<int>)
    requires
        0 <= rows,
        boundary_lines_after(batch, rows, before, lines),
    ensures
        lines.len() == before.len() + places.len(),
        forall|i: int| 0 <= i < before.len() ==> lines[i] == #[trigger] before[i],
        forall|i: int, j: int|
            0 <= i < j < places.len() ==> (#[trigger] places[i]) < (#[trigger] places[j]),
        forall|row: int|
            #[trigger] places.contains(row) <==> 0 <= row < rows
                && !bool_columns(batch)["boundary"@][row].0
                && bool_columns(batch)["boundary"@][row].1,
        forall|i: int|
            0 <= i < places.len() ==> {
                let line = lines[before.len() + i];
                let row = #[trigger] places[i];
                &&& line.element.element_type@ == text_columns(batch)["element_type"@][row].1
                &&& u64_list_columns(batch)["point_ids"@][row] == Some(line.element.points@)
                &&& u64_list_columns(batch)["tag_ids"@][row] matches Some(tags) && line.tag
                    == if tags.len() == 0 {
                    0
                } else {
                    tags[0]
                }
            },
    decreases rows,
{
    if rows == 0 {
        Seq::empty()
    } else {
        let last = rows - 1;
        let takes = on_boundary(batch, last);
        let rest = if takes {
            lines.drop_last()
        } else {
            lines
        };
        let list = boundary_rows_are_exact(batch, rows - 1, before, rest);
        let places = if takes {
            list.push(last)
        } else {
            list
        };
        assert forall|i: int| 0 <= i < list.len() implies 0 <= (#[trigger] list[i]) < last by {
            assert(list.contains(list[i]));
        }
        assert forall|row: int|
            #[trigger] places.contains(row) <==> 0 <= row < rows
                && !bool_columns(batch)["boundary"@][row].0
                && bool_columns(batch)["boundary"@][row].1 by {
            if places.contains(row) {
                let k = places.index_of(row);
                if k < list.len() {
                    assert(list[k] == row);
                    assert(list.contains(row));
                }
            }
            if list.contains(row) {
                let k = list.index_of(row);
                assert(places[k] == row);
            }
            if row == last && takes {
                assert(places[list.len() as int] == row);
            }
        }
        assert forall|i: int| 0 <= i < places.len() implies {
            let line = lines[before.len() + i];
            let row = #[trigger] places[i];
            &&& line.element.element_type@ == text_columns(batch)["element_type"@][row].1
            &&& u64_list_columns(batch)["point_ids"@][row] == Some(line.element.points@)
            &&& u64_list_columns(batch)["tag_ids"@][row] matches Some(tags) && line.tag
                == if tags.len() == 0 {
                0
            } else {
                tags[0]
            }
        } by {
            if i < list.len() {
                assert(places[i] == list[i]);
                assert(lines[before.len() + i] == rest[before.len() + i]);
            }
        }
        assert forall|i: int| 0 <= i < before.len() implies lines[i] == #[trigger] before[i] by {
            assert(rest[i] == before[i]);
        }
        places
    }
}

/// The points written are the rows of the point batches in order, one line a row.
pub proof fn written_points_are_rows(
    batches: Seq<Batch>,
    entries: Seq<BatchDirectoryEntry>,
    count: int,
    lines: Seq<PointLine>,
    entry: int,
    row: int,
) -> (place: int)
    requires
        0 <= entry < count <= entries.len(),
        0 <= row < batch_rows(batches[entries[entry].batch_index as int]),
        points_from(batches, entries, count, lines),
    ensures
        0 <= place < lines.len(),
        ({
            let batch = batches[entries[entry].batch_index as int];
            let line = lines[place];
            &&& line.id == u64_columns(batch)["entity_id"@][row].1
            &&& line.ghost_row == bool_columns(batch)["ghost"@][row].1
            &&& line.x@ == scientific_text(f64_columns(batch)["x"@][row].1)
            &&& line.y@ == scientific_text(f64_columns(batch)["y"@][row].1)
            &&& line.z@ == scientific_text(f64_columns(batch)["z"@][row].1)
        }),
    decreases count,
{
    let batch = batches[entries[count - 1].batch_index as int];
    let split = lines.len() - batch_rows(batch);
    if entry == count - 1 {
        let own = lines.skip(split);
        assert(point_line_of(batch, row, own[row]));
        assert(own[row] == lines[split + row]);
        split + row
    } else {
        let rest = lines.take(split);
        let place = written_points_are_rows(batches, entries, count - 1, rest, entry, row);
        assert(rest[place] == lines[place]);
        place
    }
}

} // verus!
