//! A mesh file has one SU2 text: what its batches say settles every line.

use vstd::prelude::*;

#[allow(unused_imports)]
use crate::columns::{batch_rows, Batch};
#[allow(unused_imports)]
use crate::convert::{
    batch_had, boundary_batch_fails, boundary_from, boundary_kind_of, boundary_line_of,
    boundary_lines_after, cell_batch_fails, element_line_of, elements_from, export_fails, exports,
    first_numbering, is_su2_text, label_of, later_fails, lists_of, marked_unfit, markers_of,
    numbers_of, on_boundary, point_batch_fails, point_line_of, points_from, rows_of, su2_text_of,
    writes_before,
};
#[allow(unused_imports)]
use crate::error::MeshError;
#[allow(unused_imports)]
use crate::file::{names_are_distinct, of_kind, MeshFile};
#[allow(unused_imports)]
use crate::names::{distinct, listed};
#[allow(unused_imports)]
use crate::schema::{BatchDirectoryEntry, RowKind};
#[allow(unused_imports)]
use crate::session::MeshReadSession;
#[allow(unused_imports)]
use crate::su2::{
    cell_error, element_text, tag_count, tags_of, with_cells, with_marked, with_markers,
    with_points, BoundaryLine, ElementFault, ElementLine, Marker, Numbering, PointLine,
};
#[allow(unused_imports)]
use crate::text::decimal;

verus! {

/// Two point lines say the same.
pub open spec fn same_point(a: PointLine, b: PointLine) -> bool {
    a.id == b.id && a.ghost_row == b.ghost_row && a.x@ == b.x@ && a.y@ == b.y@ && a.z@ == b.z@
}

pub open spec fn same_points(a: Seq<PointLine>, b: Seq<PointLine>) -> bool {
    a.len() == b.len() && forall|i: int|
        0 <= i < a.len() ==> same_point(#[trigger] a[i], b[i])
}

pub open spec fn same_element(a: ElementLine, b: ElementLine) -> bool {
    a.element_type@ == b.element_type@ && a.points@ == b.points@
}

pub open spec fn same_elements(a: Seq<ElementLine>, b: Seq<ElementLine>) -> bool {
    a.len() == b.len() && forall|i: int|
        0 <= i < a.len() ==> same_element(#[trigger] a[i], b[i])
}

pub open spec fn same_boundary(a: Seq<BoundaryLine>, b: Seq<BoundaryLine>) -> bool {
    a.len() == b.len() && forall|i: int|
        0 <= i < a.len() ==> (#[trigger] a[i]).tag == b[i].tag && same_element(
            a[i].element,
            b[i].element,
        )
}

pub open spec fn same_markers(a: Seq<Marker>, b: Seq<Marker>) -> bool {
    a.len() == b.len() && forall|i: int|
        0 <= i < a.len() ==> (#[trigger] a[i]).tag == b[i].tag && a[i].label@ == b[i].label@
}

pub(crate) proof fn points_are_settled(
    batches: Seq<Batch>,
    entries: Seq<BatchDirectoryEntry>,
    count: int,
    a: Seq<PointLine>,
    b: Seq<PointLine>,
)
    requires
        points_from(batches, entries, count, a),
        points_from(batches, entries, count, b),
    ensures
        same_points(a, b),
    decreases count,
{
    if count > 0 {
        let batch = batches[entries[count - 1].batch_index as int];
        let p = a.len() - batch_rows(batch);
        let q = b.len() - batch_rows(batch);
        points_are_settled(batches, entries, count - 1, a.take(p), b.take(q));
        assert(p == q);
        assert forall|i: int| 0 <= i < a.len() implies same_point(#[trigger] a[i], b[i]) by {
            if i < p {
                assert(same_point(a.take(p)[i], b.take(q)[i]));
            } else {
                assert(point_line_of(batch, i - p, a.skip(p)[i - p]));
                assert(point_line_of(batch, i - p, b.skip(q)[i - p]));
            }
        }
    }
}

pub(crate) proof fn elements_are_settled(
    batches: Seq<Batch>,
    entries: Seq<BatchDirectoryEntry>,
    count: int,
    a: Seq<ElementLine>,
    b: Seq<ElementLine>,
)
    requires
        elements_from(batches, entries, count, a),
        elements_from(batches, entries, count, b),
    ensures
        same_elements(a, b),
    decreases count,
{
    if count > 0 {
        let batch = batches[entries[count - 1].batch_index as int];
        let p = a.len() - batch_rows(batch);
        let q = b.len() - batch_rows(batch);
        elements_are_settled(batches, entries, count - 1, a.take(p), b.take(q));
        assert(p == q);
        assert forall|i: int| 0 <= i < a.len() implies same_element(#[trigger] a[i], b[i]) by {
            if i < p {
                assert(same_element(a.take(p)[i], b.take(q)[i]));
            } else {
                assert(element_line_of(batch, i - p, a.skip(p)[i - p]));
                assert(element_line_of(batch, i - p, b.skip(q)[i - p]));
            }
        }
    }
}

proof fn boundary_rows_are_settled(
    batch: Batch,
    rows: int,
    start_a: Seq<BoundaryLine>,
    start_b: Seq<BoundaryLine>,
    a: Seq<BoundaryLine>,
    b: Seq<BoundaryLine>,
)
    requires
        same_boundary(start_a, start_b),
        boundary_lines_after(batch, rows, start_a, a),
        boundary_lines_after(batch, rows, start_b, b),
    ensures
        same_boundary(a, b),
    decreases rows,
{
    if rows > 0 {
        if on_boundary(batch, rows - 1) {
            boundary_rows_are_settled(
                batch,
                rows - 1,
                start_a,
                start_b,
                a.drop_last(),
                b.drop_last(),
            );
            assert forall|i: int| 0 <= i < a.len() implies (#[trigger] a[i]).tag == b[i].tag
                && same_element(a[i].element, b[i].element) by {
                if i < a.len() - 1 {
                    assert(a.drop_last()[i].tag == b.drop_last()[i].tag);
                } else {
                    assert(boundary_line_of(batch, rows - 1, a.last()));
                    assert(boundary_line_of(batch, rows - 1, b.last()));
                }
            }
        } else {
            boundary_rows_are_settled(batch, rows - 1, start_a, start_b, a, b);
        }
    }
}

pub(crate) proof fn boundary_is_settled(
    batches: Seq<Batch>,
    entries: Seq<BatchDirectoryEntry>,
    count: int,
    a: Seq<BoundaryLine>,
    b: Seq<BoundaryLine>,
)
    requires
        boundary_from(batches, entries, count, a),
        boundary_from(batches, entries, count, b),
    ensures
        same_boundary(a, b),
    decreases count,
{
    if count > 0 {
        let batch = batches[entries[count - 1].batch_index as int];
        let rows = batch_rows(batch) as int;
        let p = choose|before: Seq<BoundaryLine>|
            boundary_from(batches, entries, count - 1, before) && #[trigger] boundary_lines_after(
                batch,
                rows,
                before,
                a,
            );
        let q = choose|before: Seq<BoundaryLine>|
            boundary_from(batches, entries, count - 1, before) && #[trigger] boundary_lines_after(
                batch,
                rows,
                before,
                b,
            );
        boundary_is_settled(batches, entries, count - 1, p, q);
        boundary_rows_are_settled(batch, rows, p, q, a, b);
    }
}

proof fn labels_are_settled(mesh: MeshFile, tag: u64, a: Seq<char>, b: Seq<char>)
    requires
        distinct(mesh.names()),
        label_of(mesh, tag, a),
        label_of(mesh, tag, b),
    ensures
        a == b,
{
    let names = mesh.names();
    if listed(names, "tag"@, tag) {
        let i = choose|i: int|
            0 <= i < names.len() && (#[trigger] names[i]).kind == "tag"@ && names[i].id == tag
                && names[i].name == a;
        let j = choose|j: int|
            0 <= j < names.len() && (#[trigger] names[j]).kind == "tag"@ && names[j].id == tag
                && names[j].name == b;
        if i < j {
            assert(names[i].kind != names[j].kind || names[i].id != names[j].id);
        } else if j < i {
            assert(names[j].kind != names[i].kind || names[j].id != names[i].id);
        }
    }
}

proof fn same_tags(a: Seq<BoundaryLine>, b: Seq<BoundaryLine>)
    requires
        same_boundary(a, b),
    ensures
        tags_of(a) == tags_of(b),
{
    assert forall|tag: u64| tags_of(a).contains(tag) == tags_of(b).contains(tag) by {
        if tags_of(a).contains(tag) {
            let i = choose|i: int| 0 <= i < a.len() && (#[trigger] a[i]).tag == tag;
            assert(b[i].tag == tag);
        }
        if tags_of(b).contains(tag) {
            let i = choose|i: int| 0 <= i < b.len() && (#[trigger] b[i]).tag == tag;
            assert(a[i].tag == b[i].tag);
        }
    }
    assert(tags_of(a) =~= tags_of(b));
}

/// Two rising lists of the same tags agree on their first places.
proof fn tags_in_order(a: Seq<Marker>, b: Seq<Marker>, tags: Set<u64>, place: int)
    requires
        rising(a, tags),
        rising(b, tags),
        0 <= place < a.len(),
    ensures
        place < b.len(),
        a[place].tag == b[place].tag,
    decreases place,
{
    let tag = a[place].tag;
    assert(tags.contains(tag));
    let j = choose|j: int| 0 <= j < b.len() && (#[trigger] b[j]).tag == tag;
    if place > 0 {
        tags_in_order(a, b, tags, place - 1);
        assert(a[place - 1].tag < a[place].tag);
    }
    if j < place {
        tags_in_order(a, b, tags, j);
        assert(a[j].tag < a[place].tag);
    } else if j > place {
        let other = b[place].tag;
        assert(other < tag);
        assert(tags.contains(other));
        let k = choose|k: int| 0 <= k < a.len() && (#[trigger] a[k]).tag == other;
        if k < place {
            tags_in_order(a, b, tags, k);
            assert(b[k].tag < b[place].tag);
        } else if k > place {
            assert(a[place].tag < a[k].tag);
        }
    }
}

spec fn rising(markers: Seq<Marker>, tags: Set<u64>) -> bool {
    &&& forall|i: int| 0 <= i < markers.len() ==> tags.contains((#[trigger] markers[i]).tag)
    &&& forall|i: int, j: int|
        0 <= i < j < markers.len() ==> (#[trigger] markers[i]).tag < (#[trigger] markers[j]).tag
    &&& forall|tag: u64| #[trigger]
        tags.contains(tag) ==> exists|i: int|
            0 <= i < markers.len() && (#[trigger] markers[i]).tag == tag
}

pub(crate) proof fn markers_are_settled(
    mesh: MeshFile,
    lines_a: Seq<BoundaryLine>,
    lines_b: Seq<BoundaryLine>,
    a: Seq<Marker>,
    b: Seq<Marker>,
)
    requires
        distinct(mesh.names()),
        same_boundary(lines_a, lines_b),
        markers_of(mesh, lines_a, a),
        markers_of(mesh, lines_b, b),
    ensures
        same_markers(a, b),
{
    same_tags(lines_a, lines_b);
    let tags = tags_of(lines_a);
    assert(rising(a, tags));
    assert(rising(b, tags));
    if a.len() > b.len() {
        tags_in_order(a, b, tags, b.len() as int);
    }
    if b.len() > a.len() {
        tags_in_order(b, a, tags, a.len() as int);
    }
    assert forall|i: int| 0 <= i < a.len() implies (#[trigger] a[i]).tag == b[i].tag && a[i].label@
        == b[i].label@ by {
        tags_in_order(a, b, tags, i);
        labels_are_settled(mesh, a[i].tag, a[i].label@, b[i].label@);
    }
}

pub(crate) proof fn points_text_is_settled(
    dimension: u8,
    start: Numbering,
    a: Seq<PointLine>,
    b: Seq<PointLine>,
    rows: int,
)
    requires
        same_points(a, b),
        rows <= a.len(),
    ensures
        with_points(dimension, start, a, rows) == with_points(dimension, start, b, rows),
    decreases rows,
{
    if rows > 0 {
        points_text_is_settled(dimension, start, a, b, rows - 1);
        assert(same_point(a[rows - 1], b[rows - 1]));
    }
}

proof fn cells_text_is_settled(
    numbers: Map<u64, usize>,
    text: Seq<char>,
    a: Seq<ElementLine>,
    b: Seq<ElementLine>,
    rows: int,
)
    requires
        same_elements(a, b),
        rows <= a.len(),
    ensures
        with_cells(numbers, text, 0, a, rows) == with_cells(numbers, text, 0, b, rows),
    decreases rows,
{
    if rows > 0 {
        cells_text_is_settled(numbers, text, a, b, rows - 1);
        assert(same_element(a[rows - 1], b[rows - 1]));
    }
}

proof fn marked_text_is_settled(
    numbers: Map<u64, usize>,
    text: Seq<char>,
    a: Seq<BoundaryLine>,
    b: Seq<BoundaryLine>,
    tag: u64,
    rows: int,
)
    requires
        same_boundary(a, b),
        rows <= a.len(),
    ensures
        with_marked(numbers, text, a, tag, rows) == with_marked(numbers, text, b, tag, rows),
        tag_count(a, tag, rows) == tag_count(b, tag, rows),
    decreases rows,
{
    if rows > 0 {
        marked_text_is_settled(numbers, text, a, b, tag, rows - 1);
        assert(a[rows - 1].tag == b[rows - 1].tag);
        assert(same_element(a[rows - 1].element, b[rows - 1].element));
    }
}

pub(crate) proof fn markers_text_is_settled(
    numbers: Map<u64, usize>,
    text: Seq<char>,
    lines_a: Seq<BoundaryLine>,
    lines_b: Seq<BoundaryLine>,
    a: Seq<Marker>,
    b: Seq<Marker>,
    count: int,
)
    requires
        same_boundary(lines_a, lines_b),
        same_markers(a, b),
        count <= a.len(),
    ensures
        with_markers(numbers, text, lines_a, a, count) == with_markers(
            numbers,
            text,
            lines_b,
            b,
            count,
        ),
    decreases count,
{
    if count > 0 {
        markers_text_is_settled(numbers, text, lines_a, lines_b, a, b, count - 1);
        assert(a[count - 1].tag == b[count - 1].tag);
        if let Ok(last) = with_markers(numbers, text, lines_a, a, count - 1) {
            let rows = lines_a.len() as int;
            let tag = a[count - 1].tag;
            marked_text_is_settled(numbers, last, lines_a, lines_b, tag, rows);
            let head = last + "MARKER_TAG= "@ + a[count - 1].label@ + "\nMARKER_ELEMS= "@
                + decimal(tag_count(lines_a, tag, rows)) + "\n"@;
            marked_text_is_settled(numbers, head, lines_a, lines_b, tag, rows);
        }
    }
}

/// What was written before settles nothing of which boundary element cannot be.
pub(crate) proof fn marker_faults_settled(
    numbers: Map<u64, usize>,
    a: Seq<char>,
    b: Seq<char>,
    lines: Seq<BoundaryLine>,
    markers: Seq<Marker>,
    count: int,
)
    ensures
        match with_markers(numbers, a, lines, markers, count) {
            Ok(_) => with_markers(numbers, b, lines, markers, count) is Ok,
            Err(fault) => with_markers(numbers, b, lines, markers, count) == Err::<
                Seq<char>,
                (int, ElementFault),
            >(fault),
        },
    decreases count,
{
    if count > 0 {
        marker_faults_settled(numbers, a, b, lines, markers, count - 1);
        if let Ok(last_a) = with_markers(numbers, a, lines, markers, count - 1) {
            if let Ok(last_b) = with_markers(numbers, b, lines, markers, count - 1) {
                let marker = markers[count - 1];
                let rows = lines.len() as int;
                let head = "MARKER_TAG= "@ + marker.label@ + "\nMARKER_ELEMS= "@ + decimal(
                    tag_count(lines, marker.tag, rows),
                ) + "\n"@;
                assert(last_a + "MARKER_TAG= "@ + marker.label@ + "\nMARKER_ELEMS= "@ + decimal(
                    tag_count(lines, marker.tag, rows),
                ) + "\n"@ =~= last_a + head);
                assert(last_b + "MARKER_TAG= "@ + marker.label@ + "\nMARKER_ELEMS= "@ + decimal(
                    tag_count(lines, marker.tag, rows),
                ) + "\n"@ =~= last_b + head);
                marked_faults_settled(numbers, last_a + head, last_b + head, lines, marker.tag, rows);
            }
        }
    }
}

proof fn marked_faults_settled(
    numbers: Map<u64, usize>,
    a: Seq<char>,
    b: Seq<char>,
    lines: Seq<BoundaryLine>,
    tag: u64,
    rows: int,
)
    ensures
        match with_marked(numbers, a, lines, tag, rows) {
            Ok(_) => with_marked(numbers, b, lines, tag, rows) is Ok,
            Err(fault) => with_marked(numbers, b, lines, tag, rows) == Err::<
                Seq<char>,
                (int, ElementFault),
            >(fault),
        },
    decreases rows,
{
    if rows > 0 {
        marked_faults_settled(numbers, a, b, lines, tag, rows - 1);
    }
}

/// A mesh file has at most one SU2 text, so whoever exports it, by whichever
/// function, gets the same.
pub proof fn su2_text_is_unique(mesh: MeshFile, a: Seq<char>, b: Seq<char>)
    requires
        mesh.wf(),
        su2_text_of(mesh, a),
        su2_text_of(mesh, b),
    ensures
        a == b,
{
    names_are_distinct(mesh);
    let (points_a, cells_a, lines_a, markers_a) = choose|
        points: Seq<PointLine>,
        cells: Seq<ElementLine>,
        lines: Seq<BoundaryLine>,
        markers: Seq<Marker>,
    |
        lists_of(mesh, points, cells, lines) && markers_of(mesh, lines, markers)
            && #[trigger] is_su2_text(mesh, points, cells, lines, markers, a);
    let (points_b, cells_b, lines_b, markers_b) = choose|
        points: Seq<PointLine>,
        cells: Seq<ElementLine>,
        lines: Seq<BoundaryLine>,
        markers: Seq<Marker>,
    |
        lists_of(mesh, points, cells, lines) && markers_of(mesh, lines, markers)
            && #[trigger] is_su2_text(mesh, points, cells, lines, markers, b);
    let header = mesh.header();
    let kind = boundary_kind_of(header.dimension);
    let point_entries = of_kind(mesh.entries(), RowKind::Point);
    let cell_entries = of_kind(mesh.entries(), RowKind::Cell);
    let boundary_entries = of_kind(mesh.entries(), kind);
    points_are_settled(
        mesh.batches(),
        point_entries,
        point_entries.len() as int,
        points_a,
        points_b,
    );
    elements_are_settled(
        mesh.batches(),
        cell_entries,
        cell_entries.len() as int,
        cells_a,
        cells_b,
    );
    boundary_is_settled(
        mesh.batches(),
        boundary_entries,
        boundary_entries.len() as int,
        lines_a,
        lines_b,
    );
    markers_are_settled(mesh, lines_a, lines_b, markers_a, markers_b);
    let start = first_numbering(mesh);
    points_text_is_settled(header.dimension, start, points_a, points_b, points_a.len() as int);
    let numbered = with_points(header.dimension, start, points_a, points_a.len() as int)->Ok_0;
    let head = numbered.text + "NELEM= "@ + decimal(header.counts.cells as nat) + "\n"@;
    cells_text_is_settled(numbered.numbers, head, cells_a, cells_b, cells_a.len() as int);
    let body = with_cells(numbered.numbers, head, 0, cells_a, cells_a.len() as int)->Ok_0;
    markers_text_is_settled(
        numbered.numbers,
        body + "NMARK= "@ + decimal(markers_a.len()) + "\n"@,
        lines_a,
        lines_b,
        markers_a,
        markers_b,
        markers_a.len() as int,
    );
}

/// The first batches of a list settle the first points of all of them.
proof fn points_begin(
    batches: Seq<Batch>,
    list: Seq<BatchDirectoryEntry>,
    few: int,
    many: int,
    a: Seq<PointLine>,
    b: Seq<PointLine>,
)
    requires
        few <= many,
        points_from(batches, list, few, a),
        points_from(batches, list, many, b),
    ensures
        a.len() <= b.len(),
        same_points(a, b.take(a.len() as int)),
    decreases many,
{
    if few == many || many <= 0 {
        points_are_settled(batches, list, many, a, b);
        assert(b.take(a.len() as int) =~= b);
    } else {
        let batch = batches[list[many - 1].batch_index as int];
        let split = b.len() - batch_rows(batch);
        points_begin(batches, list, few, many - 1, a, b.take(split));
        assert(b.take(split).take(a.len() as int) =~= b.take(a.len() as int));
    }
}

pub(crate) proof fn elements_begin(
    batches: Seq<Batch>,
    list: Seq<BatchDirectoryEntry>,
    few: int,
    many: int,
    a: Seq<ElementLine>,
    b: Seq<ElementLine>,
)
    requires
        few <= many,
        elements_from(batches, list, few, a),
        elements_from(batches, list, many, b),
    ensures
        a.len() <= b.len(),
        same_elements(a, b.take(a.len() as int)),
    decreases many,
{
    if few == many || many <= 0 {
        elements_are_settled(batches, list, many, a, b);
        assert(b.take(a.len() as int) =~= b);
    } else {
        let batch = batches[list[many - 1].batch_index as int];
        let split = b.len() - batch_rows(batch);
        elements_begin(batches, list, few, many - 1, a, b.take(split));
        assert(b.take(split).take(a.len() as int) =~= b.take(a.len() as int));
    }
}

pub(crate) proof fn rows_grow(batches: Seq<Batch>, list: Seq<BatchDirectoryEntry>, few: int, many: int)
    requires
        few <= many,
    ensures
        rows_of(batches, list, few) <= rows_of(batches, list, many),
    decreases many,
{
    if few < many && many > 0 {
        rows_grow(batches, list, few, many - 1);
    }
}

/// Points that cannot be numbered stay so with more behind them.
proof fn points_of_prefix(
    dimension: u8,
    start: Numbering,
    a: Seq<PointLine>,
    few: int,
    many: int,
)
    requires
        few <= many,
        with_points(dimension, start, a, few) is Err,
    ensures
        with_points(dimension, start, a, many) == with_points(dimension, start, a, few),
    decreases many,
{
    if few < many && many > 0 {
        points_of_prefix(dimension, start, a, few, many - 1);
    }
}

proof fn taken_points(
    dimension: u8,
    start: Numbering,
    a: Seq<PointLine>,
    count: int,
    rows: int,
)
    requires
        rows <= count <= a.len(),
    ensures
        with_points(dimension, start, a.take(count), rows) == with_points(
            dimension,
            start,
            a,
            rows,
        ),
    decreases rows,
{
    if rows > 0 {
        taken_points(dimension, start, a, count, rows - 1);
        assert(a.take(count)[rows - 1] == a[rows - 1]);
    }
}

/// What the first batches of points of a mesh cannot be numbered for, all of them
/// cannot.
pub(crate) proof fn repeat_stays(
    mesh: MeshFile,
    list: Seq<BatchDirectoryEntry>,
    few: int,
    many: int,
    a: Seq<PointLine>,
    b: Seq<PointLine>,
)
    requires
        few <= many,
        points_from(mesh.batches(), list, few, a),
        points_from(mesh.batches(), list, many, b),
        with_points(
            mesh.header().dimension,
            first_numbering(mesh),
            a,
            a.len() as int,
        ) is Err,
    ensures
        with_points(
            mesh.header().dimension,
            first_numbering(mesh),
            b,
            b.len() as int,
        ) == with_points(mesh.header().dimension, first_numbering(mesh), a, a.len() as int),
{
    let dimension = mesh.header().dimension;
    let start = first_numbering(mesh);
    let rows = a.len() as int;
    points_begin(mesh.batches(), list, few, many, a, b);
    points_text_is_settled(dimension, start, a, b.take(rows), rows);
    taken_points(dimension, start, b, rows, rows);
    points_of_prefix(dimension, start, b, rows, b.len() as int);
}

pub(crate) proof fn numbers_settled(mesh: MeshFile, a: Map<u64, usize>, b: Map<u64, usize>)
    requires
        numbers_of(mesh, a),
        numbers_of(mesh, b),
    ensures
        a == b,
{
    let list = of_kind(mesh.entries(), RowKind::Point);
    let dimension = mesh.header().dimension;
    let start = first_numbering(mesh);
    let first = choose|points: Seq<PointLine>|
        #[trigger] points_from(mesh.batches(), list, list.len() as int, points) && (with_points(
            dimension,
            start,
            points,
            points.len() as int,
        ) matches Ok(last) && last.numbers == a);
    let second = choose|points: Seq<PointLine>|
        #[trigger] points_from(mesh.batches(), list, list.len() as int, points) && (with_points(
            dimension,
            start,
            points,
            points.len() as int,
        ) matches Ok(last) && last.numbers == b);
    points_are_settled(mesh.batches(), list, list.len() as int, first, second);
    points_text_is_settled(dimension, start, first, second, first.len() as int);
}

proof fn written_cells(
    numbers: Map<u64, usize>,
    text: Seq<char>,
    cells: Seq<ElementLine>,
    rows: int,
)
    requires
        rows <= cells.len(),
        with_cells(numbers, text, 0, cells, rows) is Ok,
    ensures
        writes_before(numbers, cells, rows),
    decreases rows,
{
    if rows > 0 {
        written_cells(numbers, text, cells, rows - 1);
    }
}

/// An export that fails has something in its way: the mesh cannot be exported
/// from the session.
pub proof fn failed_export(mesh: MeshFile, session: MeshReadSession, error: MeshError)
    requires
        mesh.wf(),
        export_fails(mesh, session, error),
    ensures
        !exports(mesh, session),
{
    if exports(mesh, session) {
        let text = choose|text: Seq<char>| su2_text_of(mesh, text);
        let (points, cells, lines, markers) = choose|
            points: Seq<PointLine>,
            cells: Seq<ElementLine>,
            lines: Seq<BoundaryLine>,
            markers: Seq<Marker>,
        |
            lists_of(mesh, points, cells, lines) && markers_of(mesh, lines, markers)
                && #[trigger] is_su2_text(mesh, points, cells, lines, markers, text);
        let header = mesh.header();
        let start = first_numbering(mesh);
        let list = of_kind(mesh.entries(), RowKind::Point);
        let numbered = with_points(header.dimension, start, points, points.len() as int)->Ok_0;
        let head = numbered.text + "NELEM= "@ + decimal(header.counts.cells as nat) + "\n"@;
        written_cells(numbered.numbers, head, cells, cells.len() as int);
        assert(numbers_of(mesh, numbered.numbers));
        if exists|place: int| #[trigger] point_batch_fails(mesh, session, place, error) {
            let place = choose|place: int| #[trigger]
                point_batch_fails(mesh, session, place, error);
            assert(batch_had(mesh, session, list[place]));
            let seen = choose|seen: Seq<PointLine>|
                #[trigger] points_from(mesh.batches(), list, place + 1, seen) && with_points(
                    header.dimension,
                    start,
                    seen,
                    seen.len() as int,
                ) == Err::<Numbering, Seq<char>>(error.text());
            repeat_stays(mesh, list, place + 1, list.len() as int, seen, points);
        } else {
            let numbers = choose|numbers: Map<u64, usize>| #[trigger]
                numbers_of(mesh, numbers) && later_fails(mesh, session, numbers, error);
            numbers_settled(mesh, numbers, numbered.numbers);
            later_failure(mesh, session, numbers, cells, lines, markers, error);
            let body = with_cells(numbers, head, 0, cells, cells.len() as int)->Ok_0;
            marker_faults_settled(
                numbers,
                body + "NMARK= "@ + decimal(markers.len()) + "\n"@,
                Seq::empty(),
                lines,
                markers,
                markers.len() as int,
            );
        }
    }
}

proof fn later_failure(
    mesh: MeshFile,
    session: MeshReadSession,
    numbers: Map<u64, usize>,
    cells: Seq<ElementLine>,
    lines: Seq<BoundaryLine>,
    markers: Seq<Marker>,
    error: MeshError,
)
    requires
        mesh.wf(),
        exports(mesh, session),
        later_fails(mesh, session, numbers, error),
        ({
            let list = of_kind(mesh.entries(), RowKind::Cell);
            let kind = boundary_kind_of(mesh.header().dimension);
            let edges = of_kind(mesh.entries(), kind);
            &&& elements_from(mesh.batches(), list, list.len() as int, cells)
            &&& boundary_from(mesh.batches(), edges, edges.len() as int, lines)
        }),
        markers_of(mesh, lines, markers),
        writes_before(numbers, cells, cells.len() as int),
    ensures
        with_markers(numbers, Seq::empty(), lines, markers, markers.len() as int) is Err,
{
    let list = of_kind(mesh.entries(), RowKind::Cell);
    let kind = boundary_kind_of(mesh.header().dimension);
    let edges = of_kind(mesh.entries(), kind);
    if exists|place: int| #[trigger] cell_batch_fails(mesh, session, numbers, place, error) {
        let place = choose|place: int| #[trigger]
            cell_batch_fails(mesh, session, numbers, place, error);
        assert(batch_had(mesh, session, list[place]));
        rows_grow(mesh.batches(), list, place + 1, list.len() as int);
        let (seen, row) = choose|seen: Seq<ElementLine>, row: int|
            #[trigger] elements_from(mesh.batches(), list, place + 1, seen) && 0 <= row < seen.len()
                && writes_before(numbers, seen, row) && (element_text(
                numbers,
                #[trigger] seen[row],
            ) matches Err(fault) && cell_error(
                Err::<(), MeshError>(error),
                seen[row],
                fault,
            ));
        elements_begin(mesh.batches(), list, place + 1, list.len() as int, seen, cells);
        assert(same_element(seen[row], cells.take(seen.len() as int)[row]));
        assert(element_text(numbers, cells[row]) is Ok);
    } else if exists|place: int| #[trigger] boundary_batch_fails(mesh, session, place, error) {
        let place = choose|place: int| #[trigger]
            boundary_batch_fails(mesh, session, place, error);
        assert(batch_had(mesh, session, edges[place]));
    } else {
        let (others, marks) = choose|others: Seq<BoundaryLine>, marks: Seq<Marker>|
            boundary_from(mesh.batches(), edges, edges.len() as int, others)
                && #[trigger] markers_of(mesh, others, marks) && marked_unfit(
                numbers,
                others,
                marks,
                error,
            );
        names_are_distinct(mesh);
        boundary_is_settled(mesh.batches(), edges, edges.len() as int, others, lines);
        markers_are_settled(mesh, others, lines, marks, markers);
        markers_text_is_settled(
            numbers,
            Seq::empty(),
            others,
            lines,
            marks,
            markers,
            marks.len() as int,
        );
    }
}

} // verus!
