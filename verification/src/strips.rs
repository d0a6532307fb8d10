//! Strips of quads along a boundary: a column of points at each vertex, from
//! the wall inwards, and the quads between neighboring columns.

use vstd::prelude::*;

use crate::assess::BoundaryEdge;
use crate::incidence::next_place;
#[allow(unused_imports)]
use crate::layers::column_targets;
use crate::layers::{note_row_heights, LayerPatch};
use crate::number::Real;
use crate::quadtree::Leaf;
use crate::sorted::{position, SortedMap, SortedSet};
#[allow(unused_imports)]
use crate::sorted::increasing_has_no_duplicates;
#[allow(unused_imports)]
use crate::sweeps::side_key;
#[allow(unused_imports)]
use crate::topology::{cell_known, cell_views, edge_key, CellView};
use crate::topology::{ordered_pair, Candidate, Cell, EdgeKey, Point, PointKey};

verus! {

/// The names of a vertex's column: the vertex itself at the wall, then one
/// fresh name for each row.
pub open spec fn strip_column(vertex: PointKey, layers: usize, first: int) -> Seq<PointKey> {
    Seq::new(
        (layers + 1) as nat,
        |row: int|
            if row == 0 {
                vertex
            } else {
                PointKey::Inserted((first + row - 1) as u64)
            },
    )
}

/// The first fresh name of the column at a place.
pub open spec fn column_start(next: int, layers: usize, place: int) -> int {
    next + layers * place
}

/// The columns are those of the vertices, named in order.
pub open spec fn columns_named(
    columns: Seq<Vec<PointKey>>,
    vertices: Seq<PointKey>,
    layers: usize,
    next: int,
) -> bool {
    &&& columns.len() == vertices.len()
    &&& forall|i: int|
        0 <= i < columns.len() ==> (#[trigger] columns[i])@ == strip_column(
            vertices[i],
            layers,
            column_start(next, layers, i),
        )
}

/// Names the columns of a patch's vertices, from a free name on.
pub fn name_columns(vertices: &Vec<PointKey>, layers: usize, next: u64) -> (result: Vec<
    Vec<PointKey>,
>)
    requires
        layers < usize::MAX,
        next + layers * vertices@.len() <= u64::MAX,
    ensures
        columns_named(result@, vertices@, layers, next as int),
{
    let mut columns: Vec<Vec<PointKey>> = Vec::new();
    let mut free: u64 = next;
    let mut i: usize = 0;
    assert(layers * 0 == 0) by (nonlinear_arith);
    while i < vertices.len()
        invariant
            i <= vertices.len(),
            layers < usize::MAX,
            next + layers * vertices@.len() <= u64::MAX,
            free == column_start(next as int, layers, i as int),
            columns@.len() == i,
            forall|k: int|
                0 <= k < i ==> (#[trigger] columns@[k])@ == strip_column(
                    vertices@[k],
                    layers,
                    column_start(next as int, layers, k),
                ),
        decreases vertices.len() - i,
    {
        proof {
            let l = layers as int;
            let n = vertices@.len() as int;
            let k = i as int;
            assert(l * k + l == l * (k + 1)) by (nonlinear_arith);
            assert(l * (k + 1) <= l * n) by (nonlinear_arith)
                requires
                    l >= 0,
                    k + 1 <= n,
            ;
        }
        let ghost start = free as int;
        let mut column: Vec<PointKey> = Vec::new();
        column.push(vertices[i]);
        let mut row: usize = 0;
        while row < layers
            invariant
                row <= layers,
                layers < usize::MAX,
                start + layers <= u64::MAX,
                free == start + row,
                column@.len() == row + 1,
                column@ == strip_column(vertices@[i as int], layers, start).take(row + 1),
            decreases layers - row,
        {
            column.push(PointKey::Inserted(free));
            free = free + 1;
            row += 1;
            assert(column@ =~= strip_column(vertices@[i as int], layers, start).take(row + 1));
        }
        assert(column@ =~= strip_column(vertices@[i as int], layers, start));
        columns.push(column);
        i += 1;
    }
    columns
}

/// A row's point, held in place; the wall's is on the boundary.
pub open spec fn row_point(site: Point, row: int) -> Point {
    if row == 0 {
        Point { boundary: true, protected: true, ..site }
    } else {
        site
    }
}

/// The points with the first rows of a column put in place.
pub open spec fn with_rows(
    points: Map<PointKey, Point>,
    column: Seq<PointKey>,
    sites: Seq<Point>,
    rows: int,
) -> Map<PointKey, Point>
    decreases rows,
{
    if rows <= 0 {
        points
    } else {
        with_rows(points, column, sites, rows - 1).insert(
            column[rows - 1],
            row_point(sites[rows - 1], rows - 1),
        )
    }
}

/// The points with the first columns put in place.
pub open spec fn with_columns(
    points: Map<PointKey, Point>,
    columns: Seq<Vec<PointKey>>,
    sites: Seq<Vec<Point>>,
    count: int,
) -> Map<PointKey, Point>
    decreases count,
{
    if count <= 0 {
        points
    } else {
        with_rows(
            with_columns(points, columns, sites, count - 1),
            columns[count - 1]@,
            sites[count - 1]@,
            columns[count - 1]@.len() as int,
        )
    }
}

/// Puts the points of the columns in place.
pub fn place_columns(
    points: &mut SortedMap<PointKey, Point>,
    columns: &Vec<Vec<PointKey>>,
    sites: &Vec<Vec<Point>>,
)
    requires
        old(points).wf(),
        sites@.len() == columns@.len(),
        forall|i: int|
            0 <= i < columns@.len() ==> (#[trigger] sites@[i])@.len() == columns@[i]@.len(),
    ensures
        final(points).wf(),
        final(points)@ == with_columns(old(points)@, columns@, sites@, columns@.len() as int),
{
    let ghost start = points@;
    let mut i: usize = 0;
    while i < columns.len()
        invariant
            i <= columns.len(),
            points.wf(),
            start == old(points)@,
            sites@.len() == columns@.len(),
            forall|k: int|
                0 <= k < columns@.len() ==> (#[trigger] sites@[k])@.len() == columns@[k]@.len(),
            points@ == with_columns(start, columns@, sites@, i as int),
        decreases columns.len() - i,
    {
        let ghost before = points@;
        assert(sites@[i as int]@.len() == columns@[i as int]@.len());
        let column = &columns[i];
        let list = &sites[i];
        let mut row: usize = 0;
        while row < column.len()
            invariant
                row <= column.len(),
                list@.len() == column@.len(),
                points.wf(),
                points@ == with_rows(before, column@, list@, row as int),
            decreases column.len() - row,
        {
            let site = list[row];
            let point = if row == 0 {
                Point { uv: site.uv, world: site.world, boundary: true, protected: true }
            } else {
                site
            };
            points.insert(column[row], point);
            row += 1;
        }
        i += 1;
    }
}

/// The quad of a row between two columns, in the order of the boundary edge, or
/// turned round.
pub open spec fn strip_quad(
    a: Seq<PointKey>,
    b: Seq<PointKey>,
    row: int,
    turned: bool,
) -> Seq<PointKey> {
    if turned {
        seq![a[row + 1], b[row + 1], b[row], a[row]]
    } else {
        seq![a[row], b[row], b[row + 1], a[row + 1]]
    }
}

/// The quads of one edge of the boundary, row by row, and the edge of its front.
#[derive(Debug)]
pub struct StripSide {
    pub quads: Vec<[PointKey; 4]>,
    pub front: [PointKey; 2],
}

/// The quads between two columns of the same length. `turned[row]` says that
/// the quad of a row must be turned round.
pub fn strip_side(a: &Vec<PointKey>, b: &Vec<PointKey>, turned: &Vec<bool>) -> (result: StripSide)
    requires
        a@.len() == turned@.len() + 1,
        b@.len() == turned@.len() + 1,
    ensures
        result.quads@.len() == turned@.len(),
        forall|row: int|
            0 <= row < turned@.len() ==> (#[trigger] result.quads@[row])@ == strip_quad(
                a@,
                b@,
                row,
                turned@[row],
            ),
        result.front@ == seq![a@.last(), b@.last()],
{
    let layers: usize = turned.len();
    let mut quads: Vec<[PointKey; 4]> = Vec::new();
    let mut row: usize = 0;
    while row < layers
        invariant
            row <= layers,
            layers == turned@.len(),
            a@.len() == layers + 1,
            b@.len() == layers + 1,
            quads@.len() == row,
            forall|k: int|
                0 <= k < row ==> (#[trigger] quads@[k])@ == strip_quad(a@, b@, k, turned@[k]),
        decreases layers - row,
    {
        let quad = if turned[row] {
            [a[row + 1], b[row + 1], b[row], a[row]]
        } else {
            [a[row], b[row], b[row + 1], a[row + 1]]
        };
        assert(quad@ =~= strip_quad(a@, b@, row as int, turned@[row as int]));
        quads.push(quad);
        row += 1;
    }
    let front = [a[layers], b[layers]];
    assert(front@ =~= seq![a@.last(), b@.last()]);
    StripSide { quads, front }
}

/// The edge is a side of one of the quads.
pub open spec fn quad_side(quads: Seq<[PointKey; 4]>, edge: EdgeKey) -> bool {
    exists|i: int, side: int|
        0 <= i < quads.len() && 0 <= side < 4 && #[trigger] side_key(quads[i]@, side) == edge
}

/// The edge is a step of one of the columns.
pub open spec fn column_step(columns: Seq<Vec<PointKey>>, edge: EdgeKey) -> bool {
    exists|i: int, row: int|
        0 <= i < columns.len() && 0 <= row < columns[i]@.len() - 1 && #[trigger] step_key(
            columns[i]@,
            row,
        ) == edge
}

/// The edge from a row of a column to the next.
pub open spec fn step_key(column: Seq<PointKey>, row: int) -> EdgeKey {
    edge_key(column[row], column[row + 1])
}

/// The edges that a strip holds: the sides of its quads and the steps of the
/// columns at its ends.
pub fn strip_constraints(quads: &Vec<[PointKey; 4]>, ends: &Vec<Vec<PointKey>>) -> (result: SortedSet<
    EdgeKey,
>)
    ensures
        result.wf(),
        forall|edge: EdgeKey| #[trigger]
            result@.contains(edge) <==> quad_side(quads@, edge) || column_step(ends@, edge),
{
    let mut edges = SortedSet::<EdgeKey>::new();
    let mut i: usize = 0;
    while i < quads.len()
        invariant
            i <= quads.len(),
            edges.wf(),
            forall|edge: EdgeKey| #[trigger]
                edges@.contains(edge) <==> quad_side(quads@.take(i as int), edge),
        decreases quads.len() - i,
    {
        let ghost before = edges@;
        let quad = quads[i];
        let mut side: usize = 0;
        while side < 4
            invariant
                side <= 4,
                edges.wf(),
                forall|edge: EdgeKey| #[trigger]
                    edges@.contains(edge) <==> before.contains(edge) || exists|k: int|
                        0 <= k < side && #[trigger] side_key(quad@, k) == edge,
            decreases 4 - side,
        {
            let ghost so_far = edges@;
            let key = ordered_pair(quad[side as usize], quad[next_place(side, 4)]);
            edges.insert(key);
            assert(key == side_key(quad@, side as int));
            assert forall|edge: EdgeKey| #[trigger] edges@.contains(edge) <==> before.contains(edge)
                || exists|k: int| 0 <= k < side + 1 && #[trigger] side_key(quad@, k) == edge by {
                assert(so_far.contains(edge) <==> before.contains(edge) || exists|k: int|
                    0 <= k < side && #[trigger] side_key(quad@, k) == edge);
                if edge == key {
                    assert(side_key(quad@, side as int) == edge);
                }
            }
            side += 1;
        }
        assert forall|edge: EdgeKey| #[trigger] edges@.contains(edge) <==> quad_side(
            quads@.take(i + 1),
            edge,
        ) by {
            let less = quads@.take(i as int);
            let more = quads@.take(i + 1);
            assert(more[i as int] == quad);
            assert(before.contains(edge) <==> quad_side(less, edge));
            if quad_side(less, edge) {
                let (p, k) = choose|p: int, k: int|
                    0 <= p < less.len() && 0 <= k < 4 && #[trigger] side_key(less[p]@, k) == edge;
                assert(side_key(more[p]@, k) == edge);
            }
            if exists|k: int| 0 <= k < 4 && #[trigger] side_key(quad@, k) == edge {
                let k = choose|k: int| 0 <= k < 4 && #[trigger] side_key(quad@, k) == edge;
                assert(side_key(more[i as int]@, k) == edge);
            }
            if quad_side(more, edge) {
                let (p, k) = choose|p: int, k: int|
                    0 <= p < more.len() && 0 <= k < 4 && #[trigger] side_key(more[p]@, k) == edge;
                if p < i {
                    assert(side_key(less[p]@, k) == edge);
                } else {
                    assert(side_key(quad@, k) == edge);
                }
            }
        }
        i += 1;
    }
    assert(quads@.take(i as int) =~= quads@);
    let mut c: usize = 0;
    while c < ends.len()
        invariant
            c <= ends.len(),
            edges.wf(),
            forall|edge: EdgeKey| #[trigger]
                edges@.contains(edge) <==> quad_side(quads@, edge) || column_step(
                    ends@.take(c as int),
                    edge,
                ),
        decreases ends.len() - c,
    {
        let ghost before = edges@;
        let column = &ends[c];
        let steps: usize = if column.len() == 0 {
            0
        } else {
            column.len() - 1
        };
        let mut row: usize = 0;
        while row < steps
            invariant
                row <= steps,
                steps < column@.len() || steps == 0,
                edges.wf(),
                forall|edge: EdgeKey| #[trigger]
                    edges@.contains(edge) <==> before.contains(edge) || exists|k: int|
                        0 <= k < row && #[trigger] step_key(column@, k) == edge,
            decreases steps - row,
        {
            let ghost so_far = edges@;
            let key = ordered_pair(column[row], column[row + 1]);
            edges.insert(key);
            assert(key == step_key(column@, row as int));
            assert forall|edge: EdgeKey| #[trigger] edges@.contains(edge) <==> before.contains(edge)
                || exists|k: int| 0 <= k < row + 1 && #[trigger] step_key(column@, k) == edge by {
                assert(so_far.contains(edge) <==> before.contains(edge) || exists|k: int|
                    0 <= k < row && #[trigger] step_key(column@, k) == edge);
                if edge == key {
                    assert(step_key(column@, row as int) == edge);
                }
            }
            row += 1;
        }
        assert forall|edge: EdgeKey| #[trigger] edges@.contains(edge) <==> quad_side(quads@, edge)
            || column_step(ends@.take(c + 1), edge) by {
            let less = ends@.take(c as int);
            let more = ends@.take(c + 1);
            assert(more[c as int] == *column);
            assert(before.contains(edge) <==> quad_side(quads@, edge) || column_step(less, edge));
            if column_step(less, edge) {
                let (p, k) = choose|p: int, k: int|
                    0 <= p < less.len() && 0 <= k < less[p]@.len() - 1 && #[trigger] step_key(
                        less[p]@,
                        k,
                    ) == edge;
                assert(step_key(more[p]@, k) == edge);
            }
            if exists|k: int| 0 <= k < steps && #[trigger] step_key(column@, k) == edge {
                let k = choose|k: int| 0 <= k < steps && #[trigger] step_key(column@, k) == edge;
                assert(step_key(more[c as int]@, k) == edge);
            }
            if column_step(more, edge) {
                let (p, k) = choose|p: int, k: int|
                    0 <= p < more.len() && 0 <= k < more[p]@.len() - 1 && #[trigger] step_key(
                        more[p]@,
                        k,
                    ) == edge;
                if p < c {
                    assert(step_key(less[p]@, k) == edge);
                } else {
                    assert(step_key(column@, k) == edge);
                }
            }
        }
        c += 1;
    }
    assert(ends@.take(c as int) =~= ends@);
    edges
}

/// The names of different rows, or of rows of different columns, differ, and
/// none is the name of a vertex that was there before.
pub proof fn column_names_are_distinct(
    vertices: Seq<PointKey>,
    layers: usize,
    next: int,
    i: int,
    row: int,
    j: int,
    other: int,
)
    requires
        0 <= next,
        next + layers * vertices.len() <= u64::MAX,
        0 <= i < vertices.len(),
        0 <= j < vertices.len(),
        1 <= row <= layers,
        1 <= other <= layers,
        (i, row) != (j, other),
    ensures
        strip_column(vertices[i], layers, column_start(next, layers, i))[row] != strip_column(
            vertices[j],
            layers,
            column_start(next, layers, j),
        )[other],
        strip_column(vertices[i], layers, column_start(next, layers, i))[row] matches PointKey::Inserted(
            name,
        ) && name >= next,
{
    let l = layers as int;
    let n = vertices.len() as int;
    assert(l * i + l == l * (i + 1)) by (nonlinear_arith);
    assert(l * j + l == l * (j + 1)) by (nonlinear_arith);
    assert(l * (i + 1) <= l * n && l * (j + 1) <= l * n && l * i >= 0 && l * j >= 0) by (nonlinear_arith)
        requires
            l >= 0,
            0 <= i,
            0 <= j,
            i + 1 <= n,
            j + 1 <= n,
    ;
    let x = column_start(next, layers, i) + row - 1;
    let y = column_start(next, layers, j) + other - 1;
    if i < j {
        assert(l * (i + 1) <= l * j) by (nonlinear_arith)
            requires
                l >= 0,
                i + 1 <= j,
        ;
    } else if j < i {
        assert(l * (j + 1) <= l * i) by (nonlinear_arith)
            requires
                l >= 0,
                j + 1 <= i,
        ;
    }
    assert(x != y);
}

/// The strips laid so far: their quads, the edges of their fronts, and the
/// columns at the ends of open patches.
#[derive(Debug)]
pub struct Strip {
    pub cells: Vec<Cell>,
    pub front_edges: Vec<[PointKey; 2]>,
    pub end_columns: Vec<Vec<PointKey>>,
}

impl Strip {
    pub fn new() -> (result: Strip)
        ensures
            result.cells@.len() == 0,
            result.front_edges@.len() == 0,
            result.end_columns@.len() == 0,
    {
        Strip { cells: Vec::new(), front_edges: Vec::new(), end_columns: Vec::new() }
    }
}

/// The targets with those of the steps of the first columns added.
pub open spec fn columns_targets(
    targets: Map<EdgeKey, Real>,
    columns: Seq<Vec<PointKey>>,
    heights: Seq<Real>,
    count: int,
) -> Map<EdgeKey, Real>
    decreases count,
{
    if count <= 0 {
        targets
    } else {
        column_targets(
            columns_targets(targets, columns, heights, count - 1),
            columns[count - 1]@,
            heights,
            heights.len() as int,
        )
    }
}

proof fn placed_columns_keep_points(
    points: Map<PointKey, Point>,
    columns: Seq<Vec<PointKey>>,
    sites: Seq<Vec<Point>>,
    count: int,
)
    requires
        0 <= count <= columns.len(),
    ensures
        forall|key: PointKey| #[trigger]
            points.dom().contains(key) ==> with_columns(points, columns, sites, count).dom().contains(
                key,
            ),
        forall|i: int, row: int|
            0 <= i < count && 0 <= row < columns[i]@.len() ==> with_columns(
                points,
                columns,
                sites,
                count,
            ).dom().contains(#[trigger] columns[i]@[row]),
    decreases count,
{
    if count > 0 {
        placed_columns_keep_points(points, columns, sites, count - 1);
        placed_rows_keep_points(
            with_columns(points, columns, sites, count - 1),
            columns[count - 1]@,
            sites[count - 1]@,
            columns[count - 1]@.len() as int,
        );
    }
}

proof fn placed_rows_keep_points(
    points: Map<PointKey, Point>,
    column: Seq<PointKey>,
    sites: Seq<Point>,
    rows: int,
)
    requires
        0 <= rows <= column.len(),
    ensures
        forall|key: PointKey| #[trigger]
            points.dom().contains(key) ==> with_rows(points, column, sites, rows).dom().contains(key),
        forall|row: int|
            0 <= row < rows ==> with_rows(points, column, sites, rows).dom().contains(
                #[trigger] column[row],
            ),
    decreases rows,
{
    if rows > 0 {
        placed_rows_keep_points(points, column, sites, rows - 1);
    }
}

/// Raises a column at each vertex of a patch. `sites[i][row]` is where the row
/// of the column at vertex `i` lies, `heights[row]` the height of a row.
pub fn raise_columns(
    candidate: &mut Candidate,
    vertices: &Vec<PointKey>,
    sites: &Vec<Vec<Point>>,
    heights: &Vec<Real>,
) -> (result: Vec<Vec<PointKey>>)
    requires
        old(candidate).wf(),
        heights@.len() < usize::MAX,
        old(candidate).next_inserted + heights@.len() * vertices@.len() <= u64::MAX,
        sites@.len() == vertices@.len(),
        forall|i: int|
            0 <= i < vertices@.len() ==> (#[trigger] sites@[i])@.len() == heights@.len() + 1,
    ensures
        final(candidate).wf(),
        columns_named(
            result@,
            vertices@,
            heights@.len() as usize,
            old(candidate).next_inserted as int,
        ),
        final(candidate).next_inserted == old(candidate).next_inserted + heights@.len()
            * vertices@.len(),
        final(candidate).points@ == with_columns(
            old(candidate).points@,
            result@,
            sites@,
            result@.len() as int,
        ),
        forall|i: int, row: int|
            0 <= i < result@.len() && 0 <= row < result@[i]@.len() ==> final(candidate).points@.dom().contains(#[trigger] result@[i]@[row]),
        final(candidate).layer_edge_targets@ == columns_targets(
            old(candidate).layer_edge_targets@,
            result@,
            heights@,
            result@.len() as int,
        ),
        final(candidate).cells == old(candidate).cells,
        final(candidate).construction_failures == old(candidate).construction_failures,
{
    let layers: usize = heights.len();
    let ghost start = *candidate;
    proof {
        let l = layers as int;
        let n = vertices@.len() as int;
        assert(l * n >= 0) by (nonlinear_arith)
            requires
                l >= 0,
                n >= 0,
        ;
    }
    let columns = name_columns(vertices, layers, candidate.next_inserted);
    place_columns(&mut candidate.points, &columns, sites);
    proof {
        placed_columns_keep_points(start.points@, columns@, sites@, columns@.len() as int);
        assert forall|i: int| 0 <= i < start.cells_view().len() implies cell_known(
            #[trigger] start.cells_view()[i],
            candidate.points@,
        ) by {
            assert(cell_known(start.cells_view()[i], start.points@));
        }
    }
    let mut i: usize = 0;
    assert(layers * 0 == 0) by (nonlinear_arith);
    while i < columns.len()
        invariant
            i <= columns@.len(),
            layers == heights@.len(),
            start == *old(candidate),
            columns@.len() == vertices@.len(),
            start.next_inserted + layers * vertices@.len() <= u64::MAX,
            forall|k: int|
                0 <= k < columns@.len() ==> (#[trigger] columns@[k])@.len() == layers + 1,
            candidate.wf(),
            candidate.points@ == with_columns(
                start.points@,
                columns@,
                sites@,
                columns@.len() as int,
            ),
            candidate.next_inserted == start.next_inserted + layers * i,
            candidate.cells == start.cells,
            candidate.construction_failures == start.construction_failures,
            candidate.layer_edge_targets@ == columns_targets(
                start.layer_edge_targets@,
                columns@,
                heights@,
                i as int,
            ),
        decreases columns@.len() - i,
    {
        proof {
            let l = layers as int;
            let n = vertices@.len() as int;
            let k = i as int;
            assert(l * k + l == l * (k + 1)) by (nonlinear_arith);
            assert(l * (k + 1) <= l * n) by (nonlinear_arith)
                requires
                    l >= 0,
                    k + 1 <= n,
            ;
        }
        note_row_heights(candidate, &columns[i], heights);
        candidate.next_inserted = candidate.next_inserted + layers as u64;
        i = i + 1;
    }
    columns
}

/// The targets with those between two columns added, row by row.
pub open spec fn rows_targets(
    targets: Map<EdgeKey, Real>,
    a: Seq<PointKey>,
    b: Seq<PointKey>,
    size: Real,
    rows: int,
) -> Map<EdgeKey, Real>
    decreases rows,
{
    if rows <= 0 {
        targets
    } else {
        rows_targets(targets, a, b, size, rows - 1).insert(edge_key(a[rows - 1], b[rows - 1]), size)
    }
}

/// The target along the wall between two columns: the one that is noted there,
/// or else the usual one.
pub open spec fn wall_target(
    targets: Map<EdgeKey, Real>,
    a: Seq<PointKey>,
    b: Seq<PointKey>,
    usual: Real,
) -> Real {
    let edge = edge_key(a[0], b[0]);
    if targets.dom().contains(edge) {
        targets[edge]
    } else {
        usual
    }
}

fn note_rows(
    targets: &mut SortedMap<EdgeKey, Real>,
    a: &Vec<PointKey>,
    b: &Vec<PointKey>,
    usual: Real,
)
    requires
        old(targets).wf(),
        a@.len() == b@.len(),
        a@.len() > 0,
    ensures
        final(targets).wf(),
        final(targets)@ == rows_targets(
            old(targets)@,
            a@,
            b@,
            wall_target(old(targets)@, a@, b@, usual),
            a@.len() as int,
        ),
{
    let ghost start = targets@;
    let size = match targets.get(&ordered_pair(a[0], b[0])) {
        Some(noted) => *noted,
        None => usual,
    };
    let mut row: usize = 0;
    while row < a.len()
        invariant
            row <= a@.len(),
            a@.len() == b@.len(),
            start == old(targets)@,
            targets.wf(),
            targets@ == rows_targets(start, a@, b@, size, row as int),
        decreases a@.len() - row,
    {
        targets.insert(ordered_pair(a[row], b[row]), size);
        row = row + 1;
    }
}

/// The columns at the two ends of a boundary edge.
pub open spec fn edge_columns(
    vertices: Seq<PointKey>,
    columns: Seq<Vec<PointKey>>,
    edge: BoundaryEdge,
) -> (Seq<PointKey>, Seq<PointKey>) {
    (
        columns[vertices.index_of(edge.points[0])]@,
        columns[vertices.index_of(edge.points[1])]@,
    )
}

/// The targets with those along the first edges of a patch added.
pub open spec fn patch_targets(
    targets: Map<EdgeKey, Real>,
    vertices: Seq<PointKey>,
    columns: Seq<Vec<PointKey>>,
    boundary: Seq<BoundaryEdge>,
    edges: Seq<usize>,
    usual: Real,
    count: int,
) -> Map<EdgeKey, Real>
    decreases count,
{
    if count <= 0 {
        targets
    } else {
        let so_far = patch_targets(targets, vertices, columns, boundary, edges, usual, count - 1);
        let (a, b) = edge_columns(vertices, columns, boundary[edges[count - 1] as int]);
        rows_targets(so_far, a, b, wall_target(so_far, a, b, usual), a.len() as int)
    }
}

/// The quads between two columns, row by row.
pub open spec fn side_cells(
    a: Seq<PointKey>,
    b: Seq<PointKey>,
    turned: Seq<bool>,
    leaf: Leaf,
) -> Seq<CellView> {
    Seq::new(
        turned.len(),
        |row: int|
            CellView { points: strip_quad(a, b, row, turned[row]), leaf, protected: true },
    )
}

/// The quads along the first edges of a patch.
pub open spec fn patch_cells(
    vertices: Seq<PointKey>,
    columns: Seq<Vec<PointKey>>,
    boundary: Seq<BoundaryEdge>,
    edges: Seq<usize>,
    turned: Seq<Vec<bool>>,
    leaves: Seq<CellView>,
    count: int,
) -> Seq<CellView>
    decreases count,
{
    if count <= 0 {
        Seq::empty()
    } else {
        let edge = boundary[edges[count - 1] as int];
        let (a, b) = edge_columns(vertices, columns, edge);
        patch_cells(vertices, columns, boundary, edges, turned, leaves, count - 1) + side_cells(
            a,
            b,
            turned[count - 1]@,
            leaves[edge.cell as int].leaf,
        )
    }
}

/// The columns at the ends of a patch, in order.
pub open spec fn ending_columns(
    columns: Seq<Vec<PointKey>>,
    ends: Seq<bool>,
    count: int,
) -> Seq<Seq<PointKey>>
    decreases count,
{
    if count <= 0 {
        Seq::empty()
    } else if ends[count - 1] {
        ending_columns(columns, ends, count - 1).push(columns[count - 1]@)
    } else {
        ending_columns(columns, ends, count - 1)
    }
}

/// The lists, by what they hold.
pub open spec fn lists_of(columns: Seq<Vec<PointKey>>) -> Seq<Seq<PointKey>> {
    columns.map_values(|column: Vec<PointKey>| column@)
}

/// Lays the quads of a patch between its columns. `turned[e][row]` says that
/// the quad of a row along edge `e` must be turned round.
pub fn lay_strip(
    candidate: &mut Candidate,
    strip: &mut Strip,
    patch: &LayerPatch,
    columns: &Vec<Vec<PointKey>>,
    boundary: &Vec<BoundaryEdge>,
    edges: &Vec<usize>,
    turned: &Vec<Vec<bool>>,
    usual: Real,
)
    requires
        old(candidate).wf(),
        patch.wf(),
        columns@.len() == patch.vertices@.len(),
        turned@.len() == edges@.len(),
        forall|e: int|
            0 <= e < edges@.len() ==> (#[trigger] edges@[e]) < boundary@.len()
                && boundary@[edges@[e] as int].cell < old(candidate).cells@.len()
                && patch.vertices@.contains(boundary@[edges@[e] as int].points[0])
                && patch.vertices@.contains(boundary@[edges@[e] as int].points[1]),
        forall|i: int, e: int|
            0 <= i < columns@.len() && 0 <= e < edges@.len() ==> (#[trigger] columns@[i])@.len() == (
            #[trigger] turned@[e])@.len() + 1,
    ensures
        final(candidate).wf(),
        final(candidate).points == old(candidate).points,
        final(candidate).cells == old(candidate).cells,
        final(candidate).next_inserted == old(candidate).next_inserted,
        final(candidate).construction_failures == old(candidate).construction_failures,
        final(candidate).layer_edge_targets@ == patch_targets(
            old(candidate).layer_edge_targets@,
            patch.vertices@,
            columns@,
            boundary@,
            edges@,
            usual,
            edges@.len() as int,
        ),
        cell_views(final(strip).cells@) == cell_views(old(strip).cells@) + patch_cells(
            patch.vertices@,
            columns@,
            boundary@,
            edges@,
            turned@,
            old(candidate).cells_view(),
            edges@.len() as int,
        ),
        final(strip).front_edges@.len() == old(strip).front_edges@.len() + edges@.len(),
        forall|i: int|
            0 <= i < old(strip).front_edges@.len() ==> #[trigger] final(strip).front_edges@[i]
                == old(strip).front_edges@[i],
        forall|e: int|
            0 <= e < edges@.len() ==> #[trigger] front_runs(
                final(strip).front_edges@[old(strip).front_edges@.len() + e],
                edge_columns(patch.vertices@, columns@, boundary@[edges@[e] as int]),
            ),
        lists_of(final(strip).end_columns@) == lists_of(old(strip).end_columns@) + ending_columns(
            columns@,
            patch.ends@,
            columns@.len() as int,
        ),
{
    let ghost start = *candidate;
    let ghost laid = cell_views(strip.cells@);
    let ghost fronts = strip.front_edges@;
    let ghost ended = lists_of(strip.end_columns@);
    proof {
        increasing_has_no_duplicates(patch.vertices@);
        assert(laid =~= laid + Seq::<CellView>::empty());
        assert(ended =~= ended + Seq::<Seq<PointKey>>::empty());
    }
    let mut i: usize = 0;
    while i < columns.len()
        invariant
            i <= columns@.len(),
            patch.wf(),
            columns@.len() == patch.vertices@.len(),
            strip.cells@ == old(strip).cells@,
            strip.front_edges@ == fronts,
            lists_of(strip.end_columns@) == ended + ending_columns(
                columns@,
                patch.ends@,
                i as int,
            ),
        decreases columns@.len() - i,
    {
        if patch.ends[i] {
            let ghost before = strip.end_columns@;
            let column = columns[i].clone();
            assert(column@ =~= columns@[i as int]@);
            strip.end_columns.push(column);
            assert(lists_of(strip.end_columns@) =~= lists_of(before).push(columns@[i as int]@));
            assert(lists_of(strip.end_columns@) =~= ended + ending_columns(
                columns@,
                patch.ends@,
                i + 1,
            ));
        }
        i = i + 1;
    }
    let mut e: usize = 0;
    while e < edges.len()
        invariant
            e <= edges@.len(),
            start == *old(candidate),
            patch.wf(),
            patch.vertices@.no_duplicates(),
            columns@.len() == patch.vertices@.len(),
            turned@.len() == edges@.len(),
            forall|k: int|
                0 <= k < edges@.len() ==> (#[trigger] edges@[k]) < boundary@.len()
                    && boundary@[edges@[k] as int].cell < start.cells@.len()
                    && patch.vertices@.contains(boundary@[edges@[k] as int].points[0])
                    && patch.vertices@.contains(boundary@[edges@[k] as int].points[1]),
            forall|c: int, k: int|
                0 <= c < columns@.len() && 0 <= k < edges@.len() ==> (#[trigger] columns@[c])@.len()
                    == (#[trigger] turned@[k])@.len() + 1,
            candidate.wf(),
            candidate.points == start.points,
            candidate.cells == start.cells,
            candidate.next_inserted == start.next_inserted,
            candidate.construction_failures == start.construction_failures,
            candidate.layer_edge_targets@ == patch_targets(
                start.layer_edge_targets@,
                patch.vertices@,
                columns@,
                boundary@,
                edges@,
                usual,
                e as int,
            ),
            cell_views(strip.cells@) == laid + patch_cells(
                patch.vertices@,
                columns@,
                boundary@,
                edges@,
                turned@,
                start.cells_view(),
                e as int,
            ),
            strip.front_edges@.len() == fronts.len() + e,
            forall|k: int| 0 <= k < fronts.len() ==> #[trigger] strip.front_edges@[k] == fronts[k],
            forall|k: int|
                0 <= k < e ==> #[trigger] front_runs(
                    strip.front_edges@[fronts.len() + k],
                    edge_columns(patch.vertices@, columns@, boundary@[edges@[k] as int]),
                ),
            lists_of(strip.end_columns@) == ended + ending_columns(
                columns@,
                patch.ends@,
                columns@.len() as int,
            ),
        decreases edges@.len() - e,
    {
        assert(edges@[e as int] < boundary@.len());
        let edge = &boundary[edges[e]];
        let first: usize = position(&patch.vertices, &edge.points[0]);
        let second: usize = position(&patch.vertices, &edge.points[1]);
        assert(first == patch.vertices@.index_of(edge.points[0]));
        assert(second == patch.vertices@.index_of(edge.points[1]));
        let a = &columns[first];
        let b = &columns[second];
        assert(columns@[first as int]@.len() == turned@[e as int]@.len() + 1);
        assert(columns@[second as int]@.len() == turned@[e as int]@.len() + 1);
        note_rows(&mut candidate.layer_edge_targets, a, b, usual);
        let side = strip_side(a, b, &turned[e]);
        let leaf = candidate.cells[edge.cell].leaf;
        let ghost before = cell_views(strip.cells@);
        assert(start.cells_view()[edge.cell as int].leaf == leaf);
        push_quads(&mut strip.cells, &side.quads, leaf);
        proof {
            let row_cells = side_cells(a@, b@, turned@[e as int]@, leaf);
            assert(quad_cells(side.quads@, leaf) =~= row_cells);
            assert(cell_views(strip.cells@) =~= laid + (patch_cells(
                patch.vertices@,
                columns@,
                boundary@,
                edges@,
                turned@,
                start.cells_view(),
                e as int,
            ) + row_cells));
        }
        strip.front_edges.push(side.front);
        assert(front_runs(
            strip.front_edges@[fronts.len() + e],
            edge_columns(patch.vertices@, columns@, boundary@[edges@[e as int] as int]),
        ));
        e = e + 1;
    }
}

/// The front edge joins the last rows of the two columns.
pub open spec fn front_runs(front: [PointKey; 2], columns: (Seq<PointKey>, Seq<PointKey>)) -> bool {
    front@ == seq![columns.0.last(), columns.1.last()]
}

/// Protected cells of the quads.
pub open spec fn quad_cells(quads: Seq<[PointKey; 4]>, leaf: Leaf) -> Seq<CellView> {
    Seq::new(
        quads.len(),
        |i: int| CellView { points: quads[i]@, leaf, protected: true },
    )
}

fn push_quads(cells: &mut Vec<Cell>, quads: &Vec<[PointKey; 4]>, leaf: Leaf)
    ensures
        cell_views(final(cells)@) == cell_views(old(cells)@) + quad_cells(quads@, leaf),
{
    let ghost start = cell_views(cells@);
    assert(start =~= start + quad_cells(quads@, leaf).take(0));
    let mut i: usize = 0;
    while i < quads.len()
        invariant
            i <= quads@.len(),
            cell_views(cells@) == start + quad_cells(quads@, leaf).take(i as int),
        decreases quads@.len() - i,
    {
        let ghost before = cells@;
        let cell = Cell::quad(quads[i], leaf, true);
        cells.push(cell);
        assert(cell_views(cells@) =~= cell_views(before).push(cell@));
        assert(cell_views(cells@) =~= start + quad_cells(quads@, leaf).take(i + 1));
        i = i + 1;
    }
    assert(quad_cells(quads@, leaf).take(i as int) =~= quad_cells(quads@, leaf));
}

/// The columns at the ends of a patch are the flagged ones, in order.
pub proof fn ending_columns_are_flagged(
    columns: Seq<Vec<PointKey>>,
    ends: Seq<bool>,
    count: int,
) -> (places: Seq<int>)
    requires
        0 <= count,
    ensures
        ending_columns(columns, ends, count).len() == places.len(),
        forall|i: int, j: int|
            0 <= i < j < places.len() ==> (#[trigger] places[i]) < (#[trigger] places[j]),
        forall|k: int| #[trigger] places.contains(k) <==> 0 <= k < count && ends[k],
        forall|i: int|
            0 <= i < places.len() ==> ending_columns(columns, ends, count)[i] == columns[(#[trigger] places[i])]@,
    decreases count,
{
    if count == 0 {
        Seq::empty()
    } else {
        let list = ending_columns_are_flagged(columns, ends, count - 1);
        let last = count - 1;
        let takes = ends[last];
        let places = if takes {
            list.push(last)
        } else {
            list
        };
        let rest = ending_columns(columns, ends, count - 1);
        let now = ending_columns(columns, ends, count);
        
        assert forall|i: int| 0 <= i < list.len() implies 0 <= (#[trigger] list[i]) < last by {
            assert(list.contains(list[i]));
        }
        assert forall|k: int| #[trigger] places.contains(k) <==> 0 <= k < count && ends[k] by {
            if places.contains(k) {
                let m = places.index_of(k);
                if m < list.len() {
                    assert(list[m] == k);
                    assert(list.contains(k));
                }
            }
            if list.contains(k) {
                let m = list.index_of(k);
                assert(places[m] == k);
            }
            if k == last && takes {
                assert(places[list.len() as int] == k);
            }
        }
        assert forall|i: int| 0 <= i < places.len() implies now[i] == columns[(#[trigger] places[i])]@ by {
            if i < list.len() {
                assert(places[i] == list[i]);
                assert(now[i] == rest[i]);
            }
        }
        places
    }
}

} // verus!
