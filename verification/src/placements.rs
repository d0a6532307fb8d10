//! The columns over the vertices of a patch stand at their sites, and the cells between them
//! come edge by edge.

use vstd::prelude::*;

#[allow(unused_imports)]
use crate::edits::Site;
#[allow(unused_imports)]
use crate::assess::BoundaryEdge;
#[allow(unused_imports)]
use crate::layers::{column_added, column_keys, columns_added, next_after, rows_added, LayerPatch};
#[allow(unused_imports)]
use crate::laying::{edge_cells, group_cells, laid_cells, GroupPlan};
#[allow(unused_imports)]
use crate::number::Real;
#[allow(unused_imports)]
use crate::row_edges::{rows_get_their_targets, rows_stand_at_sites, rung, steps_get_their_targets};
#[allow(unused_imports)]
use crate::strips::{
    columns_targets, patch_cells, patch_targets, rows_targets, side_cells, step_key, with_columns,
};
#[allow(unused_imports)]
use crate::topology::{edge_key, CellView, EdgeKey, Point, PointKey};

verus! {

/// The name is one of those from `next` on, as many as there are layers.
pub open spec fn fresh_name(key: PointKey, next: int, layers: int) -> bool {
    key matches PointKey::Inserted(n) && next <= n < next + layers
}

spec fn row_name(next: int, row: int) -> PointKey {
    PointKey::Inserted((next + row) as u64)
}

proof fn rows_are_put(
    points: Map<PointKey, Point>,
    sites: Seq<Site>,
    next: int,
    rows: int,
)
    requires
        0 <= next,
        0 <= rows,
        next + rows <= u64::MAX,
    ensures
        ({
            let after = rows_added(points, sites, next, rows);
            &&& forall|row: int|
                0 <= row < rows ==> after.dom().contains(
                    #[trigger] row_name(next, row),
                ) && after[row_name(next, row)] == (Point {
                    uv: sites[row].uv,
                    world: sites[row].world,
                    boundary: row == 0,
                    protected: true,
                })
            &&& forall|key: PointKey|
                !fresh_name(key, next, rows) ==> #[trigger] after.dom().contains(key)
                    == points.dom().contains(key) && after[key] == points[key]
        }),
    decreases rows,
{
    if rows > 0 {
        rows_are_put(points, sites, next, rows - 1);
        let before = rows_added(points, sites, next, rows - 1);
        let after = rows_added(points, sites, next, rows);
        let last = PointKey::Inserted((next + rows - 1) as u64);
        assert forall|row: int| 0 <= row < rows implies after.dom().contains(
            #[trigger] row_name(next, row),
        ) && after[row_name(next, row)] == (Point {
            uv: sites[row].uv,
            world: sites[row].world,
            boundary: row == 0,
            protected: true,
        }) by {
            let key = row_name(next, row);
            if row < rows - 1 {
                assert((next + row) as u64 != (next + rows - 1) as u64);
                assert(key != last);
                assert(before.dom().contains(key));
            }
        }
        assert forall|key: PointKey| !fresh_name(key, next, rows) implies #[trigger] after.dom().contains(
            key,
        ) == points.dom().contains(key) && after[key] == points[key] by {
            assert(key != last);
            assert(before.dom().contains(key) == points.dom().contains(key));
        }
    }
}

/// Every row of a column stands at its own site and stays there, and only the row at the wall
/// is on the boundary; at the end of an open patch the vertex stays where it is. Other
/// points are left alone.
pub proof fn column_stands_at_sites(
    points: Map<PointKey, Point>,
    vertex: PointKey,
    end: bool,
    layers: usize,
    sites: Seq<Site>,
    next: int,
)
    requires
        0 <= next,
        next + layers <= u64::MAX,
        !fresh_name(vertex, next, layers as int),
        points.dom().contains(vertex),
    ensures
        ({
            let after = column_added(points, vertex, end, layers, sites, next);
            let column = column_keys(vertex, end, layers, next);
            &&& end ==> after.dom() == points.dom() && after[vertex] == (Point {
                protected: true,
                ..points[vertex]
            })
            &&& !end ==> forall|row: int|
                0 <= row <= layers ==> after.dom().contains(#[trigger] column[row])
                    && after[column[row]].uv == sites[row].uv && after[column[row]].world
                    == sites[row].world && after[column[row]].boundary == (row == 0 && layers > 0)
                    && after[column[row]].protected
            &&& forall|key: PointKey|
                key != vertex && (end || !fresh_name(key, next, layers as int)) ==> (
                #[trigger] after.dom().contains(key)) == points.dom().contains(key) && after[key]
                    == points[key]
        }),
{
    let after = column_added(points, vertex, end, layers, sites, next);
    let column = column_keys(vertex, end, layers, next);
    if end {
        assert(after.dom() =~= points.dom());
    } else {
        rows_are_put(points, sites, next, layers as int);
        let rows = rows_added(points, sites, next, layers as int);
        assert forall|row: int| 0 <= row <= layers implies after.dom().contains(
            #[trigger] column[row],
        ) && after[column[row]].uv == sites[row].uv && after[column[row]].world == sites[row].world
            && after[column[row]].boundary == (row == 0 && layers > 0)
            && after[column[row]].protected by {
            if row < layers {
                let key = row_name(next, row);
                assert(column[row] == key);
                assert(fresh_name(key, next, layers as int));
                assert(rows.dom().contains(key));
            }
        }
        assert forall|key: PointKey|
            key != vertex && !fresh_name(key, next, layers as int) implies (
        #[trigger] after.dom().contains(key)) == points.dom().contains(key) && after[key]
            == points[key] by {
            assert(rows.dom().contains(key) == points.dom().contains(key));
        }
    }
}

/// The columns of a patch take their names one after the other: each starts where those
/// before it end, and an end takes none.
pub proof fn columns_take_names_in_order(
    ends: Seq<bool>,
    layers: usize,
    next: int,
    first: int,
    second: int,
)
    requires
        0 <= first < second <= ends.len(),
    ensures
        next_after(ends, layers, next, 0) == next,
        next_after(ends, layers, next, first + 1) == next_after(ends, layers, next, first) + (
        if ends[first] {
            0int
        } else {
            layers as int
        }),
        next_after(ends, layers, next, second) >= next_after(ends, layers, next, first) + (
        if ends[first] {
            0int
        } else {
            layers as int
        }),
    decreases second,
{
    if second > first + 1 {
        columns_take_names_in_order(ends, layers, next, first, second - 1);
    }
}

/// The next free name never falls, so that no column takes the name of a point from before.
proof fn names_rise(ends: Seq<bool>, layers: usize, next: int, first: int, second: int)
    requires
        0 <= first <= second,
    ensures
        next_after(ends, layers, next, first) <= next_after(ends, layers, next, second),
    decreases second,
{
    if first < second {
        names_rise(ends, layers, next, first, second - 1);
    }
}

/// The columns over all vertices of a patch stand at their sites, whatever the columns after
/// them add.
pub proof fn columns_stand_at_sites(
    points: Map<PointKey, Point>,
    patch: LayerPatch,
    layers: usize,
    sites: Seq<Vec<Site>>,
    next: int,
    count: int,
)
    requires
        0 <= next,
        0 <= count <= patch.vertices@.len(),
        patch.ends@.len() == patch.vertices@.len(),
        next_after(patch.ends@, layers, next, count) <= u64::MAX,
        patch.vertices@.no_duplicates(),
        forall|i: int|
            0 <= i < patch.vertices@.len() ==> points.dom().contains(#[trigger] patch.vertices@[i])
                && !(patch.vertices@[i] matches PointKey::Inserted(n) && next <= n),
    ensures
        ({
            let after = columns_added(points, patch, layers, sites, next, count);
            &&& forall|i: int, row: int|
                #![trigger column_keys(patch.vertices@[i], patch.ends@[i], layers, next_after(patch.ends@, layers, next, i))[row]]
                0 <= i < count && 0 <= row <= layers && !patch.ends@[i] ==> {
                    let key = column_keys(
                        patch.vertices@[i],
                        patch.ends@[i],
                        layers,
                        next_after(patch.ends@, layers, next, i),
                    )[row];
                    after.dom().contains(key) && after[key].uv == sites[i]@[row].uv && after[key].world
                        == sites[i]@[row].world && after[key].boundary == (row == 0 && layers > 0)
                        && after[key].protected
                }
            &&& forall|i: int|
                0 <= i < count && patch.ends@[i] ==> after.dom().contains(
                    #[trigger] patch.vertices@[i],
                ) && after[patch.vertices@[i]] == (Point {
                    protected: true,
                    ..points[patch.vertices@[i]]
                })
            &&& forall|key: PointKey|
                !patch.vertices@.take(count).contains(key) && !(key matches PointKey::Inserted(n)
                    && next <= n) ==> (#[trigger] after.dom().contains(key))
                    == points.dom().contains(key) && after[key] == points[key]
        }),
    decreases count,
{
    if count > 0 {
        let last = count - 1;
        let start = next_after(patch.ends@, layers, next, last);
        names_rise(patch.ends@, layers, next, 0, last);
        names_rise(patch.ends@, layers, next, last, count);
        columns_stand_at_sites(points, patch, layers, sites, next, last);
        let before = columns_added(points, patch, layers, sites, next, last);
        let after = columns_added(points, patch, layers, sites, next, count);
        let vertex = patch.vertices@[last];
        let end = patch.ends@[last];
        assert(!patch.vertices@.take(last).contains(vertex)) by {
            if patch.vertices@.take(last).contains(vertex) {
                let m = patch.vertices@.take(last).index_of(vertex);
                assert(patch.vertices@[m] == vertex);
            }
        }
        assert(before.dom().contains(vertex) == points.dom().contains(vertex));
        assert(before[vertex] == points[vertex]);
        if end {
            column_at_end(before, vertex, layers, sites[last]@, start);
        } else {
            column_stands_at_sites(before, vertex, end, layers, sites[last]@, start);
        }
        assert forall|i: int, row: int|
            #![trigger column_keys(patch.vertices@[i], patch.ends@[i], layers, next_after(patch.ends@, layers, next, i))[row]]
            0 <= i < count && 0 <= row <= layers && !patch.ends@[i] implies {
            let key = column_keys(
                patch.vertices@[i],
                patch.ends@[i],
                layers,
                next_after(patch.ends@, layers, next, i),
            )[row];
            after.dom().contains(key) && after[key].uv == sites[i]@[row].uv && after[key].world
                == sites[i]@[row].world && after[key].boundary == (row == 0 && layers > 0)
                && after[key].protected
        } by {
            let begin = next_after(patch.ends@, layers, next, i);
            let key = column_keys(patch.vertices@[i], patch.ends@[i], layers, begin)[row];
            if i < last {
                names_rise(patch.ends@, layers, next, 0, i);
                columns_take_names_in_order(patch.ends@, layers, next, i, last);
                assert(patch.vertices@[i] != vertex);
                if row < layers {
                    assert(key == PointKey::Inserted((begin + row) as u64));
                    assert(begin + row < start);
                }
                assert(key != vertex);
                assert(!fresh_name(key, start, layers as int));
                assert(before.dom().contains(key));
                assert(after.dom().contains(key) == before.dom().contains(key));
            }
        }
        assert forall|i: int| 0 <= i < count && patch.ends@[i] implies after.dom().contains(
            #[trigger] patch.vertices@[i],
        ) && after[patch.vertices@[i]] == (Point {
            protected: true,
            ..points[patch.vertices@[i]]
        }) by {
            let key = patch.vertices@[i];
            if i < last {
                assert(key != vertex);
                assert(!fresh_name(key, start, layers as int));
                assert(before.dom().contains(key));
                assert(after.dom().contains(key) == before.dom().contains(key));
            }
        }
        assert forall|key: PointKey|
            !patch.vertices@.take(count).contains(key) && !(key matches PointKey::Inserted(n) && next
                <= n) implies (#[trigger] after.dom().contains(key)) == points.dom().contains(key)
            && after[key] == points[key] by {
            assert(patch.vertices@.take(count)[last] == vertex);
            assert(key != vertex);
            if patch.vertices@.take(last).contains(key) {
                let m = patch.vertices@.take(last).index_of(key);
                assert(patch.vertices@.take(count)[m] == key);
            }
            assert(!fresh_name(key, start, layers as int));
            assert(before.dom().contains(key) == points.dom().contains(key));
            assert(after.dom().contains(key) == before.dom().contains(key));
        }
    }
}

proof fn column_at_end(
    points: Map<PointKey, Point>,
    vertex: PointKey,
    layers: usize,
    sites: Seq<Site>,
    next: int,
)
    requires
        points.dom().contains(vertex),
    ensures
        ({
            let after = column_added(points, vertex, true, layers, sites, next);
            &&& after.dom() == points.dom()
            &&& after[vertex] == (Point { protected: true, ..points[vertex] })
            &&& forall|key: PointKey| key != vertex ==> #[trigger] after[key] == points[key]
        }),
{
    assert(column_added(points, vertex, true, layers, sites, next).dom() =~= points.dom());
}

/// The columns of a strip stand at their sites, whatever the columns after them put in place:
/// no two rows have one name.
pub proof fn strip_columns_stand_at_sites(
    points: Map<PointKey, Point>,
    columns: Seq<Vec<PointKey>>,
    sites: Seq<Vec<Point>>,
    count: int,
)
    requires
        0 <= count <= columns.len(),
        forall|i: int, j: int, row: int, other: int|
            0 <= i < columns.len() && 0 <= j < columns.len() && 0 <= row < columns[i]@.len() && 0
                <= other < columns[j]@.len() && (#[trigger] columns[i]@[row]) == (
            #[trigger] columns[j]@[other]) ==> i == j && row == other,
    ensures
        ({
            let after = with_columns(points, columns, sites, count);
            &&& forall|i: int, row: int|
                0 <= i < count && 0 <= row < columns[i]@.len() ==> after.dom().contains(
                    #[trigger] columns[i]@[row],
                ) && after[columns[i]@[row]].uv == sites[i]@[row].uv && after[columns[i]@[row]].world
                    == sites[i]@[row].world && after[columns[i]@[row]].boundary == (row == 0
                    || sites[i]@[row].boundary) && after[columns[i]@[row]].protected == (row == 0
                    || sites[i]@[row].protected)
            &&& forall|key: PointKey|
                (forall|i: int| 0 <= i < count ==> !(#[trigger] columns[i])@.contains(key)) ==> (
                #[trigger] after.dom().contains(key)) == points.dom().contains(key) && after[key]
                    == points[key]
        }),
    decreases count,
{
    if count > 0 {
        let last = count - 1;
        strip_columns_stand_at_sites(points, columns, sites, last);
        let before = with_columns(points, columns, sites, last);
        let after = with_columns(points, columns, sites, count);
        let column = columns[last]@;
        assert(column.no_duplicates()) by {
            assert forall|i: int, j: int|
                0 <= i < column.len() && 0 <= j < column.len() && i != j implies column[i]
                != column[j] by {
                if column[i] == column[j] {
                    assert(columns[last]@[i] == columns[last]@[j]);
                }
            }
        }
        rows_stand_at_sites(before, column, sites[last]@, column.len() as int);
        assert(column.take(column.len() as int) =~= column);
        assert forall|i: int, row: int| 0 <= i < count && 0 <= row < columns[i]@.len() implies after.dom().contains(
            #[trigger] columns[i]@[row],
        ) && after[columns[i]@[row]].uv == sites[i]@[row].uv && after[columns[i]@[row]].world
            == sites[i]@[row].world && after[columns[i]@[row]].boundary == (row == 0
            || sites[i]@[row].boundary) && after[columns[i]@[row]].protected == (row == 0
            || sites[i]@[row].protected) by {
            let key = columns[i]@[row];
            if i < last {
                if column.contains(key) {
                    let m = column.index_of(key);
                    assert(columns[last]@[m] == columns[i]@[row]);
                }
                assert(before.dom().contains(key));
                assert(after.dom().contains(key) == before.dom().contains(key));
            } else {
                assert(column[row] == key);
            }
        }
        assert forall|key: PointKey|
            (forall|i: int| 0 <= i < count ==> !(#[trigger] columns[i])@.contains(key)) implies (
        #[trigger] after.dom().contains(key)) == points.dom().contains(key) && after[key]
            == points[key] by {
            assert(!columns[last]@.contains(key));
            assert(before.dom().contains(key) == points.dom().contains(key));
        }
    }
}

/// Where the steps of the columns of a strip have targets afterwards, each is the height of
/// its row, and every other edge keeps its target.
pub proof fn strip_steps_get_heights(
    targets: Map<EdgeKey, Real>,
    columns: Seq<Vec<PointKey>>,
    heights: Seq<Real>,
    count: int,
    edge: EdgeKey,
)
    requires
        0 <= count <= columns.len(),
        forall|i: int|
            0 <= i < columns.len() ==> (#[trigger] columns[i])@.no_duplicates() && columns[i]@.len()
                == heights.len() + 1,
    ensures
        ({
            let after = columns_targets(targets, columns, heights, count);
            &&& (exists|i: int, row: int|
                0 <= i < count && 0 <= row < heights.len() && #[trigger] step_key(columns[i]@, row)
                    == edge) ==> after.dom().contains(edge) && exists|i: int, row: int|
                0 <= i < count && 0 <= row < heights.len() && #[trigger] step_key(columns[i]@, row)
                    == edge && after[edge] == heights[row]
            &&& !(exists|i: int, row: int|
                0 <= i < count && 0 <= row < heights.len() && #[trigger] step_key(columns[i]@, row)
                    == edge) ==> after.dom().contains(edge) == targets.dom().contains(edge)
                && after[edge] == targets[edge]
        }),
    decreases count,
{
    if count > 0 {
        let last = count - 1;
        let column = columns[last]@;
        let before = columns_targets(targets, columns, heights, last);
        let after = columns_targets(targets, columns, heights, count);
        strip_steps_get_heights(targets, columns, heights, last, edge);
        assert(column.no_duplicates() && column.len() == heights.len() + 1);
        steps_get_their_targets(before, column, heights, heights.len() as int);
        if exists|row: int| 0 <= row < heights.len() && #[trigger] step_key(column, row) == edge {
            let row = choose|row: int|
                0 <= row < heights.len() && #[trigger] step_key(column, row) == edge;
            assert(step_key(columns[last]@, row) == edge);
            assert(after[edge] == heights[row]);
        } else {
            assert(after.dom().contains(edge) == before.dom().contains(edge));
            assert(after[edge] == before[edge]);
            if exists|i: int, row: int|
                0 <= i < count && 0 <= row < heights.len() && #[trigger] step_key(columns[i]@, row)
                    == edge {
                let (i, row) = choose|i: int, row: int|
                    0 <= i < count && 0 <= row < heights.len() && #[trigger] step_key(
                        columns[i]@,
                        row,
                    ) == edge;
                assert(i < last) by {
                    if i == last {
                        assert(step_key(column, row) == edge);
                    }
                }
                let (k, at) = choose|k: int, at: int|
                    0 <= k < last && 0 <= at < heights.len() && #[trigger] step_key(columns[k]@, at)
                        == edge && before[edge] == heights[at];
                assert(step_key(columns[k]@, at) == edge);
            }
        }
    }
}

/// The cells of a group come edge by edge: after those of the edges before it an edge adds
/// one cell for each row, marked to stay, with the leaf of the cell that the edge bounds
/// and none but the points of the columns over its two ends.
pub proof fn group_cells_come_by_edge(
    plan: GroupPlan,
    boundary: Seq<BoundaryEdge>,
    cells: Seq<CellView>,
    place: int,
    count: int,
    row: int,
)
    requires
        0 <= place < count,
        0 <= row < plan.turned@[place]@.len(),
    ensures
        ({
            let start = group_cells(plan, boundary, cells, place).len();
            let all = group_cells(plan, boundary, cells, count);
            let edge = boundary[plan.edges@[place] as int];
            &&& start + plan.turned@[place]@.len() <= all.len()
            &&& place == count - 1 ==> start + plan.turned@[place]@.len() == all.len()
            &&& all[start + row].protected
            &&& all[start + row].leaf == cells[edge.cell as int].leaf
            &&& all[start + row] == edge_cells(
                plan.columns@[edge.points[0]]@,
                plan.columns@[edge.points[1]]@,
                plan.turned@[place]@,
                cells[edge.cell as int].leaf,
            )[row]
        }),
    decreases count,
{
    if place < count - 1 {
        group_cells_come_by_edge(plan, boundary, cells, place, count - 1, row);
    }
}

/// The cells of the groups come group by group, each group's whole and in order.
pub proof fn laid_cells_come_by_group(
    plans: Seq<GroupPlan>,
    boundary: Seq<BoundaryEdge>,
    cells: Seq<CellView>,
    group: int,
    count: int,
)
    requires
        0 <= group < count,
    ensures
        ({
            let start = laid_cells(plans, boundary, cells, group).len() as int;
            let own = group_cells(plans[group], boundary, cells, plans[group].edges@.len() as int);
            let all = laid_cells(plans, boundary, cells, count);
            &&& laid_cells(plans, boundary, cells, 0).len() == 0
            &&& start + own.len() <= all.len()
            &&& group == count - 1 ==> start + own.len() == all.len()
            &&& all.subrange(start, start + own.len()) == own
        }),
    decreases count,
{
    let start = laid_cells(plans, boundary, cells, group).len() as int;
    let own = group_cells(plans[group], boundary, cells, plans[group].edges@.len() as int);
    let all = laid_cells(plans, boundary, cells, count);
    if group < count - 1 {
        laid_cells_come_by_group(plans, boundary, cells, group, count - 1);
        let before = laid_cells(plans, boundary, cells, count - 1);
        assert(all.subrange(start, start + own.len()) =~= before.subrange(start, start + own.len()));
    } else {
        assert(all.subrange(start, start + own.len()) =~= own);
    }
}

/// The quads of a strip come edge by edge: each lies between the columns over the two ends
/// of its edge, at its row, marked to stay, with the leaf of the cell that the edge bounds.
pub proof fn strip_cells_come_by_edge(
    vertices: Seq<PointKey>,
    columns: Seq<Vec<PointKey>>,
    boundary: Seq<BoundaryEdge>,
    edges: Seq<usize>,
    turned: Seq<Vec<bool>>,
    leaves: Seq<CellView>,
    place: int,
    count: int,
    row: int,
    a: int,
    b: int,
)
    requires
        0 <= place < count,
        0 <= row < turned[place]@.len(),
        vertices.no_duplicates(),
        0 <= a < vertices.len(),
        0 <= b < vertices.len(),
        vertices[a] == boundary[edges[place] as int].points[0],
        vertices[b] == boundary[edges[place] as int].points[1],
    ensures
        ({
            let start = patch_cells(vertices, columns, boundary, edges, turned, leaves, place).len();
            let all = patch_cells(vertices, columns, boundary, edges, turned, leaves, count);
            let cell = all[start + row];
            let edge = boundary[edges[place] as int];
            &&& start + turned[place]@.len() <= all.len()
            &&& place == count - 1 ==> start + turned[place]@.len() == all.len()
            &&& cell.protected
            &&& cell.leaf == leaves[edge.cell as int].leaf
            &&& cell.points.len() == 4
            &&& forall|key: PointKey|
                #[trigger] cell.points.contains(key) <==> key == columns[a]@[row] || key
                    == columns[a]@[row + 1] || key == columns[b]@[row] || key == columns[b]@[row + 1]
        }),
    decreases count,
{
    if place < count - 1 {
        strip_cells_come_by_edge(
            vertices,
            columns,
            boundary,
            edges,
            turned,
            leaves,
            place,
            count - 1,
            row,
            a,
            b,
        );
    } else {
        let start = patch_cells(vertices, columns, boundary, edges, turned, leaves, place).len();
        let all = patch_cells(vertices, columns, boundary, edges, turned, leaves, count);
        let edge = boundary[edges[place] as int];
        assert(vertices.index_of(edge.points[0]) == a) by {
            assert(vertices.contains(vertices[a]));
        }
        assert(vertices.index_of(edge.points[1]) == b) by {
            assert(vertices.contains(vertices[b]));
        }
        let own = side_cells(columns[a]@, columns[b]@, turned[place]@, leaves[edge.cell as int].leaf);
        assert(all[start + row] == own[row]);
        let points = own[row].points;
        let (low, high) = if turned[place]@[row] {
            (row + 1, row)
        } else {
            (row, row + 1)
        };
        assert(points[0] == columns[a]@[low]);
        assert(points[1] == columns[b]@[low]);
        assert(points[2] == columns[b]@[high]);
        assert(points[3] == columns[a]@[high]);
        assert forall|key: PointKey| #[trigger] points.contains(key) <==> key == columns[a]@[row]
            || key == columns[a]@[row + 1] || key == columns[b]@[row] || key
            == columns[b]@[row + 1] by {
            if points.contains(key) {
                let m = points.index_of(key);
                assert(points[m] == key);
                assert(m == 0 || m == 1 || m == 2 || m == 3);
            }
        }
    }
}

/// Along the edge of a strip that was noted last every row has one target: the one that the wall
/// had there, or the usual one where it had none. Edges across no row keep theirs.
pub proof fn rows_follow_the_wall(
    targets: Map<EdgeKey, Real>,
    vertices: Seq<PointKey>,
    columns: Seq<Vec<PointKey>>,
    boundary: Seq<BoundaryEdge>,
    edges: Seq<usize>,
    usual: Real,
    count: int,
    a: int,
    b: int,
    row: int,
    other: EdgeKey,
)
    requires
        0 < count <= edges.len(),
        vertices.no_duplicates(),
        0 <= a < vertices.len(),
        0 <= b < vertices.len(),
        vertices[a] == boundary[edges[count - 1] as int].points[0],
        vertices[b] == boundary[edges[count - 1] as int].points[1],
        0 <= row < columns[a]@.len(),
        columns[a]@.len() == columns[b]@.len(),
    ensures
        ({
            let before = patch_targets(
                targets,
                vertices,
                columns,
                boundary,
                edges,
                usual,
                count - 1,
            );
            let after = patch_targets(targets, vertices, columns, boundary, edges, usual, count);
            let wall = edge_key(columns[a]@[0], columns[b]@[0]);
            let across = edge_key(columns[a]@[row], columns[b]@[row]);
            &&& after.dom().contains(across)
            &&& before.dom().contains(wall) ==> after[across] == before[wall]
            &&& !before.dom().contains(wall) ==> after[across] == usual
            &&& (forall|r: int|
                0 <= r < columns[a]@.len() ==> #[trigger] rung(columns[a]@, columns[b]@, r) != other)
                ==> after.dom().contains(other) == before.dom().contains(other) && after[other]
                == before[other]
        }),
{
    let before = patch_targets(targets, vertices, columns, boundary, edges, usual, count - 1);
    let after = patch_targets(targets, vertices, columns, boundary, edges, usual, count);
    let edge = boundary[edges[count - 1] as int];
    assert(vertices.index_of(edge.points[0]) == a) by {
        assert(vertices.contains(vertices[a]));
    }
    assert(vertices.index_of(edge.points[1]) == b) by {
        assert(vertices.contains(vertices[b]));
    }
    let from = columns[a]@;
    let to = columns[b]@;
    let wall = edge_key(from[0], to[0]);
    let size = if before.dom().contains(wall) {
        before[wall]
    } else {
        usual
    };
    let rows = from.len() as int;
    assert(after == rows_targets(before, from, to, size, rows));
    let across = edge_key(from[row], to[row]);
    assert(rung(from, to, row) == across);
    rows_get_their_targets(before, from, to, size, rows, across);
    assert(exists|r: int| 0 <= r < rows && #[trigger] rung(from, to, r) == across);
    assert(after.dom().contains(across) && after[across] == size);
    rows_get_their_targets(before, from, to, size, rows, other);
}

} // verus!
