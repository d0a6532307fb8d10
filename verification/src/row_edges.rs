//! The rows of cells between two columns of points meet along whole edges.

use vstd::prelude::*;

#[allow(unused_imports)]
use crate::covering::{
    cells_join, joins, quad_joins, quad_runs, runs, side_runs, triangle_joins, triangle_runs,
};
#[allow(unused_imports)]
use crate::layers::{column_keys, column_targets, strip_polygon};
#[allow(unused_imports)]
use crate::laying::edge_cells;
#[allow(unused_imports)]
use crate::marching::{ring_without_repeats, without_repeats};
#[allow(unused_imports)]
use crate::quadtree::Leaf;
#[allow(unused_imports)]
use crate::number::Real;
#[allow(unused_imports)]
use crate::strips::{rows_targets, side_cells, step_key, strip_column, strip_quad, with_rows};
#[allow(unused_imports)]
use crate::topology::{edge_key, edge_key_tells_ends, EdgeKey, Point, PointKey};

verus! {

proof fn same_start_same_runs<K>(s: Seq<K>, t: Seq<K>, p: K, q: K, count: int)
    requires
        0 <= count < s.len(),
        count < t.len(),
        forall|i: int| 0 <= i <= count ==> #[trigger] s[i] == t[i],
    ensures
        side_runs(s, p, q, count) == side_runs(t, p, q, count),
    decreases count,
{
    if count > 0 {
        same_start_same_runs(s, t, p, q, count - 1);
        assert(s[count - 1] == t[count - 1]);
        assert(s[count] == t[count]);
    }
}

proof fn list_keeps_runs<K>(points: Seq<K>, p: K, q: K)
    requires
        points.len() > 0,
        p != q,
    ensures
        ({
            let list = without_repeats(points);
            &&& 0 < list.len() <= points.len()
            &&& list[0] == points[0]
            &&& list.last() == points.last()
            &&& side_runs(list, p, q, list.len() - 1) == side_runs(points, p, q, points.len() - 1)
        }),
    decreases points.len(),
{
    let list = without_repeats(points);
    let front = points.drop_last();
    let n = points.len() as int;
    if n == 1 {
        assert(without_repeats(front) =~= Seq::empty());
        assert(list =~= seq![points[0]]);
    } else {
        list_keeps_runs(front, p, q);
        let rest = without_repeats(front);
        same_start_same_runs(front, points, p, q, n - 2);
        assert(front.last() == points[n - 2]);
        if rest.last() != points.last() {
            assert(list =~= rest.push(points.last()));
            same_start_same_runs(rest, list, p, q, rest.len() - 1);
            assert(list[rest.len() - 1] == rest.last());
        }
    }
}

/// Dropping the points that repeat their predecessor keeps the sides between
/// different points: the ring walks from one to another as often as before.
pub proof fn dropping_repeats_keeps_sides<K>(points: Seq<K>, p: K, q: K)
    requires
        p != q,
    ensures
        runs(ring_without_repeats(points), p, q) == runs(points, p, q),
{
    if points.len() == 0 {
        assert(without_repeats(points) =~= points);
    } else {
        list_keeps_runs(points, p, q);
        let list = without_repeats(points);
        let ring = ring_without_repeats(points);
        if list.len() > 1 && list[0] == list.last() {
            let n = list.len() as int;
            same_start_same_runs(ring, list, p, q, n - 2);
            assert(ring[n - 2] == list[n - 2]);
        }
    }
}

/// Dropping the points that repeat their predecessor loses no point and makes none.
pub proof fn dropping_repeats_keeps_points<K>(points: Seq<K>, key: K)
    ensures
        ring_without_repeats(points).contains(key) <==> points.contains(key),
        without_repeats(points).contains(key) <==> points.contains(key),
{
    list_keeps_points(points, key);
    let list = without_repeats(points);
    let ring = ring_without_repeats(points);
    if list.contains(key) {
        let k = list.index_of(key);
        assert(list[k] == key);
        if k < ring.len() {
            assert(ring[k] == key);
        } else {
            assert(ring[0] == list[0]);
        }
    }
    if ring.contains(key) {
        let k = ring.index_of(key);
        assert(list[k] == key);
    }
}

proof fn list_keeps_points<K>(points: Seq<K>, key: K)
    ensures
        without_repeats(points).contains(key) <==> points.contains(key),
    decreases points.len(),
{
    if points.len() > 0 {
        let front = points.drop_last();
        let rest = without_repeats(front);
        let list = without_repeats(points);
        list_keeps_points(front, key);
        if points.contains(key) {
            let k = points.index_of(key);
            if k < front.len() {
                assert(front[k] == key);
                let m = rest.index_of(key);
                assert(list[m] == key);
            } else {
                assert(list.last() == key);
                assert(list[list.len() - 1] == key);
            }
        }
        if list.contains(key) {
            let k = list.index_of(key);
            if k < rest.len() {
                assert(rest[k] == key);
                let m = front.index_of(key);
                assert(points[m] == key);
            } else {
                assert(points[points.len() - 1] == key);
            }
        }
    }
}

/// A ring in which no point repeats its predecessor stays as it is.
pub proof fn ring_without_repeats_stays<K>(points: Seq<K>)
    requires
        forall|i: int| 0 <= i < points.len() - 1 ==> #[trigger] points[i] != points[i + 1],
        points.len() > 1 ==> points[0] != points.last(),
    ensures
        ring_without_repeats(points) == points,
{
    list_stays(points);
}

proof fn list_stays<K>(points: Seq<K>)
    requires
        forall|i: int| 0 <= i < points.len() - 1 ==> #[trigger] points[i] != points[i + 1],
    ensures
        without_repeats(points) == points,
    decreases points.len(),
{
    if points.len() > 0 {
        let front = points.drop_last();
        let n = front.len() as int;
        assert forall|i: int| 0 <= i < n - 1 implies #[trigger] front[i] != front[i + 1] by {
            assert(points[i] != points[i + 1]);
        }
        list_stays(front);
        if n > 0 {
            assert(points[n - 1] != points[n - 1 + 1]);
        }
        assert(front.push(points.last()) =~= points);
    } else {
        assert(without_repeats(points) =~= points);
    }
}

/// Two columns of as many points, none in both. At an open end of a patch one of them
/// may be a single point over and over; the other's points are all different.
pub open spec fn columns_apart(from: Seq<PointKey>, to: Seq<PointKey>, layers: int) -> bool {
    &&& from.len() == layers + 1
    &&& to.len() == layers + 1
    &&& forall|i: int, j: int|
        0 <= i <= layers && 0 <= j <= layers ==> (#[trigger] from[i]) != (#[trigger] to[j])
    &&& rising_or_one(from)
    &&& rising_or_one(to)
    &&& from.no_duplicates() || to.no_duplicates()
}

/// The points of a column are all different, or all the same.
pub open spec fn rising_or_one(column: Seq<PointKey>) -> bool {
    ||| column.no_duplicates()
    ||| forall|i: int| 0 <= i < column.len() ==> (#[trigger] column[i]) == column[0]
}

/// The cell of a row has the points of its own row and of the next one in both
/// columns, each once, and no others.
pub proof fn row_has_its_points(
    from: Seq<PointKey>,
    to: Seq<PointKey>,
    layers: int,
    row: int,
    key: PointKey,
)
    requires
        columns_apart(from, to, layers),
        0 <= row < layers,
    ensures
        strip_polygon(from, to, row).contains(key) <==> key == from[row] || key == from[row + 1]
            || key == to[row] || key == to[row + 1],
        strip_polygon(from, to, row).no_duplicates(),
        strip_polygon(from, to, row).len() == (if from.no_duplicates() && to.no_duplicates() {
            4int
        } else {
            3
        }),
{
    row_ring(from, to, layers, row);
    let ring = strip_polygon(from, to, row);
    let four = seq![from[row], to[row], to[row + 1], from[row + 1]];
    dropping_repeats_keeps_points(four, key);
    assert(four[0] == from[row] && four[1] == to[row] && four[2] == to[row + 1] && four[3] == from[row
        + 1]);
    if four.contains(key) {
        let k = four.index_of(key);
        assert(k == 0 || k == 1 || k == 2 || k == 3);
    }
}

/// The ring of a row, written out.
proof fn row_ring(from: Seq<PointKey>, to: Seq<PointKey>, layers: int, row: int)
    requires
        columns_apart(from, to, layers),
        0 <= row < layers,
    ensures
        strip_polygon(from, to, row) == (if from[row] == from[row + 1] {
            seq![from[row], to[row], to[row + 1]]
        } else if to[row] == to[row + 1] {
            seq![from[row], to[row], from[row + 1]]
        } else {
            seq![from[row], to[row], to[row + 1], from[row + 1]]
        }),
        (from[row] == from[row + 1]) == !from.no_duplicates(),
        (to[row] == to[row + 1]) == !to.no_duplicates(),
{
    let a = from[row];
    let b = to[row];
    let c = to[row + 1];
    let d = from[row + 1];
    let four = seq![a, b, c, d];
    assert(a != b && a != c && d != b && d != c);
    if !from.no_duplicates() {
        assert(from[row] == from[0] && from[row + 1] == from[0]);
    }
    if !to.no_duplicates() {
        assert(to[row] == to[0] && to[row + 1] == to[0]);
    }
    reveal_with_fuel(without_repeats, 5);
    assert(four.drop_last() =~= seq![a, b, c]);
    assert(seq![a, b, c].drop_last() =~= seq![a, b]);
    assert(seq![a, b].drop_last() =~= seq![a]);
    assert(seq![a].drop_last() =~= Seq::<PointKey>::empty());
    assert(without_repeats(seq![a]) =~= seq![a]);
    assert(without_repeats(seq![a, b]) =~= seq![a, b]);
    if b == c {
        assert(without_repeats(seq![a, b, c]) =~= seq![a, b]);
        assert(without_repeats(four) =~= seq![a, b, d]);
    } else {
        assert(without_repeats(seq![a, b, c]) =~= seq![a, b, c]);
        assert(without_repeats(four) =~= four);
        assert(four.drop_last() =~= seq![a, b, c]);
    }
}

/// Neighbouring rows meet along a whole edge: the edge that a row's cell has on its
/// inner side is the edge that the next row's cell has on its outer side, and the two
/// cells walk it in opposite ways. The cell of the first row lies along the outermost
/// edge, that of the last row along the innermost.
pub proof fn rows_share_edges(from: Seq<PointKey>, to: Seq<PointKey>, layers: int, row: int)
    requires
        columns_apart(from, to, layers),
        0 <= row < layers,
    ensures
        runs(strip_polygon(from, to, row), from[row], to[row]) == 1,
        runs(strip_polygon(from, to, row), to[row + 1], from[row + 1]) == 1,
        row + 1 < layers ==> runs(strip_polygon(from, to, row + 1), from[row + 1], to[row + 1])
            == runs(strip_polygon(from, to, row), to[row + 1], from[row + 1]),
        from[row] != from[row + 1] ==> runs(
            strip_polygon(from, to, row),
            from[row + 1],
            from[row],
        ) == 1,
        to[row] != to[row + 1] ==> runs(strip_polygon(from, to, row), to[row], to[row + 1]) == 1,
{
    row_runs(from, to, row, from[row], to[row]);
    row_runs(from, to, row, to[row + 1], from[row + 1]);
    if row + 1 < layers {
        row_runs(from, to, row + 1, from[row + 1], to[row + 1]);
    }
    if from[row] != from[row + 1] {
        row_runs(from, to, row, from[row + 1], from[row]);
    }
    if to[row] != to[row + 1] {
        row_runs(from, to, row, to[row], to[row + 1]);
    }
}

proof fn row_runs(from: Seq<PointKey>, to: Seq<PointKey>, row: int, p: PointKey, q: PointKey)
    requires
        p != q,
    ensures
        runs(strip_polygon(from, to, row), p, q) == (if from[row] == p && to[row] == q {
            1int
        } else {
            0
        }) + (if to[row] == p && to[row + 1] == q {
            1int
        } else {
            0
        }) + (if to[row + 1] == p && from[row + 1] == q {
            1int
        } else {
            0
        }) + (if from[row + 1] == p && from[row] == q {
            1int
        } else {
            0
        }),
{
    let four = seq![from[row], to[row], to[row + 1], from[row + 1]];
    dropping_repeats_keeps_sides(four, p, q);
    quad_runs(four, p, q);
}

/// The cells of the first rows, laid one after the other.
proof fn rows_join(
    from: Seq<PointKey>,
    to: Seq<PointKey>,
    layers: int,
    turned: Seq<bool>,
    leaf: Leaf,
    k: int,
    count: int,
)
    requires
        columns_apart(from, to, layers),
        turned.len() == layers,
        0 <= k <= layers,
        0 <= count <= layers,
    ensures
        cells_join(edge_cells(from, to, turned, leaf).take(count), from[k], to[k]) == (if k < count {
            1int
        } else {
            0
        }) + (if 0 < k <= count {
            1int
        } else {
            0
        }),
    decreases count,
{
    let all = edge_cells(from, to, turned, leaf);
    let cells = all.take(count);
    if count > 0 {
        rows_join(from, to, layers, turned, leaf, k, count - 1);
        assert(cells.drop_last() =~= all.take(count - 1));
        let row = count - 1;
        let polygon = strip_polygon(from, to, row);
        let p = from[k];
        let q = to[k];
        row_runs(from, to, row, p, q);
        row_runs(from, to, row, q, p);
        row_ring(from, to, layers, row);
        reversed_joins(polygon, p, q);
        assert(cells.last() == all[row]);
        assert(from[row] != q && from[row + 1] != q && to[row] != p && to[row + 1] != p);
        if from.no_duplicates() {
            assert((from[row] == p) == (row == k));
            assert((from[row + 1] == p) == (row + 1 == k));
            if row == k {
                assert(to[row] == q);
            }
            if row + 1 == k {
                assert(to[row + 1] == q);
            }
        } else {
            assert((to[row] == q) == (row == k));
            assert((to[row + 1] == q) == (row + 1 == k));
            if row == k {
                assert(from[row] == p);
            }
            if row + 1 == k {
                assert(from[row + 1] == p);
            }
        }
    }
}

proof fn reversed_joins(ring: Seq<PointKey>, p: PointKey, q: PointKey)
    requires
        3 <= ring.len() <= 4,
        p != q,
    ensures
        joins(ring.reverse(), p, q) == joins(ring, p, q),
{
    let back = ring.reverse();
    if ring.len() == 3 {
        triangle_joins(ring, p, q);
        triangle_joins(back, p, q);
    } else {
        quad_joins(ring, p, q);
        quad_joins(back, p, q);
    }
}

/// Every edge across the layers between two rows is in exactly two of the cells laid
/// between two columns; the outermost and the innermost are in one each.
pub proof fn edges_between_rows_are_shared(
    from: Seq<PointKey>,
    to: Seq<PointKey>,
    layers: int,
    turned: Seq<bool>,
    leaf: Leaf,
    k: int,
)
    requires
        columns_apart(from, to, layers),
        turned.len() == layers,
        0 < layers,
        0 <= k <= layers,
    ensures
        edge_cells(from, to, turned, leaf).len() == layers,
        cells_join(edge_cells(from, to, turned, leaf), from[k], to[k]) == (if 0 < k < layers {
            2int
        } else {
            1
        }),
{
    rows_join(from, to, layers, turned, leaf, k, layers);
    assert(edge_cells(from, to, turned, leaf).take(layers) =~= edge_cells(from, to, turned, leaf));
}

/// The cells laid between two columns are protected and take the leaf that they are
/// given. A cell that was found to be clockwise is walked the other way.
pub proof fn laid_cells_are_turned(
    from: Seq<PointKey>,
    to: Seq<PointKey>,
    layers: int,
    turned: Seq<bool>,
    leaf: Leaf,
    row: int,
    p: PointKey,
    q: PointKey,
)
    requires
        columns_apart(from, to, layers),
        turned.len() == layers,
        0 <= row < layers,
    ensures
        ({
            let cell = edge_cells(from, to, turned, leaf)[row];
            let polygon = strip_polygon(from, to, row);
            &&& cell.protected
            &&& cell.leaf == leaf
            &&& runs(cell.points, p, q) == if turned[row] {
                runs(polygon, q, p)
            } else {
                runs(polygon, p, q)
            }
        }),
{
    row_ring(from, to, layers, row);
    let ring = strip_polygon(from, to, row);
    let back = ring.reverse();
    if ring.len() == 3 {
        triangle_runs(ring, q, p);
        triangle_runs(back, p, q);
    } else {
        quad_runs(ring, q, p);
        quad_runs(back, p, q);
    }
}

/// The column over a point of the wall ends in that point. Away from the ends of a
/// patch its points are all different and new; at an end it is that one point.
pub proof fn column_has_its_rows(vertex: PointKey, end: bool, layers: usize, next: int)
    requires
        0 <= next,
        next + layers <= u64::MAX,
        forall|n: u64| next <= n < next + layers ==> vertex != PointKey::Inserted(n),
    ensures
        column_keys(vertex, end, layers, next).len() == layers + 1,
        column_keys(vertex, end, layers, next)[layers as int] == vertex,
        rising_or_one(column_keys(vertex, end, layers, next)),
        layers > 0 ==> column_keys(vertex, end, layers, next).no_duplicates() == !end,
        !end ==> forall|row: int|
            0 <= row < layers ==> (#[trigger] column_keys(vertex, end, layers, next)[row])
                == PointKey::Inserted((next + row) as u64),
{
    let column = column_keys(vertex, end, layers, next);
    if end {
        if layers > 0 {
            assert(column[0] == column[1]);
        }
    } else {
        assert forall|i: int, j: int|
            0 <= i < column.len() && 0 <= j < column.len() && i != j implies column[i] != column[j] by {
            if i < layers {
                assert(column[i] == PointKey::Inserted((next + i) as u64));
                let n = (next + i) as u64;
                assert(next <= n < next + layers);
            }
            if j < layers {
                assert(column[j] == PointKey::Inserted((next + j) as u64));
                let n = (next + j) as u64;
                assert(next <= n < next + layers);
            }
        }
    }
}

/// The quads between two columns of a strip meet along whole edges: the edge between
/// two rows is in two of them, the wall's edge and the front edge in one each. A quad
/// has the points of its two rows, and one that was found to be clockwise is walked
/// the other way.
pub proof fn strip_quads_share_edges(
    a: Seq<PointKey>,
    b: Seq<PointKey>,
    layers: int,
    turned: Seq<bool>,
    leaf: Leaf,
    k: int,
)
    requires
        columns_apart(a, b, layers),
        a.no_duplicates(),
        b.no_duplicates(),
        turned.len() == layers,
        0 < layers,
        0 <= k <= layers,
    ensures
        side_cells(a, b, turned, leaf).len() == layers,
        cells_join(side_cells(a, b, turned, leaf), a[k], b[k]) == (if 0 < k < layers {
            2int
        } else {
            1
        }),
        k < layers ==> {
            let cell = side_cells(a, b, turned, leaf)[k];
            let quad = strip_quad(a, b, k, false);
            &&& cell.leaf == leaf
            &&& cell.protected
            &&& cell.points == strip_quad(a, b, k, turned[k])
            &&& runs(quad, a[k], b[k]) == 1
            &&& runs(quad, b[k], b[k + 1]) == 1
            &&& runs(quad, b[k + 1], a[k + 1]) == 1
            &&& runs(quad, a[k + 1], a[k]) == 1
            &&& quad.len() == 4
        },
{
    quads_join(a, b, layers, turned, leaf, k, layers);
    assert(side_cells(a, b, turned, leaf).take(layers) =~= side_cells(a, b, turned, leaf));
    if k < layers {
        let quad = strip_quad(a, b, k, false);
        quad_runs(quad, a[k], b[k]);
        quad_runs(quad, b[k], b[k + 1]);
        quad_runs(quad, b[k + 1], a[k + 1]);
        quad_runs(quad, a[k + 1], a[k]);
    }
}

/// A quad that is turned round has the same points and is walked the other way.
pub proof fn turned_quad_is_reversed(
    a: Seq<PointKey>,
    b: Seq<PointKey>,
    row: int,
    p: PointKey,
    q: PointKey,
)
    ensures
        strip_quad(a, b, row, true).len() == 4,
        runs(strip_quad(a, b, row, true), p, q) == runs(strip_quad(a, b, row, false), q, p),
{
    quad_runs(strip_quad(a, b, row, true), p, q);
    quad_runs(strip_quad(a, b, row, false), q, p);
}

proof fn quads_join(
    a: Seq<PointKey>,
    b: Seq<PointKey>,
    layers: int,
    turned: Seq<bool>,
    leaf: Leaf,
    k: int,
    count: int,
)
    requires
        columns_apart(a, b, layers),
        a.no_duplicates(),
        b.no_duplicates(),
        turned.len() == layers,
        0 <= k <= layers,
        0 <= count <= layers,
    ensures
        cells_join(side_cells(a, b, turned, leaf).take(count), a[k], b[k]) == (if k < count {
            1int
        } else {
            0
        }) + (if 0 < k <= count {
            1int
        } else {
            0
        }),
    decreases count,
{
    let all = side_cells(a, b, turned, leaf);
    let cells = all.take(count);
    if count > 0 {
        quads_join(a, b, layers, turned, leaf, k, count - 1);
        assert(cells.drop_last() =~= all.take(count - 1));
        let row = count - 1;
        let quad = strip_quad(a, b, row, turned[row]);
        quad_joins(quad, a[k], b[k]);
        assert(cells.last() == all[row]);
        assert(a[row] != b[k] && a[row + 1] != b[k] && b[row] != a[k] && b[row + 1] != a[k]);
        assert((a[row] == a[k]) == (row == k));
        assert((a[row + 1] == a[k]) == (row + 1 == k));
        assert((b[row] == b[k]) == (row == k));
        assert((b[row + 1] == b[k]) == (row + 1 == k));
    }
}

/// The column of a strip starts at the wall and goes on with new names, one a row.
pub proof fn strip_column_has_its_rows(vertex: PointKey, layers: usize, first: int, row: int)
    requires
        0 <= first,
        first + layers <= u64::MAX,
        0 <= row <= layers,
    ensures
        strip_column(vertex, layers, first).len() == layers + 1,
        strip_column(vertex, layers, first)[0] == vertex,
        row > 0 ==> strip_column(vertex, layers, first)[row] == PointKey::Inserted(
            (first + row - 1) as u64,
        ),
{
}

/// Along every row of two columns the targets hold the size; all others stay.
pub proof fn rows_get_their_targets(
    targets: Map<EdgeKey, Real>,
    a: Seq<PointKey>,
    b: Seq<PointKey>,
    size: Real,
    rows: int,
    edge: EdgeKey,
)
    requires
        0 <= rows,
    ensures
        (exists|row: int| 0 <= row < rows && #[trigger] rung(a, b, row) == edge) ==> rows_targets(
            targets,
            a,
            b,
            size,
            rows,
        ).dom().contains(edge) && rows_targets(targets, a, b, size, rows)[edge] == size,
        !(exists|row: int| 0 <= row < rows && #[trigger] rung(a, b, row) == edge) ==> {
            &&& rows_targets(targets, a, b, size, rows).dom().contains(edge)
                == targets.dom().contains(edge)
            &&& rows_targets(targets, a, b, size, rows)[edge] == targets[edge]
        },
    decreases rows,
{
    if rows > 0 {
        rows_get_their_targets(targets, a, b, size, rows - 1, edge);
        if edge == rung(a, b, rows - 1) {
            assert(rung(a, b, rows - 1) == edge);
        } else if exists|row: int| 0 <= row < rows && #[trigger] rung(a, b, row) == edge {
            let row = choose|row: int| 0 <= row < rows && #[trigger] rung(a, b, row) == edge;
            assert(row < rows - 1);
            assert(rung(a, b, row) == edge);
        }
    }
}

/// The edge across a row of two columns.
pub open spec fn rung(a: Seq<PointKey>, b: Seq<PointKey>, row: int) -> EdgeKey {
    edge_key(a[row], b[row])
}

/// Every step of a column has its height as target; all other edges keep theirs.
pub proof fn steps_get_their_targets(
    targets: Map<EdgeKey, Real>,
    column: Seq<PointKey>,
    heights: Seq<Real>,
    rows: int,
)
    requires
        column.no_duplicates(),
        0 <= rows < column.len(),
    ensures
        forall|row: int|
            0 <= row < rows ==> column_targets(targets, column, heights, rows).dom().contains(
                #[trigger] step_key(column, row),
            ) && column_targets(targets, column, heights, rows)[step_key(column, row)]
                == heights[row],
        forall|edge: EdgeKey|
            (forall|row: int| 0 <= row < rows ==> #[trigger] step_key(column, row) != edge) ==> {
                &&& #[trigger] column_targets(targets, column, heights, rows).dom().contains(edge)
                    == targets.dom().contains(edge)
                &&& column_targets(targets, column, heights, rows)[edge] == targets[edge]
            },
    decreases rows,
{
    if rows > 0 {
        steps_get_their_targets(targets, column, heights, rows - 1);
        let last = step_key(column, rows - 1);
        assert forall|row: int| 0 <= row < rows - 1 implies #[trigger] step_key(column, row) != last by {
            edge_key_tells_ends(column[row], column[row + 1], column[rows - 1], column[rows]);
            assert(column[row] != column[rows - 1] && column[row] != column[rows]);
        }
        assert(column[rows - 1] != column[rows]);
        let now = column_targets(targets, column, heights, rows);
        let before = column_targets(targets, column, heights, rows - 1);
        assert forall|edge: EdgeKey|
            (forall|row: int| 0 <= row < rows ==> #[trigger] step_key(column, row) != edge) implies {
            &&& #[trigger] now.dom().contains(edge) == targets.dom().contains(edge)
            &&& now[edge] == targets[edge]
        } by {
            assert(step_key(column, rows - 1) != edge);
            assert(before.dom().contains(edge) == targets.dom().contains(edge));
        }
    }
}

/// A column's points stand at their sites, row by row. Only the wall's is marked: it
/// lies on the boundary and is held. All other points stay.
pub proof fn rows_stand_at_sites(
    points: Map<PointKey, Point>,
    column: Seq<PointKey>,
    sites: Seq<Point>,
    rows: int,
)
    requires
        column.no_duplicates(),
        0 <= rows <= column.len(),
    ensures
        ({
            let after = with_rows(points, column, sites, rows);
            &&& forall|row: int|
                0 <= row < rows ==> after.dom().contains(#[trigger] column[row])
                    && after[column[row]].uv == sites[row].uv && after[column[row]].world
                    == sites[row].world && after[column[row]].boundary == (row == 0
                    || sites[row].boundary) && after[column[row]].protected == (row == 0
                    || sites[row].protected)
            &&& forall|key: PointKey|
                !column.take(rows).contains(key) ==> #[trigger] after.dom().contains(key)
                    == points.dom().contains(key) && after[key] == points[key]
        }),
    decreases rows,
{
    if rows > 0 {
        rows_stand_at_sites(points, column, sites, rows - 1);
        let before = with_rows(points, column, sites, rows - 1);
        let after = with_rows(points, column, sites, rows);
        assert forall|row: int| 0 <= row < rows implies after.dom().contains(#[trigger] column[row])
            && after[column[row]].uv == sites[row].uv && after[column[row]].world
            == sites[row].world && after[column[row]].boundary == (row == 0
            || sites[row].boundary) && after[column[row]].protected == (row == 0
            || sites[row].protected) by {
            if row < rows - 1 {
                assert(column[row] != column[rows - 1]);
                assert(before.dom().contains(column[row]));
            }
        }
        assert forall|key: PointKey| !column.take(rows).contains(key) implies #[trigger] after.dom().contains(
            key,
        ) == points.dom().contains(key) && after[key] == points[key] by {
            assert(column.take(rows)[rows - 1] == column[rows - 1]);
            if column.take(rows - 1).contains(key) {
                let k = column.take(rows - 1).index_of(key);
                assert(column.take(rows)[k] == key);
            }
            assert(before.dom().contains(key) == points.dom().contains(key));
        }
    } else {
        assert(column.take(0) =~= Seq::empty());
    }
}

} // verus!
