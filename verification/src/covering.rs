//! What the edits of a 2D mesh keep: the cells cover the same after an edit as
//! before it. Stated over how often cells join two points by a side.

use vstd::prelude::*;

#[allow(unused_imports)]
use crate::edits::{
    can_insert, collapse_free, collapse_plan, collapsed, cut_cells, flip_plan, flipped,
    free_triangle, inserted_cells, merge_plan, merged_points, quad_cut, renamed, second_cut_wins,
    split_cells, split_once, split_plan, QuadCuts,
};
#[allow(unused_imports)]
use crate::sorted::Key;
#[allow(unused_imports)]
use crate::topology::{
    cells_on_edge, cells_on_edge_places, holds_both, other_from, other_from_is_there, other_point,
    turned, Candidate, CellView, PointKey,
};
#[allow(unused_imports)]
use crate::transitions::{transition_cells, transition_plan};

verus! {

/// How many of the first sides of a ring run from one point to the other.
pub open spec fn side_runs<K>(ring: Seq<K>, from: K, to: K, count: int) -> nat
    decreases count,
{
    if count <= 0 {
        0
    } else {
        let end = if count == ring.len() {
            ring[0]
        } else {
            ring[count]
        };
        side_runs(ring, from, to, count - 1) + if ring[count - 1] == from && end == to {
            1nat
        } else {
            0nat
        }
    }
}

/// How many sides of a ring run from one point to the other.
pub open spec fn runs<K>(ring: Seq<K>, from: K, to: K) -> nat {
    side_runs(ring, from, to, ring.len() as int)
}

/// How many sides of a ring join two points.
pub open spec fn joins<K>(ring: Seq<K>, a: K, b: K) -> nat {
    runs(ring, a, b) + runs(ring, b, a)
}

/// How many sides of all cells join two points.
pub open spec fn cells_join(cells: Seq<CellView>, a: PointKey, b: PointKey) -> nat
    decreases cells.len(),
{
    if cells.len() == 0 {
        0
    } else {
        cells_join(cells.drop_last(), a, b) + joins(cells.last().points, a, b)
    }
}

/// 1 where the two pairs are the same two points, 0 elsewhere.
pub open spec fn same_ends<K>(a: K, b: K, c: K, d: K) -> nat {
    if (a == c && b == d) || (a == d && b == c) {
        1
    } else {
        0
    }
}

pub(crate) proof fn triangle_runs<K>(ring: Seq<K>, p: K, q: K)
    requires
        ring.len() == 3,
    ensures
        runs(ring, p, q) == (if ring[0] == p && ring[1] == q {
            1int
        } else {
            0
        }) + (if ring[1] == p && ring[2] == q {
            1int
        } else {
            0
        }) + (if ring[2] == p && ring[0] == q {
            1int
        } else {
            0
        }),
{
    reveal_with_fuel(side_runs, 4);
}

pub(crate) proof fn quad_runs<K>(ring: Seq<K>, p: K, q: K)
    requires
        ring.len() == 4,
    ensures
        runs(ring, p, q) == (if ring[0] == p && ring[1] == q {
            1int
        } else {
            0
        }) + (if ring[1] == p && ring[2] == q {
            1int
        } else {
            0
        }) + (if ring[2] == p && ring[3] == q {
            1int
        } else {
            0
        }) + (if ring[3] == p && ring[0] == q {
            1int
        } else {
            0
        }),
{
    reveal_with_fuel(side_runs, 5);
}

/// A triangle joins its three pairs of corners, each by one side.
pub(crate) proof fn triangle_joins<K>(ring: Seq<K>, p: K, q: K)
    requires
        ring.len() == 3,
        p != q,
    ensures
        joins(ring, p, q) == same_ends(p, q, ring[0], ring[1]) + same_ends(p, q, ring[1], ring[2])
            + same_ends(p, q, ring[2], ring[0]),
{
    triangle_runs(ring, p, q);
    triangle_runs(ring, q, p);
}

pub(crate) proof fn quad_joins<K>(ring: Seq<K>, p: K, q: K)
    requires
        ring.len() == 4,
        p != q,
    ensures
        joins(ring, p, q) == same_ends(p, q, ring[0], ring[1]) + same_ends(p, q, ring[1], ring[2])
            + same_ends(p, q, ring[2], ring[3]) + same_ends(p, q, ring[3], ring[0]),
{
    quad_runs(ring, p, q);
    quad_runs(ring, q, p);
}

/// A triangle of three given corners, in whatever order.
pub(crate) proof fn corners_join(ring: Seq<PointKey>, a: PointKey, b: PointKey, c: PointKey, p: PointKey, q: PointKey)
    requires
        ring.len() == 3,
        ring.contains(a),
        ring.contains(b),
        ring.contains(c),
        a != b,
        b != c,
        c != a,
        p != q,
    ensures
        joins(ring, p, q) == same_ends(p, q, a, b) + same_ends(p, q, b, c) + same_ends(p, q, c, a),
{
    triangle_joins(ring, p, q);
    let i = ring.index_of(a);
    let j = ring.index_of(b);
    let k = ring.index_of(c);
    assert(ring[i] == a && ring[j] == b && ring[k] == c);
}

/// Turning a triangle round walks its sides the other way.
pub proof fn turning_reverses(triangle: Seq<PointKey>, p: PointKey, q: PointKey)
    requires
        triangle.len() == 3,
    ensures
        turned(triangle, false) == triangle,
        turned(triangle, true).len() == 3,
        runs(turned(triangle, true), p, q) == runs(triangle, q, p),
{
    triangle_runs(turned(triangle, true), p, q);
    triangle_runs(triangle, q, p);
}

proof fn turned_joins(triangle: Seq<PointKey>, reversed: bool, p: PointKey, q: PointKey)
    requires
        triangle.len() == 3,
    ensures
        joins(turned(triangle, reversed), p, q) == joins(triangle, p, q),
{
    turning_reverses(triangle, p, q);
    turning_reverses(triangle, q, p);
}

proof fn join_of_update(cells: Seq<CellView>, place: int, cell: CellView, p: PointKey, q: PointKey)
    requires
        0 <= place < cells.len(),
    ensures
        cells_join(cells.update(place, cell), p, q) + joins(cells[place].points, p, q)
            == cells_join(cells, p, q) + joins(cell.points, p, q),
    decreases cells.len(),
{
    let front = cells.drop_last();
    let after = cells.update(place, cell);
    if place == cells.len() - 1 {
        assert(after.drop_last() =~= front);
    } else {
        join_of_update(front, place, cell, p, q);
        assert(after.drop_last() =~= front.update(place, cell));
        assert(after.last() == cells.last());
    }
}

proof fn join_of_push(cells: Seq<CellView>, cell: CellView, p: PointKey, q: PointKey)
    ensures
        cells_join(cells.push(cell), p, q) == cells_join(cells, p, q) + joins(cell.points, p, q),
{
    assert(cells.push(cell).drop_last() =~= cells);
}

proof fn join_of_remove(cells: Seq<CellView>, place: int, p: PointKey, q: PointKey)
    requires
        0 <= place < cells.len(),
    ensures
        cells_join(cells.remove(place), p, q) + joins(cells[place].points, p, q) == cells_join(
            cells,
            p,
            q,
        ),
    decreases cells.len(),
{
    let front = cells.drop_last();
    let after = cells.remove(place);
    if place == cells.len() - 1 {
        assert(after =~= front);
    } else {
        join_of_remove(front, place, p, q);
        assert(after.drop_last() =~= front.remove(place));
        assert(after.last() == cells.last());
    }
}

/// The places are those of the cells that hold both points.
pub open spec fn beside(cells: Seq<CellView>, a: PointKey, b: PointKey, places: Seq<int>) -> bool {
    &&& forall|i: int, j: int|
        0 <= i < j < places.len() ==> (#[trigger] places[i]) < (#[trigger] places[j])
    &&& forall|i: int|
        0 <= i < places.len() ==> 0 <= (#[trigger] places[i]) < cells.len()
    &&& forall|place: int|
        0 <= place < cells.len() ==> (places.contains(place) <==> (
        #[trigger] cells[place]).points.contains(a) && cells[place].points.contains(b))
}

/// The search for the cells on an edge finds those that hold both its ends.
pub proof fn edge_search_is_exact(
    cells: Seq<CellView>,
    a: PointKey,
    b: PointKey,
    places: Seq<int>,
)
    requires
        cells.len() <= usize::MAX,
        beside(cells, a, b, places),
    ensures
        cells_on_edge(cells, a, b).len() == places.len(),
        forall|i: int|
            0 <= i < places.len() ==> (#[trigger] cells_on_edge(cells, a, b)[i]) == places[i],
{
    cells_on_edge_places(cells, a, b);
    let found = cells_on_edge(cells, a, b);
    let list = found.map_values(|place: usize| place as int);
    assert forall|place: int| list.contains(place) == places.contains(place) by {
        if list.contains(place) {
            let k = list.index_of(place);
            assert(found[k] == place);
            assert(holds_both(cells[place], a, b));
        }
        if places.contains(place) {
            let k = places.index_of(place);
            assert(places[k] == place);
            assert(holds_both(cells[place], a, b));
            assert(found.contains(place as usize));
            let m = found.index_of(place as usize);
            assert(list[m] == place);
        }
    }
    rising_lists_agree(list, places);
    assert forall|i: int| 0 <= i < places.len() implies (#[trigger] found[i]) == places[i] by {
        assert(list[i] == places[i]);
    }
}

/// Two rising lists of the same numbers are one list.
proof fn rising_lists_agree(a: Seq<int>, b: Seq<int>)
    requires
        forall|i: int, j: int| 0 <= i < j < a.len() ==> (#[trigger] a[i]) < (#[trigger] a[j]),
        forall|i: int, j: int| 0 <= i < j < b.len() ==> (#[trigger] b[i]) < (#[trigger] b[j]),
        forall|n: int| a.contains(n) == b.contains(n),
    ensures
        a == b,
    decreases a.len(),
{
    if a.len() == 0 {
        if b.len() > 0 {
            assert(b.contains(b[0]));
            assert(a.contains(b[0]));
        }
        assert(a =~= b);
    } else {
        assert(a.contains(a.last()));
        assert(b.contains(a.last()));
        assert(b.contains(b.last()));
        assert(a.contains(b.last()));
        let i = a.index_of(b.last());
        let j = b.index_of(a.last());
        assert(a[i] == b.last() && b[j] == a.last());
        assert(a.last() == b.last());
        let x = a.drop_last();
        let y = b.drop_last();
        assert forall|n: int| x.contains(n) == y.contains(n) by {
            if x.contains(n) {
                let k = x.index_of(n);
                assert(a[k] == n);
                assert(a[k] < a[a.len() - 1]);
                assert(a.contains(n));
                let m = b.index_of(n);
                assert(b[m] == n);
                assert(y[m] == n);
            }
            if y.contains(n) {
                let k = y.index_of(n);
                assert(b[k] == n);
                assert(b[k] < b[b.len() - 1]);
                assert(b.contains(n));
                let m = a.index_of(n);
                assert(a[m] == n);
                assert(x[m] == n);
            }
        }
        rising_lists_agree(x, y);
        assert(a =~= x.push(a.last()));
        assert(b =~= y.push(b.last()));
    }
}

/// The search of a triangle for its third corner finds it.
pub proof fn third_corner(points: Seq<PointKey>, a: PointKey, b: PointKey, c: PointKey)
    requires
        points.len() == 3,
        points.contains(a),
        points.contains(b),
        points.contains(c),
        a != b,
        b != c,
        c != a,
    ensures
        other_point(points, a, b) == Some(c),
{
    reveal_with_fuel(other_from, 4);
    let i = points.index_of(a);
    let j = points.index_of(b);
    let k = points.index_of(c);
    assert(points[i] == a && points[j] == b && points[k] == c);
}

/// The third corner that is found is one, and no fourth is.
pub(crate) proof fn found_corner(points: Seq<PointKey>, a: PointKey, b: PointKey)
    requires
        points.len() == 3,
        points.contains(a),
        points.contains(b),
        a != b,
    ensures
        other_point(points, a, b) matches Some(c) ==> points.contains(c) && c != a && c != b,
{
    other_from_is_there(points, a, b, 0);
}

/// A triangle that edits may change.
pub open spec fn open_triangle(cell: CellView, a: PointKey, b: PointKey, c: PointKey) -> bool {
    &&& !cell.protected
    &&& cell.points.len() == 3
    &&& cell.points.contains(a)
    &&& cell.points.contains(b)
    &&& cell.points.contains(c)
}

/// An edge between two open triangles whose far corners no cell joins is flipped.
pub proof fn flip_is_found(
    cells: Seq<CellView>,
    a: PointKey,
    b: PointKey,
    c: PointKey,
    d: PointKey,
    first: int,
    second: int,
)
    requires
        cells.len() <= usize::MAX,
        a != b,
        c != a,
        c != b,
        d != a,
        d != b,
        c != d,
        0 <= first < second < cells.len(),
        beside(cells, a, b, seq![first, second]),
        open_triangle(cells[first], a, b, c),
        open_triangle(cells[second], a, b, d),
        beside(cells, c, d, Seq::empty()),
    ensures
        flip_plan(cells, a, b) == Some((first as usize, second as usize, c, d)),
{
    edge_search_is_exact(cells, a, b, seq![first, second]);
    edge_search_is_exact(cells, c, d, Seq::empty());
    third_corner(cells[first].points, a, b, c);
    third_corner(cells[second].points, a, b, d);
    let pair = cells_on_edge(cells, a, b);
    assert(pair[0] == seq![first, second][0] && pair[1] == seq![first, second][1]);
}

/// A flip keeps the cover: the two triangles lose the side that they shared and
/// share the other diagonal, and every other pair of points is joined as often as
/// before. No other cell changes, and the two keep their leaves.
pub proof fn flip_keeps_cover(
    cells: Seq<CellView>,
    a: PointKey,
    b: PointKey,
    clockwise: Seq<bool>,
    p: PointKey,
    q: PointKey,
)
    requires
        cells.len() <= usize::MAX,
        a != b,
        p != q,
        flip_plan(cells, a, b) is Some,
    ensures
        ({
            let plan = flip_plan(cells, a, b)->0;
            let after = flipped(cells, a, b, plan, clockwise);
            let (first, second, c, d) = plan;
            &&& first < second < cells.len()
            &&& open_triangle(cells[first as int], a, b, c)
            &&& open_triangle(cells[second as int], a, b, d)
            &&& c != d && c != a && c != b && d != a && d != b
            &&& after.len() == cells.len()
            &&& cells_join(after, p, q) + 2 * same_ends(p, q, a, b) == cells_join(cells, p, q) + 2
                * same_ends(p, q, c, d)
            &&& forall|i: int|
                0 <= i < cells.len() && i != first && i != second ==> after[i]
                    == #[trigger] cells[i]
            &&& open_triangle(after[first as int], c, d, a)
            &&& open_triangle(after[second as int], c, d, b)
            &&& after[first as int].leaf == cells[first as int].leaf
            &&& after[second as int].leaf == cells[second as int].leaf
        }),
{
    let plan = flip_plan(cells, a, b)->0;
    let (first, second, c, d) = plan;
    cells_on_edge_places(cells, a, b);
    let pair = cells_on_edge(cells, a, b);
    assert(pair[0] < pair[1]);
    assert(holds_both(cells[pair[0] as int], a, b));
    assert(holds_both(cells[pair[1] as int], a, b));
    found_corner(cells[first as int].points, a, b);
    found_corner(cells[second as int].points, a, b);
    let one = CellView { points: turned(seq![c, d, a], clockwise[0]), ..cells[first as int] };
    let two = CellView { points: turned(seq![d, c, b], clockwise[1]), ..cells[second as int] };
    let middle = cells.update(first as int, one);
    join_of_update(cells, first as int, one, p, q);
    join_of_update(middle, second as int, two, p, q);
    turned_joins(seq![c, d, a], clockwise[0], p, q);
    turned_joins(seq![d, c, b], clockwise[1], p, q);
    triangle_joins(seq![c, d, a], p, q);
    triangle_joins(seq![d, c, b], p, q);
    corners_join(cells[first as int].points, a, b, c, p, q);
    corners_join(cells[second as int].points, a, b, d, p, q);
    let after = flipped(cells, a, b, plan, clockwise);
    turned_holds(c, d, a, clockwise[0]);
    turned_holds(d, c, b, clockwise[1]);
}

proof fn turned_holds(a: PointKey, b: PointKey, c: PointKey, reversed: bool)
    ensures
        turned(seq![a, b, c], reversed).len() == 3,
        turned(seq![a, b, c], reversed).contains(a),
        turned(seq![a, b, c], reversed).contains(b),
        turned(seq![a, b, c], reversed).contains(c),
{
    let list = turned(seq![a, b, c], reversed);
    assert(list[0] == a);
    if reversed {
        assert(list[2] == b && list[1] == c);
    } else {
        assert(list[1] == b && list[2] == c);
    }
}

/// Two open triangles on an edge, with different far corners, are merged.
pub proof fn merge_is_found(
    cells: Seq<CellView>,
    a: PointKey,
    b: PointKey,
    c: PointKey,
    d: PointKey,
    first: int,
    second: int,
)
    requires
        cells.len() <= usize::MAX,
        a != b,
        c != a,
        c != b,
        d != a,
        d != b,
        c != d,
        0 <= first < second < cells.len(),
        beside(cells, a, b, seq![first, second]),
        open_triangle(cells[first], a, b, c),
        open_triangle(cells[second], a, b, d),
    ensures
        merge_plan(cells, a, b) == Some((first as usize, second as usize, (c, d))),
{
    edge_search_is_exact(cells, a, b, seq![first, second]);
    third_corner(cells[first].points, a, b, c);
    third_corner(cells[second].points, a, b, d);
    let pair = cells_on_edge(cells, a, b);
    assert(pair[0] == seq![first, second][0] && pair[1] == seq![first, second][1]);
}

/// A merge keeps the cover: one cell fewer, the shared side is gone, and every
/// other pair of points is joined as often as before. A quad that was found to be
/// clockwise is walked the other way.
pub proof fn merge_keeps_cover(
    cells: Seq<CellView>,
    a: PointKey,
    b: PointKey,
    clockwise: bool,
    protected: bool,
    p: PointKey,
    q: PointKey,
)
    requires
        cells.len() <= usize::MAX,
        a != b,
        p != q,
        merge_plan(cells, a, b) is Some,
    ensures
        ({
            let (first, second, corners) = merge_plan(cells, a, b)->0;
            let quad = merged_points(corners, a, b, clockwise);
            let leaf = cells[first as int].leaf;
            let after = cells.update(
                first as int,
                CellView { points: quad, leaf, protected },
            ).remove(second as int);
            &&& first < second < cells.len()
            &&& open_triangle(cells[first as int], a, b, corners.0)
            &&& open_triangle(cells[second as int], a, b, corners.1)
            &&& corners.0 != corners.1
            &&& quad.len() == 4
            &&& after.len() == cells.len() - 1
            &&& cells_join(after, p, q) + 2 * same_ends(p, q, a, b) == cells_join(cells, p, q)
            &&& runs(quad, p, q) == runs(merged_points(corners, a, b, !clockwise), q, p)
            &&& runs(merged_points(corners, a, b, false), corners.0, a) == 1
        }),
{
    let (first, second, corners) = merge_plan(cells, a, b)->0;
    let (c, d) = corners;
    cells_on_edge_places(cells, a, b);
    let pair = cells_on_edge(cells, a, b);
    assert(pair[0] < pair[1]);
    assert(holds_both(cells[pair[0] as int], a, b));
    assert(holds_both(cells[pair[1] as int], a, b));
    found_corner(cells[first as int].points, a, b);
    found_corner(cells[second as int].points, a, b);
    let quad = merged_points(corners, a, b, clockwise);
    let other = merged_points(corners, a, b, !clockwise);
    let leaf = cells[first as int].leaf;
    let cell = CellView { points: quad, leaf, protected };
    let middle = cells.update(first as int, cell);
    join_of_update(cells, first as int, cell, p, q);
    join_of_remove(middle, second as int, p, q);
    quad_joins(quad, p, q);
    quad_runs(quad, p, q);
    quad_runs(other, q, p);
    quad_runs(merged_points(corners, a, b, false), c, a);
    corners_join(cells[first as int].points, a, b, c, p, q);
    corners_join(cells[second as int].points, a, b, d, p, q);
}

/// The two triangles of a quad cover it: they walk its sides as the quad does, and
/// the diagonal between them once each way. The first way cuts from the first
/// corner to the third, the second way from the second to the fourth.
pub proof fn quad_cut_covers(quad: Seq<PointKey>, second_way: bool, p: PointKey, q: PointKey)
    requires
        quad.len() == 4,
        quad.no_duplicates(),
    ensures
        ({
            let (one, two) = quad_cut(quad, second_way);
            let (from, to) = if second_way {
                (quad[1], quad[3])
            } else {
                (quad[0], quad[2])
            };
            &&& one.len() == 3
            &&& two.len() == 3
            &&& runs(one, p, q) + runs(two, p, q) == runs(quad, p, q) + (if p == from && q == to {
                1nat
            } else {
                0nat
            }) + (if p == to && q == from {
                1nat
            } else {
                0nat
            })
            &&& one.contains(quad[0])
            &&& two.contains(quad[2])
            &&& !two.contains(if second_way {
                quad[0]
            } else {
                quad[1]
            })
        }),
{
    let (one, two) = quad_cut(quad, second_way);
    triangle_runs(one, p, q);
    triangle_runs(two, p, q);
    quad_runs(quad, p, q);
    assert(one[0] == quad[0]);
    if second_way {
        assert(two[1] == quad[2]);
    } else {
        assert(two[1] == quad[2]);
    }
}

/// Cutting a quad keeps the cover: one cell more, the diagonal is joined twice more,
/// and every other pair of points as often as before. The cut is the first one
/// unless the second is better, and never the worse of two that compare.
pub proof fn quad_split_keeps_cover(
    cells: Seq<CellView>,
    index: int,
    cuts: QuadCuts,
    p: PointKey,
    q: PointKey,
)
    requires
        0 <= index < cells.len(),
        cells[index].points.len() == 4,
        cells[index].points.no_duplicates(),
        p != q,
    ensures
        ({
            let quad = cells[index].points;
            let after = cut_cells(cells, index, cuts);
            let second = cuts.first_quality.lt(cuts.second_quality);
            &&& after.len() == cells.len() + 1
            &&& cuts.second_quality.le(cuts.first_quality) ==> cells_join(after, p, q)
                == cells_join(cells, p, q) + 2 * same_ends(p, q, quad[0], quad[2])
            &&& !cuts.second_quality.le(cuts.first_quality) ==> cells_join(after, p, q)
                == cells_join(cells, p, q) + 2 * same_ends(p, q, quad[1], quad[3])
            &&& forall|i: int|
                0 <= i < cells.len() && i != index ==> after[i] == #[trigger] cells[i]
            &&& after[index].leaf == cells[index].leaf
            &&& after.last().leaf == cells[index].leaf
            &&& !after[index].protected
            &&& !after.last().protected
        }),
{
    let quad = cells[index].points;
    let second = second_cut_wins(cuts);
    let (one, two) = quad_cut(quad, second);
    let flags = if second {
        (cuts.clockwise[2], cuts.clockwise[3])
    } else {
        (cuts.clockwise[0], cuts.clockwise[1])
    };
    let left = CellView { points: turned(one, flags.0), leaf: cells[index].leaf, protected: false };
    let right = CellView { points: turned(two, flags.1), leaf: cells[index].leaf, protected: false };
    join_of_update(cells, index, left, p, q);
    join_of_push(cells.update(index, left), right, p, q);
    turned_joins(one, flags.0, p, q);
    turned_joins(two, flags.1, p, q);
    triangle_joins(one, p, q);
    triangle_joins(two, p, q);
    quad_joins(quad, p, q);
}

/// A point put into a triangle keeps the cover: two cells more, every side of the
/// triangle stays, walked as before, and the new point is joined to each corner by
/// two sides that run opposite ways.
pub proof fn insertion_keeps_cover(
    cells: Seq<CellView>,
    index: int,
    key: PointKey,
    p: PointKey,
    q: PointKey,
)
    requires
        0 <= index < cells.len(),
        cells[index].points.len() == 3,
        cells[index].points.no_duplicates(),
        !cells[index].points.contains(key),
        p != q,
    ensures
        ({
            let old = cells[index].points;
            let after = inserted_cells(cells, index, key);
            let n = cells.len() as int;
            let spokes = same_ends(p, q, key, old[0]) + same_ends(p, q, key, old[1]) + same_ends(
                p,
                q,
                key,
                old[2],
            );
            &&& after.len() == n + 2
            &&& cells_join(after, p, q) == cells_join(cells, p, q) + 2 * spokes
            &&& runs(after[index].points, p, q) + runs(after[n].points, p, q) + runs(
                after[n + 1].points,
                p,
                q,
            ) == runs(old, p, q) + spokes
            &&& after[index].points.len() == 3
            &&& after[n].points.len() == 3
            &&& after[n + 1].points.len() == 3
            &&& forall|i: int| 0 <= i < n && i != index ==> after[i] == #[trigger] cells[i]
            &&& forall|i: int|
                0 <= i < after.len() && (i == index || i >= n) ==> (#[trigger] after[i]).leaf
                    == cells[index].leaf && !after[i].protected && after[i].points.contains(key)
        }),
{
    let old = cells[index].points;
    let leaf = cells[index].leaf;
    let one = CellView { points: seq![old[0], old[1], key], leaf, protected: false };
    let two = CellView { points: seq![old[1], old[2], key], leaf, protected: false };
    let three = CellView { points: seq![old[2], old[0], key], leaf, protected: false };
    let first = cells.update(index, one);
    let second = first.push(two);
    assert(old.contains(old[0]) && old.contains(old[1]) && old.contains(old[2]));
    join_of_update(cells, index, one, p, q);
    join_of_push(first, two, p, q);
    join_of_push(second, three, p, q);
    triangle_joins(one.points, p, q);
    triangle_joins(two.points, p, q);
    triangle_joins(three.points, p, q);
    triangle_joins(old, p, q);
    triangle_runs(one.points, p, q);
    triangle_runs(two.points, p, q);
    triangle_runs(three.points, p, q);
    triangle_runs(old, p, q);
    let after = inserted_cells(cells, index, key);
    let n = cells.len() as int;
    assert(after[index] == one && after[n] == two && after[n + 1] == three);
    assert(one.points[2] == key && two.points[2] == key && three.points[2] == key);
}

/// A point can be put into an open triangle, and into nothing else, as long as the
/// mesh stays within its limit.
pub proof fn insertion_is_allowed(candidate: Candidate, index: int, max_cells: u64)
    requires
        max_cells < usize::MAX,
        candidate.cells@.len() + 2 <= usize::MAX,
    ensures
        can_insert(candidate, index, max_cells) <==> {
            &&& 0 <= index < candidate.cells@.len()
            &&& candidate.cells@[index].points@.len() == 3
            &&& !candidate.cells@[index].protected
            &&& candidate.cells@.len() + 2 <= max_cells
        },
{
    if 0 <= index < candidate.cells@.len() {
        assert(candidate.cells_view()[index] == candidate.cells@[index]@);
    }
}

/// What splitting one triangle beside an edge does to how often two points are
/// joined.
proof fn one_split_joins(
    cells: Seq<CellView>,
    a: PointKey,
    b: PointKey,
    key: PointKey,
    step: (usize, PointKey),
    clockwise: (bool, bool),
    p: PointKey,
    q: PointKey,
)
    requires
        step.0 < cells.len(),
        open_triangle(cells[step.0 as int], a, b, step.1),
        a != b,
        step.1 != a,
        step.1 != b,
        key != a,
        key != b,
        key != step.1,
        p != q,
    ensures
        ({
            let after = split_once(cells, a, b, key, step, clockwise);
            let c = step.1;
            &&& after.len() == cells.len() + 1
            &&& cells_join(after, p, q) + same_ends(p, q, a, b) == cells_join(cells, p, q)
                + same_ends(p, q, a, key) + same_ends(p, q, key, b) + 2 * same_ends(p, q, key, c)
            &&& forall|i: int|
                0 <= i < cells.len() && i != step.0 ==> after[i] == #[trigger] cells[i]
            &&& open_triangle(after[step.0 as int], a, key, c)
            &&& open_triangle(after.last(), key, b, c)
            &&& after[step.0 as int].leaf == cells[step.0 as int].leaf
            &&& after.last().leaf == cells[step.0 as int].leaf
        }),
{
    let c = step.1;
    let cell = cells[step.0 as int];
    let one = CellView { points: turned(seq![a, key, c], clockwise.0), ..cell };
    let two = CellView {
        points: turned(seq![key, b, c], clockwise.1),
        leaf: cell.leaf,
        protected: false,
    };
    let middle = cells.update(step.0 as int, one);
    join_of_update(cells, step.0 as int, one, p, q);
    join_of_push(middle, two, p, q);
    turned_joins(seq![a, key, c], clockwise.0, p, q);
    turned_joins(seq![key, b, c], clockwise.1, p, q);
    triangle_joins(seq![a, key, c], p, q);
    triangle_joins(seq![key, b, c], p, q);
    corners_join(cell.points, a, b, c, p, q);
    turned_holds(a, key, c, clockwise.0);
    turned_holds(key, b, c, clockwise.1);
}

/// The pair of points is joined by no side of cells that do not hold both.
proof fn apart_is_not_joined(cells: Seq<CellView>, a: PointKey, b: PointKey)
    requires
        forall|i: int|
            0 <= i < cells.len() ==> !(#[trigger] cells[i]).points.contains(a)
                || !cells[i].points.contains(b),
    ensures
        cells_join(cells, a, b) == 0,
    decreases cells.len(),
{
    if cells.len() > 0 {
        let front = cells.drop_last();
        assert forall|i: int| 0 <= i < front.len() implies !(#[trigger] front[i]).points.contains(a)
            || !front[i].points.contains(b) by {
            assert(front[i] == cells[i]);
        }
        apart_is_not_joined(front, a, b);
        let ring = cells.last().points;
        no_runs(ring, a, b, ring.len() as int);
        no_runs(ring, b, a, ring.len() as int);
    }
}

proof fn no_runs(ring: Seq<PointKey>, a: PointKey, b: PointKey, count: int)
    requires
        0 <= count <= ring.len(),
        !ring.contains(a) || !ring.contains(b),
    ensures
        side_runs(ring, a, b, count) == 0,
    decreases count,
{
    if count > 0 {
        no_runs(ring, a, b, count - 1);
        let end = if count == ring.len() {
            ring[0]
        } else {
            ring[count]
        };
        assert(ring.contains(ring[count - 1]));
        assert(ring.contains(end));
    }
}

/// The edge of one or two open triangles is split, as long as the mesh stays within
/// its limit and an edge of one triangle alone lies on the boundary.
pub proof fn split_is_found(
    candidate: Candidate,
    a: PointKey,
    b: PointKey,
    max_cells: u64,
    places: Seq<int>,
    corners: Seq<PointKey>,
)
    requires
        a != b,
        1 <= places.len() <= 2,
        corners.len() == places.len(),
        candidate.cells@.len() + places.len() <= usize::MAX,
        candidate.cells@.len() + places.len() <= max_cells,
        beside(candidate.cells_view(), a, b, places),
        forall|i: int|
            0 <= i < places.len() ==> (#[trigger] corners[i]) != a && corners[i] != b
                && open_triangle(candidate.cells_view()[places[i]], a, b, corners[i]),
        places.len() == 1 ==> candidate.points@[a].boundary && candidate.points@[b].boundary,
    ensures
        split_plan(candidate, a, b, max_cells) matches Some(plan) && plan.len() == places.len()
            && forall|i: int|
            0 <= i < plan.len() ==> (#[trigger] plan[i]).0 == places[i] && plan[i].1 == corners[i],
{
    let cells = candidate.cells_view();
    edge_search_is_exact(cells, a, b, places);
    let pair = cells_on_edge(cells, a, b);
    assert forall|i: int| 0 <= i < pair.len() implies free_triangle(
        cells[(#[trigger] pair[i]) as int],
    ) && other_point(cells[pair[i] as int].points, a, b) == Some(corners[i]) by {
        assert(pair[i] == places[i]);
        assert(open_triangle(cells[places[i]], a, b, corners[i]));
        third_corner(cells[places[i]].points, a, b, corners[i]);
    }
}

/// No other edge is split: not one of no cell or of three, not one beside a quad or a
/// protected cell, not an inner edge of one triangle, and none beyond the limit.
pub proof fn split_is_refused(
    candidate: Candidate,
    a: PointKey,
    b: PointKey,
    max_cells: u64,
    places: Seq<int>,
)
    requires
        candidate.cells@.len() <= usize::MAX,
        beside(candidate.cells_view(), a, b, places),
        ({
            ||| places.len() == 0
            ||| places.len() > 2
            ||| exists|i: int|
                0 <= i < places.len() && (candidate.cells_view()[#[trigger] places[i]].protected
                    || candidate.cells_view()[places[i]].points.len() != 3)
            ||| places.len() == 1 && (!candidate.points@[a].boundary
                || !candidate.points@[b].boundary)
            ||| max_cells < usize::MAX && candidate.cells@.len() + places.len() > max_cells
        }),
    ensures
        split_plan(candidate, a, b, max_cells) is None,
{
    let cells = candidate.cells_view();
    edge_search_is_exact(cells, a, b, places);
    let pair = cells_on_edge(cells, a, b);
    if exists|i: int|
        0 <= i < places.len() && (cells[#[trigger] places[i]].protected || cells[places[i]].points.len()
            != 3) {
        let i = choose|i: int|
            0 <= i < places.len() && (cells[#[trigger] places[i]].protected
                || cells[places[i]].points.len() != 3);
        assert(pair[i] == places[i]);
        assert(!free_triangle(cells[pair[i] as int]));
    }
}

/// A split keeps the cover. Each triangle beside the edge becomes two: in one the new
/// point stands in place of one end, in the other in place of the other end. So every
/// pair of other points but the two ends is joined as often as before, each end is
/// joined to the new point as often as the ends were joined, and the ends no longer
/// are. No other cell changes.
pub proof fn split_keeps_cover(
    candidate: Candidate,
    a: PointKey,
    b: PointKey,
    max_cells: u64,
    key: PointKey,
    clockwise: Seq<bool>,
)
    requires
        candidate.cells@.len() <= usize::MAX,
        a != b,
        split_plan(candidate, a, b, max_cells) is Some,
        forall|i: int|
            0 <= i < candidate.cells@.len() ==> !(
            #[trigger] candidate.cells_view()[i]).points.contains(key),
    ensures
        ({
            let plan = split_plan(candidate, a, b, max_cells)->0;
            let before = candidate.cells_view();
            let after = split_cells(before, a, b, key, plan, clockwise);
            let n = before.len() as int;
            &&& 1 <= plan.len() <= 2
            &&& after.len() == n + plan.len()
            &&& cells_join(after, a, b) == 0
            &&& cells_join(before, a, b) == plan.len()
            &&& cells_join(after, a, key) == cells_join(before, a, b)
            &&& cells_join(after, key, b) == cells_join(before, a, b)
            &&& forall|p: PointKey, q: PointKey|
                p != q && p != key && q != key && same_ends(p, q, a, b) == 0 ==> #[trigger] cells_join(
                    after,
                    p,
                    q,
                ) == cells_join(before, p, q)
            &&& forall|i: int|
                0 <= i < plan.len() ==> {
                    let (place, c) = #[trigger] plan[i];
                    &&& place < n
                    &&& open_triangle(before[place as int], a, b, c)
                    &&& open_triangle(after[place as int], a, key, c)
                    &&& open_triangle(after[n + i], key, b, c)
                    &&& after[place as int].leaf == before[place as int].leaf
                    &&& after[n + i].leaf == before[place as int].leaf
                }
            &&& forall|i: int|
                0 <= i < n && i != plan[0].0 && (plan.len() == 2 ==> i != plan[1].0) ==> after[i]
                    == #[trigger] before[i]
        }),
{
    let plan = split_plan(candidate, a, b, max_cells)->0;
    let before = candidate.cells_view();
    let after = split_cells(before, a, b, key, plan, clockwise);
    let n = before.len() as int;
    cells_on_edge_places(before, a, b);
    let pair = cells_on_edge(before, a, b);
    assert forall|i: int| 0 <= i < plan.len() implies {
        let (place, c) = #[trigger] plan[i];
        &&& place == pair[i]
        &&& place < n
        &&& open_triangle(before[place as int], a, b, c)
        &&& c != a && c != b && c != key && key != a && key != b
    } by {
        assert(plan[i].0 == pair[i]);
        assert(holds_both(before[pair[i] as int], a, b));
        assert(free_triangle(before[pair[i] as int]));
        found_corner(before[pair[i] as int].points, a, b);
    }
    let one = split_once(before, a, b, key, plan[0], (clockwise[0], clockwise[1]));
    assert(plan[0].0 == pair[0]);
    if plan.len() == 2 {
        assert(plan[1].0 == pair[1]);
        assert(pair[0] < pair[1]);
    }
    let c = plan[0].1;
    assert forall|p: PointKey, q: PointKey| p != q implies #[trigger] cells_join(after, p, q)
        + plan.len() * same_ends(p, q, a, b) == cells_join(before, p, q) + plan.len() * same_ends(
        p,
        q,
        a,
        key,
    ) + plan.len() * same_ends(p, q, key, b) + 2 * same_ends(p, q, key, c) + (if plan.len() == 2 {
        2 * same_ends(p, q, key, plan[1].1)
    } else {
        0
    }) by {
        one_split_joins(before, a, b, key, plan[0], (clockwise[0], clockwise[1]), p, q);
        if plan.len() == 2 {
            one_split_joins(one, a, b, key, plan[1], (clockwise[2], clockwise[3]), p, q);
        }
    }
    one_split_joins(before, a, b, key, plan[0], (clockwise[0], clockwise[1]), a, b);
    if plan.len() == 2 {
        one_split_joins(one, a, b, key, plan[1], (clockwise[2], clockwise[3]), a, b);
        assert(one[plan[1].0 as int] == before[plan[1].0 as int]);
        assert(after[plan[0].0 as int] == one[plan[0].0 as int]);
        assert(after[n] == one[n]);
    }
    assert forall|i: int| 0 <= i < after.len() implies !(#[trigger] after[i]).points.contains(a)
        || !after[i].points.contains(b) by {
        if i < n && i != plan[0].0 && (plan.len() == 2 ==> i != plan[1].0) {
            assert(after[i] == before[i]);
            if holds_both(before[i], a, b) {
                assert(pair.contains(i as usize));
                let k = pair.index_of(i as usize);
                assert(pair[k] == i);
                assert(plan[k].0 == i);
            }
        } else if i < n {
            let k: int = if i == plan[0].0 {
                0
            } else {
                1
            };
            three_only(after[i].points, a, key, plan[k].1, b);
        } else {
            let k = i - n;
            three_only(after[i].points, key, b, plan[k].1, a);
        }
    }
    apart_is_not_joined(after, a, b);
    assert forall|i: int| 0 <= i < before.len() implies !(#[trigger] before[i]).points.contains(a)
        || !before[i].points.contains(key) by {
    }
    apart_is_not_joined(before, a, key);
    assert forall|i: int| 0 <= i < before.len() implies !(#[trigger] before[i]).points.contains(key)
        || !before[i].points.contains(b) by {
    }
    apart_is_not_joined(before, key, b);
    assert(cells_join(after, a, key) == plan.len());
    assert(cells_join(after, key, b) == plan.len());
}

/// A triangle holds no fourth point.
proof fn three_only(ring: Seq<PointKey>, a: PointKey, b: PointKey, c: PointKey, d: PointKey)
    requires
        ring.len() == 3,
        ring.contains(a),
        ring.contains(b),
        ring.contains(c),
        a != b,
        b != c,
        c != a,
        d != a,
        d != b,
        d != c,
    ensures
        !ring.contains(d),
{
    let i = ring.index_of(a);
    let j = ring.index_of(b);
    let k = ring.index_of(c);
    assert(ring[i] == a && ring[j] == b && ring[k] == c);
    if ring.contains(d) {
        let m = ring.index_of(d);
        assert(ring[m] == d);
    }
}

/// The cells after a collapse are those before it that hold at most one end, in their
/// order, with the point that goes replaced by the one that stays.
pub open spec fn collapses(
    before: Seq<CellView>,
    gone: PointKey,
    keep: PointKey,
    after: Seq<CellView>,
    places: Seq<int>,
) -> bool {
    &&& after.len() == places.len()
    &&& forall|i: int, j: int|
        0 <= i < j < places.len() ==> (#[trigger] places[i]) < (#[trigger] places[j])
    &&& forall|place: int|
        (#[trigger] places.contains(place)) <==> 0 <= place < before.len() && !(
        before[place].points.contains(gone) && before[place].points.contains(keep))
    &&& forall|i: int|
        0 <= i < places.len() ==> {
            let cell = before[#[trigger] places[i]];
            &&& after[i].leaf == cell.leaf
            &&& after[i].protected == cell.protected
            &&& after[i].points.len() == cell.points.len()
            &&& forall|k: int|
                0 <= k < cell.points.len() ==> (#[trigger] after[i].points[k]) == if cell.points[k]
                    == gone {
                    keep
                } else {
                    cell.points[k]
                }
        }
}

proof fn renaming_meets(points: Seq<PointKey>, gone: PointKey, keep: PointKey)
    requires
        points.no_duplicates(),
        gone != keep,
    ensures
        renamed(points, gone, keep).no_duplicates() <==> !(points.contains(gone)
            && points.contains(keep)),
{
    let list = renamed(points, gone, keep);
    if points.contains(gone) && points.contains(keep) {
        let i = points.index_of(gone);
        let j = points.index_of(keep);
        assert(points[i] == gone && points[j] == keep);
        assert(list[i] == keep && list[j] == keep);
    } else {
        assert forall|i: int, j: int|
            0 <= i < list.len() && 0 <= j < list.len() && i != j implies list[i] != list[j] by {
            assert(points.contains(points[i]) && points.contains(points[j]));
        }
    }
}

/// A collapse joins two ends: the cells on the edge go, every other cell stays in its
/// order, and in it the point that stays takes the place of the one that goes.
pub proof fn collapse_joins_ends(cells: Seq<CellView>, gone: PointKey, keep: PointKey) -> (places:
    Seq<int>)
    requires
        gone != keep,
        forall|i: int| 0 <= i < cells.len() ==> (#[trigger] cells[i]).points.no_duplicates(),
    ensures
        collapses(cells, gone, keep, collapsed(cells, gone, keep), places),
        forall|i: int|
            0 <= i < collapsed(cells, gone, keep).len() ==> !(
            #[trigger] collapsed(cells, gone, keep)[i]).points.contains(gone),
    decreases cells.len(),
{
    let after = collapsed(cells, gone, keep);
    if cells.len() == 0 {
        Seq::empty()
    } else {
        let front = cells.drop_last();
        let n = front.len() as int;
        let last = cells.last();
        let rest = collapsed(front, gone, keep);
        let list = collapse_joins_ends(front, gone, keep);
        assert(cells[n] == last);
        renaming_meets(last.points, gone, keep);
        let drops = last.points.contains(gone) && last.points.contains(keep);
        let places = if drops {
            list
        } else {
            list.push(n)
        };
        assert forall|i: int| 0 <= i < list.len() implies 0 <= (#[trigger] list[i]) < n by {
            assert(list.contains(list[i]));
        }
        assert forall|place: int|
            (#[trigger] places.contains(place)) <==> 0 <= place < cells.len() && !(
            cells[place].points.contains(gone) && cells[place].points.contains(keep)) by {
            if 0 <= place < n {
                assert(front[place] == cells[place]);
            }
            if places.contains(place) {
                let k = places.index_of(place);
                assert(places[k] == place);
                if k < list.len() {
                    assert(list[k] == place);
                    assert(list.contains(place));
                }
            }
            if list.contains(place) {
                let k = list.index_of(place);
                assert(places[k] == place);
            }
            if place == n && !drops {
                assert(places[list.len() as int] == n);
            }
        }
        assert forall|i: int| 0 <= i < places.len() implies {
            let cell = cells[#[trigger] places[i]];
            &&& after[i].leaf == cell.leaf
            &&& after[i].protected == cell.protected
            &&& after[i].points.len() == cell.points.len()
            &&& !after[i].points.contains(gone)
            &&& forall|k: int|
                0 <= k < cell.points.len() ==> (#[trigger] after[i].points[k]) == if cell.points[k]
                    == gone {
                    keep
                } else {
                    cell.points[k]
                }
        } by {
            if i < list.len() {
                assert(places[i] == list[i]);
                assert(front[list[i]] == cells[list[i]]);
                assert(after[i] == rest[i]);
            }
        }
        places
    }
}

/// Which end stays: one of the two, unprotected both; a boundary end rather than an
/// inner one, else the smaller. An edge of two boundary ends has one cell beside it,
/// any other two. No cell at either end is protected or a quad.
pub proof fn collapse_keeps_boundary(candidate: Candidate, a: PointKey, b: PointKey)
    requires
        candidate.cells@.len() <= usize::MAX,
    ensures
        ({
            let cells = candidate.cells_view();
            let first = candidate.points@[a];
            let second = candidate.points@[b];
            collapse_plan(candidate, a, b) matches Some((keep, gone)) ==> {
                &&& (keep == a && gone == b) || (keep == b && gone == a)
                &&& !first.protected && !second.protected
                &&& candidate.points@[gone].boundary ==> candidate.points@[keep].boundary
                &&& first.boundary == second.boundary ==> !gone.before(keep)
                &&& forall|i: int|
                    0 <= i < cells.len() && ((#[trigger] cells[i]).points.contains(a)
                        || cells[i].points.contains(b)) ==> cells[i].points.len() == 3
                        && !cells[i].protected
            }
        }),
{
    let cells = candidate.cells_view();
    if let Some((keep, gone)) = collapse_plan(candidate, a, b) {
        assert forall|i: int|
            0 <= i < cells.len() && ((#[trigger] cells[i]).points.contains(a)
                || cells[i].points.contains(b)) implies cells[i].points.len() == 3
            && !cells[i].protected by {
            assert(free_triangle(cells[i]));
        }
        PointKey::total(a, b);
        if a.before(b) && b.before(a) {
            PointKey::transitive(a, b, a);
            PointKey::irreflexive(a);
        }
        PointKey::irreflexive(a);
    }
}

/// An edge collapses wherever its ends and the cells at them allow it, and only there.
pub proof fn collapse_is_found(
    candidate: Candidate,
    a: PointKey,
    b: PointKey,
    places: Seq<int>,
)
    requires
        candidate.cells@.len() <= usize::MAX,
        beside(candidate.cells_view(), a, b, places),
    ensures
        collapse_plan(candidate, a, b) is Some <==> {
            let cells = candidate.cells_view();
            &&& !candidate.points@[a].protected
            &&& !candidate.points@[b].protected
            &&& forall|i: int|
                0 <= i < cells.len() && ((#[trigger] cells[i]).points.contains(a)
                    || cells[i].points.contains(b)) ==> cells[i].points.len() == 3
                    && !cells[i].protected
            &&& places.len() == if candidate.points@[a].boundary && candidate.points@[b].boundary {
                1int
            } else {
                2
            }
        },
{
    let cells = candidate.cells_view();
    edge_search_is_exact(cells, a, b, places);
    if collapse_free(cells, a, b) {
        assert forall|i: int|
            0 <= i < cells.len() && ((#[trigger] cells[i]).points.contains(a)
                || cells[i].points.contains(b)) implies cells[i].points.len() == 3
            && !cells[i].protected by {
            assert(free_triangle(cells[i]));
        }
    } else {
        let i = choose|i: int|
            0 <= i < cells.len() && (cells[i].points.contains(a) || cells[i].points.contains(b))
                && !free_triangle(#[trigger] cells[i]);
        assert(!(cells[i].points.len() == 3 && !cells[i].protected));
    }
}

/// The edge of one open triangle alone can be split at a transition, and no other.
pub proof fn transition_is_found(
    cells: Seq<CellView>,
    a: PointKey,
    b: PointKey,
    places: Seq<int>,
)
    requires
        cells.len() <= usize::MAX,
        a != b,
        beside(cells, a, b, places),
    ensures
        transition_plan(cells, a, b) is Some ==> places.len() == 1 && !cells[places[0]].protected
            && cells[places[0]].points.len() == 3,
        forall|c: PointKey|
            c != a && c != b && places.len() == 1 && #[trigger] open_triangle(
                cells[places[0]],
                a,
                b,
                c,
            ) ==> transition_plan(cells, a, b) == Some((places[0] as usize, c)),
{
    edge_search_is_exact(cells, a, b, places);
    if places.len() == 1 {
        assert(cells_on_edge(cells, a, b)[0] == places[0]);
        assert forall|c: PointKey|
            c != a && c != b && #[trigger] open_triangle(cells[places[0]], a, b, c) implies
            transition_plan(cells, a, b) == Some((places[0] as usize, c)) by {
            third_corner(cells[places[0]].points, a, b, c);
        }
    }
}

/// A split at a transition keeps the cover: the triangle beside the edge becomes two, one
/// with the new point in place of either end, and nothing else changes.
pub proof fn transition_keeps_cover(
    cells: Seq<CellView>,
    a: PointKey,
    b: PointKey,
    key: PointKey,
    clockwise: Seq<bool>,
    p: PointKey,
    q: PointKey,
)
    requires
        cells.len() <= usize::MAX,
        a != b,
        p != q,
        transition_plan(cells, a, b) is Some,
        !cells[(transition_plan(cells, a, b)->0).0 as int].points.contains(key),
    ensures
        ({
            let (place, c) = transition_plan(cells, a, b)->0;
            let after = transition_cells(cells, place as int, a, b, c, key, clockwise);
            &&& place < cells.len()
            &&& after.len() == cells.len() + 1
            &&& cells_join(after, p, q) + same_ends(p, q, a, b) == cells_join(cells, p, q)
                + same_ends(p, q, a, key) + same_ends(p, q, key, b) + 2 * same_ends(p, q, key, c)
            &&& forall|i: int|
                0 <= i < cells.len() && i != place ==> after[i] == #[trigger] cells[i]
            &&& open_triangle(cells[place as int], a, b, c)
            &&& open_triangle(after[place as int], a, key, c)
            &&& open_triangle(after.last(), key, b, c)
            &&& after[place as int].leaf == cells[place as int].leaf
            &&& after.last().leaf == cells[place as int].leaf
        }),
{
    let (place, c) = transition_plan(cells, a, b)->0;
    cells_on_edge_places(cells, a, b);
    let found = cells_on_edge(cells, a, b);
    assert(found[0] == place);
    assert(holds_both(cells[place as int], a, b));
    found_corner(cells[place as int].points, a, b);
    let cell = cells[place as int];
    let one = CellView { points: turned(seq![a, key, c], clockwise[0]), ..cell };
    let two = CellView {
        points: turned(seq![key, b, c], clockwise[1]),
        leaf: cell.leaf,
        protected: false,
    };
    let middle = cells.update(place as int, one);
    join_of_update(cells, place as int, one, p, q);
    join_of_push(middle, two, p, q);
    turned_joins(seq![a, key, c], clockwise[0], p, q);
    turned_joins(seq![key, b, c], clockwise[1], p, q);
    triangle_joins(seq![a, key, c], p, q);
    triangle_joins(seq![key, b, c], p, q);
    corners_join(cell.points, a, b, c, p, q);
    turned_holds(a, key, c, clockwise[0]);
    turned_holds(key, b, c, clockwise[1]);
}

} // verus!
