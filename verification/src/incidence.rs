//! Which cells meet at which edges.

use vstd::prelude::*;

#[allow(unused_imports)]
use crate::covering::{cells_join, side_runs};
use crate::sorted::SortedMap;
use crate::topology::{ordered_pair, Cell, EdgeKey, PointKey};
#[allow(unused_imports)]
use crate::topology::{
    cell_views, edge_key, edge_key_is_symmetric, edge_key_tells_ends, CellView,
};

verus! {

/// One side of a cell: the cell's place and the side's ends, in the cell's
/// direction.
#[derive(Debug, Clone, Copy, PartialEq, Eq, Structural)]
pub struct Side {
    pub cell: usize,
    pub from: PointKey,
    pub to: PointKey,
}

impl Side {
    pub open spec fn edge(self) -> EdgeKey {
        edge_key(self.from, self.to)
    }
}

/// The first `count` sides of a cell.
pub open spec fn sides_of(points: Seq<PointKey>, cell: usize, count: int) -> Seq<Side> {
    Seq::new(
        count as nat,
        |i: int| Side { cell, from: points[i], to: points[(i + 1) % (points.len() as int)] },
    )
}

/// The sides of all cells, in order.
pub open spec fn all_sides(cells: Seq<CellView>) -> Seq<Side>
    decreases cells.len(),
{
    if cells.len() == 0 {
        Seq::empty()
    } else {
        all_sides(cells.drop_last()) + sides_of(
            cells.last().points,
            (cells.len() - 1) as usize,
            cells.last().points.len() as int,
        )
    }
}

/// The sides on one edge, in order.
pub open spec fn sides_on(sides: Seq<Side>, edge: EdgeKey) -> Seq<Side>
    decreases sides.len(),
{
    if sides.len() == 0 {
        Seq::empty()
    } else {
        let rest = sides_on(sides.drop_last(), edge);
        if sides.last().edge() == edge {
            rest.push(sides.last())
        } else {
            rest
        }
    }
}

/// Each side on the edge is one of the sides, and has that edge.
pub proof fn sides_on_are_sides(sides: Seq<Side>, edge: EdgeKey)
    ensures
        forall|i: int|
            0 <= i < sides_on(sides, edge).len() ==> sides.contains(
                #[trigger] sides_on(sides, edge)[i],
            ) && sides_on(sides, edge)[i].edge() == edge,
        sides_on(sides, edge).len() <= sides.len(),
    decreases sides.len(),
{
    if sides.len() > 0 {
        let front = sides.drop_last();
        sides_on_are_sides(front, edge);
        let all = sides_on(sides, edge);
        let rest = sides_on(front, edge);
        assert forall|i: int| 0 <= i < all.len() implies sides.contains(#[trigger] all[i])
            && all[i].edge() == edge by {
            if i < rest.len() {
                assert(all[i] == rest[i]);
                assert(front.contains(rest[i]));
                let k = front.index_of(rest[i]);
                assert(sides[k] == rest[i]);
            } else {
                assert(sides[sides.len() - 1] == all[i]);
            }
        }
    }
}

/// Where a side belongs to a cell and has that cell's points for ends.
pub open spec fn side_in(side: Side, cells: Seq<CellView>) -> bool {
    &&& side.cell < cells.len()
    &&& cells[side.cell as int].points.contains(side.from)
    &&& cells[side.cell as int].points.contains(side.to)
}

/// Every side belongs to its cell.
pub proof fn all_sides_are_in(cells: Seq<CellView>)
    requires
        cells.len() <= usize::MAX,
    ensures
        forall|i: int|
            0 <= i < all_sides(cells).len() ==> side_in(#[trigger] all_sides(cells)[i], cells),
    decreases cells.len(),
{
    if cells.len() > 0 {
        let front = cells.drop_last();
        let points = cells.last().points;
        all_sides_are_in(front);
        let head = all_sides(front);
        let all = all_sides(cells);
        assert forall|i: int| 0 <= i < all.len() implies side_in(#[trigger] all[i], cells) by {
            if i < head.len() {
                assert(all[i] == head[i]);
                assert(front[head[i].cell as int] == cells[head[i].cell as int]);
            } else {
                let k = i - head.len();
                let n = points.len() as int;
                assert(0 <= (k + 1) % n < n);
                assert(points.contains(points[k]));
                assert(points.contains(points[(k + 1) % n]));
            }
        }
    }
}

/// The place after `place` in a ring of `count` places.
pub fn next_place(place: usize, count: usize) -> (result: usize)
    requires
        place < count,
    ensures
        result == (place + 1) % (count as int),
        result < count,
{
    proof {
        let p = place as int;
        let n = count as int;
        if p + 1 < n {
            assert((p + 1) % n == p + 1) by (nonlinear_arith)
                requires
                    0 <= p + 1 < n,
            ;
        } else {
            assert((p + 1) % n == 0) by (nonlinear_arith)
                requires
                    p + 1 == n,
                    n > 0,
            ;
        }
    }
    if place + 1 < count {
        place + 1
    } else {
        0
    }
}

/// The sides of all cells, in order.
pub fn cell_sides(cells: &Vec<Cell>) -> (result: Vec<Side>)
    ensures
        result@ == all_sides(cell_views(cells@)),
        forall|i: int|
            0 <= i < result.len() ==> side_in(#[trigger] result[i], cell_views(cells@)),
{
    let ghost views = cell_views(cells@);
    let mut list: Vec<Side> = Vec::new();
    let mut i: usize = 0;
    while i < cells.len()
        invariant
            i <= cells.len(),
            views == cell_views(cells@),
            list@ == all_sides(views.take(i as int)),
        decreases cells.len() - i,
    {
        let ghost done = list@;
        let points = &cells[i].points;
        assert(views[i as int] == cells[i as int]@);
        let mut e: usize = 0;
        while e < points.len()
            invariant
                i < cells.len(),
                e <= points.len(),
                points@ == views[i as int].points,
                list@ == done + sides_of(points@, i, e as int),
            decreases points.len() - e,
        {
            let next: usize = next_place(e, points.len());
            let side = Side { cell: i, from: points[e], to: points[next] };
            list.push(side);
            assert(sides_of(points@, i, e + 1) =~= sides_of(points@, i, e as int).push(side));
            assert(list@ =~= done + sides_of(points@, i, e + 1));
            e = e + 1;
        }
        assert(views.take(i as int + 1).drop_last() =~= views.take(i as int));
        i = i + 1;
    }
    assert(views.take(i as int) =~= views);
    proof {
        all_sides_are_in(views);
    }
    list
}

/// The sides, gathered by edge.
pub struct EdgeMap {
    pub groups: SortedMap<EdgeKey, Vec<Side>>,
}

impl EdgeMap {
    /// The map holds exactly the edges that some side has, each with its sides
    /// in order.
    pub open spec fn gathers(self, sides: Seq<Side>) -> bool {
        &&& self.groups.wf()
        &&& forall|edge: EdgeKey| #[trigger]
            self.groups@.dom().contains(edge) <==> sides_on(sides, edge).len() > 0
        &&& forall|edge: EdgeKey| #[trigger]
            self.groups@.dom().contains(edge) ==> self.groups@[edge]@ == sides_on(sides, edge)
    }

    pub fn gather(sides: &Vec<Side>) -> (result: EdgeMap)
        ensures
            result.gathers(sides@),
    {
        let mut groups: SortedMap<EdgeKey, Vec<Side>> = SortedMap::new();
        let mut i: usize = 0;
        while i < sides.len()
            invariant
                i <= sides.len(),
                groups.wf(),
                forall|edge: EdgeKey| #[trigger]
                    groups@.dom().contains(edge) <==> sides_on(
                        sides@.take(i as int),
                        edge,
                    ).len() > 0,
                forall|edge: EdgeKey| #[trigger]
                    groups@.dom().contains(edge) ==> groups@[edge]@ == sides_on(
                        sides@.take(i as int),
                        edge,
                    ),
            decreases sides.len() - i,
        {
            let side = sides[i];
            let key = ordered_pair(side.from, side.to);
            let ghost before = groups@;
            let ghost short = sides@.take(i as int);
            let ghost long = sides@.take(i as int + 1);
            proof {
                assert(long.drop_last() =~= short);
                assert(long.last() == side);
            }
            let mut list: Vec<Side> = match groups.get(&key) {
                Some(found) => {
                    let copy = found.clone();
                    assert(copy@ =~= found@);
                    copy
                },
                None => Vec::new(),
            };
            proof {
                assert(list@ =~= sides_on(short, key));
            }
            list.push(side);
            groups.insert(key, list);
            proof {
                assert forall|edge: EdgeKey| #[trigger]
                    groups@.dom().contains(edge) <==> sides_on(long, edge).len() > 0 by {
                    assert(before.dom().contains(edge) <==> sides_on(short, edge).len() > 0);
                }
                assert forall|edge: EdgeKey| #[trigger]
                    groups@.dom().contains(edge) implies groups@[edge]@ == sides_on(
                    long,
                    edge,
                ) by {
                    if edge != key {
                        assert(before.dom().contains(edge));
                    }
                }
            }
            i = i + 1;
        }
        assert(sides@.take(i as int) =~= sides@);
        EdgeMap { groups }
    }
}

proof fn sides_on_adds(a: Seq<Side>, b: Seq<Side>, edge: EdgeKey)
    ensures
        sides_on(a + b, edge) == sides_on(a, edge) + sides_on(b, edge),
    decreases b.len(),
{
    if b.len() == 0 {
        assert(a + b =~= a);
        assert(sides_on(a, edge) + sides_on(b, edge) =~= sides_on(a, edge));
    } else {
        sides_on_adds(a, b.drop_last(), edge);
        assert((a + b).drop_last() =~= a + b.drop_last());
        assert((a + b).last() == b.last());
        if b.last().edge() == edge {
            assert(sides_on(a, edge) + sides_on(b, edge) =~= (sides_on(a, edge) + sides_on(
                b.drop_last(),
                edge,
            )).push(b.last()));
        }
    }
}

proof fn ring_sides_are_counted(
    points: Seq<PointKey>,
    cell: usize,
    a: PointKey,
    b: PointKey,
    count: int,
)
    requires
        a != b,
        0 <= count <= points.len(),
    ensures
        sides_on(sides_of(points, cell, count), edge_key(a, b)).len() == side_runs(
            points,
            a,
            b,
            count,
        ) + side_runs(points, b, a, count),
    decreases count,
{
    if count > 0 {
        ring_sides_are_counted(points, cell, a, b, count - 1);
        let list = sides_of(points, cell, count);
        assert(list.drop_last() =~= sides_of(points, cell, count - 1));
        let n = points.len() as int;
        let side = list.last();
        assert(side.from == points[count - 1]);
        if count == n {
            vstd::arithmetic::div_mod::lemma_mod_self_0(n);
            assert(side.to == points[0]);
        } else {
            vstd::arithmetic::div_mod::lemma_small_mod(count as nat, n as nat);
            assert(side.to == points[count]);
        }
        edge_key_tells_ends(side.from, side.to, a, b);
        edge_key_is_symmetric(a, b);
    }
}

/// The sides that are gathered on an edge are the sides of cells that join its ends, in
/// either way.
pub proof fn sides_on_edge_are_counted(cells: Seq<CellView>, a: PointKey, b: PointKey)
    requires
        a != b,
    ensures
        sides_on(all_sides(cells), edge_key(a, b)).len() == cells_join(cells, a, b),
    decreases cells.len(),
{
    if cells.len() > 0 {
        sides_on_edge_are_counted(cells.drop_last(), a, b);
        let last = cells.last().points;
        let own = sides_of(last, (cells.len() - 1) as usize, last.len() as int);
        sides_on_adds(all_sides(cells.drop_last()), own, edge_key(a, b));
        ring_sides_are_counted(last, (cells.len() - 1) as usize, a, b, last.len() as int);
    }
}

} // verus!
