//! Which edges of cells must be tested for crossing each other.

use vstd::prelude::*;

use crate::incidence::{cell_sides, EdgeMap, Side};
#[allow(unused_imports)]
use crate::incidence::{all_sides, all_sides_are_in, sides_on, sides_on_are_sides};
use crate::number::Real;
#[allow(unused_imports)]
use crate::number::total_rank_injective;
use crate::sorted::{same_key, sort_keys, Key};
#[allow(unused_imports)]
use crate::sorted::{increasing, ordered, push_keeps_order, rearranged};
#[allow(unused_imports)]
use crate::topology::{cell_views, CellView};
use crate::topology::{Cell, EdgeKey};

verus! {

/// An edge of the cells, and whether a protected cell has it.
#[derive(Debug, Clone, Copy)]
pub struct CellEdge {
    pub edge: EdgeKey,
    pub layer: bool,
}

/// One of the sides belongs to a protected cell.
pub open spec fn has_protected(cells: Seq<CellView>, sides: Seq<Side>) -> bool {
    exists|i: int| 0 <= i < sides.len() && cells[(#[trigger] sides[i]).cell as int].protected
}

/// The names of the edges.
pub open spec fn edge_names(list: Seq<CellEdge>) -> Seq<EdgeKey> {
    Seq::new(list.len(), |i: int| list[i].edge)
}

/// The edges of the cells, each once and in order.
pub fn cell_edges(cells: &Vec<Cell>) -> (result: Vec<CellEdge>)
    requires
        forall|i: int| 0 <= i < cells@.len() ==> (#[trigger] cells@[i]).points@.len() > 0,
    ensures
        increasing(edge_names(result@)),
        forall|edge: EdgeKey|
            edge_names(result@).contains(edge) <==> #[trigger] sides_on(
                all_sides(cell_views(cells@)),
                edge,
            ).len() > 0,
        forall|i: int|
            0 <= i < result@.len() ==> (#[trigger] result@[i]).layer == has_protected(
                cell_views(cells@),
                sides_on(all_sides(cell_views(cells@)), result@[i].edge),
            ),
{
    let ghost views = cell_views(cells@);
    let cell_count: usize = cells.len();
    let sides = cell_sides(cells);
    let map = EdgeMap::gather(&sides);
    let mut list: Vec<CellEdge> = Vec::new();
    let mut i: usize = 0;
    while i < map.groups.keys.len()
        invariant
            i <= map.groups.keys@.len(),
            views == cell_views(cells@),
            cell_count == cells@.len(),
            sides@ == all_sides(views),
            map.gathers(sides@),
            list@.len() == i,
            forall|k: int| 0 <= k < i ==> (#[trigger] list@[k]).edge == map.groups.keys@[k],
            forall|k: int|
                0 <= k < i ==> (#[trigger] list@[k]).layer == has_protected(
                    views,
                    sides_on(sides@, list@[k].edge),
                ),
        decreases map.groups.keys@.len() - i,
    {
        let edge = map.groups.keys[i];
        proof {
            map.groups.entry_at(i as int);
            assert(views.len() == cell_count);
            all_sides_are_in(views);
            sides_on_are_sides(sides@, edge);
        }
        let group = &map.groups.values[i];
        let mut layer = false;
        let mut k: usize = 0;
        while k < group.len()
            invariant
                k <= group@.len(),
                views == cell_views(cells@),
                forall|p: int| 0 <= p < group@.len() ==> (#[trigger] group@[p]).cell < cells@.len(),
                layer == has_protected(views, group@.take(k as int)),
            decreases group@.len() - k,
        {
            let ghost before = layer;
            assert(views[group@[k as int].cell as int] == cells@[group@[k as int].cell as int]@);
            if cells[group[k].cell].protected {
                layer = true;
            }
            proof {
                let less = group@.take(k as int);
                let more = group@.take(k + 1);
                assert(more[k as int] == group@[k as int]);
                if has_protected(views, less) {
                    let p = choose|p: int|
                        0 <= p < less.len() && views[(#[trigger] less[p]).cell as int].protected;
                    assert(more[p] == less[p]);
                }
                if has_protected(views, more) {
                    let p = choose|p: int|
                        0 <= p < more.len() && views[(#[trigger] more[p]).cell as int].protected;
                    if p < k {
                        assert(less[p] == more[p]);
                    }
                }
            }
            k = k + 1;
        }
        assert(group@.take(k as int) =~= group@);
        list.push(CellEdge { edge, layer });
        i = i + 1;
    }
    proof {
        assert(edge_names(list@) =~= map.groups.keys@);
        assert forall|edge: EdgeKey|
            edge_names(list@).contains(edge) <==> #[trigger] sides_on(sides@, edge).len() > 0 by {
            assert(map.groups@.dom().contains(edge) <==> sides_on(sides@, edge).len() > 0);
        }
    }
    list
}

/// An edge with the box around it: the least and the greatest of the two
/// coordinates of its ends.
#[derive(Debug, Clone, Copy)]
pub struct EdgeBox {
    pub edge: EdgeKey,
    pub layer: bool,
    pub low: [Real; 2],
    pub high: [Real; 2],
}

/// What decides the order of two boxes: where they begin, then their place in
/// the list they come from.
#[derive(Debug, Clone, Copy, PartialEq, Eq, Structural)]
pub struct BoxRank {
    pub start: Real,
    pub place: usize,
}

impl Key for BoxRank {
    open spec fn before(self, other: Self) -> bool {
        self.start.total_rank() < other.start.total_rank() || (self.start.total_rank()
            == other.start.total_rank() && self.place < other.place)
    }

    proof fn irreflexive(a: Self) {
    }

    proof fn transitive(a: Self, b: Self, c: Self) {
    }

    proof fn total(a: Self, b: Self) {
        total_rank_injective(a.start, b.start);
    }

    fn precedes(&self, other: &Self) -> (result: bool) {
        if self.start.total_less(other.start) {
            true
        } else if other.start.total_less(self.start) {
            false
        } else {
            self.place < other.place
        }
    }
}

/// The ranks of the boxes, as they stand.
pub open spec fn box_ranks(boxes: Seq<EdgeBox>) -> Seq<BoxRank> {
    Seq::new(boxes.len(), |i: int| BoxRank { start: boxes[i].low[0], place: i as usize })
}

/// The boxes in the order of their ranks.
pub open spec fn boxes_ranked(boxes: Seq<EdgeBox>, ranks: Seq<BoxRank>) -> Seq<EdgeBox> {
    Seq::new(ranks.len(), |i: int| boxes[ranks[i].place as int])
}

/// The boxes, from the one that begins first to the one that begins last; boxes
/// that begin together keep their order.
pub fn sort_boxes(boxes: &Vec<EdgeBox>) -> (result: Vec<EdgeBox>)
    ensures
        exists|ranks: Seq<BoxRank>|
            ordered(ranks) && ranks.to_multiset() == box_ranks(boxes@).to_multiset()
                && result@ == #[trigger] boxes_ranked(boxes@, ranks),
{
    let mut ranks: Vec<BoxRank> = Vec::new();
    let mut i: usize = 0;
    while i < boxes.len()
        invariant
            i <= boxes@.len(),
            ranks@ == box_ranks(boxes@).take(i as int),
        decreases boxes@.len() - i,
    {
        ranks.push(BoxRank { start: boxes[i].low[0], place: i });
        assert(ranks@ =~= box_ranks(boxes@).take(i + 1));
        i = i + 1;
    }
    assert(box_ranks(boxes@).take(i as int) =~= box_ranks(boxes@));
    let ghost before = ranks@;
    sort_keys(&mut ranks);
    proof {
        rearranged(ranks@, before);
        assert forall|k: int| 0 <= k < ranks@.len() implies (#[trigger] ranks@[k]).place
            < boxes@.len() by {
            assert(ranks@.contains(ranks@[k]));
            assert(before.contains(ranks@[k]));
            let p = before.index_of(ranks@[k]);
            assert(before[p].place == p as usize);
        }
    }
    let mut list: Vec<EdgeBox> = Vec::new();
    let mut k: usize = 0;
    while k < ranks.len()
        invariant
            k <= ranks@.len(),
            forall|p: int| 0 <= p < ranks@.len() ==> (#[trigger] ranks@[p]).place < boxes@.len(),
            list@ == boxes_ranked(boxes@, ranks@).take(k as int),
        decreases ranks@.len() - k,
    {
        list.push(boxes[ranks[k].place]);
        assert(list@ =~= boxes_ranked(boxes@, ranks@).take(k + 1));
        k = k + 1;
    }
    assert(list@ =~= boxes_ranked(boxes@, ranks@));
    list
}

/// The edges have an end in common.
pub open spec fn share_end(a: EdgeKey, b: EdgeKey) -> bool {
    a.0 == b.0 || a.0 == b.1 || a.1 == b.0 || a.1 == b.1
}

/// The boxes lie beside each other in the second coordinate.
pub open spec fn beside_each_other(a: EdgeBox, b: EdgeBox) -> bool {
    a.high[1].lt(b.low[1]) || b.high[1].lt(a.low[1])
}

/// The pair is tested: no box from the first to the second begins behind the
/// first one's end, the boxes are not beside each other, the edges have no end
/// in common, and where only layers count one of them is a layer's.
pub open spec fn tested(boxes: Seq<EdgeBox>, layers_only: bool, pair: (usize, usize)) -> bool {
    let i = pair.0 as int;
    let j = pair.1 as int;
    &&& i < j < boxes.len()
    &&& reaches(boxes, i, j)
    &&& !beside_each_other(boxes[i], boxes[j])
    &&& !share_end(boxes[i].edge, boxes[j].edge)
    &&& layers_only ==> boxes[i].layer || boxes[j].layer
}

/// No box from the one behind `i` up to `j` begins behind the end of `i`.
pub open spec fn reaches(boxes: Seq<EdgeBox>, i: int, j: int) -> bool {
    forall|k: int| i < k <= j ==> !boxes[i].high[0].lt((#[trigger] boxes[k]).low[0])
}

fn shares_end(a: EdgeKey, b: EdgeKey) -> (result: bool)
    ensures
        result == share_end(a, b),
{
    same_key(&a.0, &b.0) || same_key(&a.0, &b.1) || same_key(&a.1, &b.0) || same_key(&a.1, &b.1)
}

/// The pairs of edges that must be tested for crossing, in order, by their
/// places in a sorted list of boxes.
pub fn pairs_to_test(boxes: &Vec<EdgeBox>, layers_only: bool) -> (result: Vec<(usize, usize)>)
    ensures
        increasing(result@),
        forall|pair: (usize, usize)| #[trigger]
            result@.contains(pair) <==> tested(boxes@, layers_only, pair),
{
    let mut list: Vec<(usize, usize)> = Vec::new();
    let mut i: usize = 0;
    while i < boxes.len()
        invariant
            i <= boxes@.len(),
            increasing(list@),
            list@.len() > 0 ==> list@.last().0 < i,
            forall|pair: (usize, usize)| #[trigger]
                list@.contains(pair) <==> tested(boxes@, layers_only, pair) && pair.0 < i,
        decreases boxes@.len() - i,
    {
        let ghost done = list@;
        let mut j: usize = i + 1;
        let mut open = true;
        while open && j < boxes.len()
            invariant
                i < boxes@.len(),
                i < j <= boxes@.len(),
                increasing(list@),
                list@.len() > 0 ==> list@.last().0 < i || (list@.last().0 == i && list@.last().1
                    < j),
                open ==> reaches(boxes@, i as int, j - 1),
                !open ==> j < boxes@.len() && boxes@[i as int].high[0].lt(boxes@[j as int].low[0]),
                forall|pair: (usize, usize)| #[trigger]
                    list@.contains(pair) <==> tested(boxes@, layers_only, pair) && (pair.0 < i || (
                    pair.0 == i && pair.1 < j)),
            decreases
                boxes@.len() - j,
                if open {
                    1int
                } else {
                    0int
                },
        {
            let a = boxes[i];
            let b = boxes[j];
            if a.high[0].less(b.low[0]) {
                open = false;
            } else {
                let ghost so_far = list@;
                assert(reaches(boxes@, i as int, j as int));
                if !a.high[1].less(b.low[1]) && !b.high[1].less(a.low[1]) && !shares_end(
                    a.edge,
                    b.edge,
                ) && (!layers_only || a.layer || b.layer) {
                    proof {
                        push_keeps_order(so_far, (i, j));
                    }
                    list.push((i, j));
                    assert forall|pair: (usize, usize)| #[trigger]
                        list@.contains(pair) <==> so_far.contains(pair) || pair == (i, j) by {
                        if so_far.contains(pair) {
                            let q = so_far.index_of(pair);
                            assert(list@[q] == pair);
                        }
                        if pair == (i, j) {
                            assert(list@[so_far.len() as int] == pair);
                        }
                    }
                    assert(tested(boxes@, layers_only, (i, j)));
                } else {
                    assert(!tested(boxes@, layers_only, (i, j)));
                }
                assert forall|pair: (usize, usize)| #[trigger]
                    list@.contains(pair) <==> tested(boxes@, layers_only, pair) && (pair.0 < i || (
                    pair.0 == i && pair.1 < j + 1)) by {
                    assert(so_far.contains(pair) <==> tested(boxes@, layers_only, pair) && (pair.0
                        < i || (pair.0 == i && pair.1 < j)));
                }
                j = j + 1;
            }
        }
        assert forall|pair: (usize, usize)| #[trigger]
            list@.contains(pair) <==> tested(boxes@, layers_only, pair) && pair.0 < i + 1 by {
            assert(list@.contains(pair) <==> tested(boxes@, layers_only, pair) && (pair.0 < i || (
            pair.0 == i && pair.1 < j)));
            if tested(boxes@, layers_only, pair) && pair.0 == i && pair.1 >= j && !open {
                assert(reaches(boxes@, i as int, pair.1 as int));
                assert(boxes@[i as int].high[0].lt(boxes@[j as int].low[0]));
            }
        }
        i = i + 1;
    }
    list
}

/// Every pair of edges whose boxes overlap is tested: where the boxes are in the order of
/// their first coordinates, none is passed over between the two.
pub proof fn overlapping_boxes_are_tested(
    boxes: Seq<EdgeBox>,
    layers_only: bool,
    i: usize,
    j: usize,
)
    requires
        i < j < boxes.len(),
        forall|a: int, b: int|
            0 <= a < b < boxes.len() ==> (#[trigger] boxes[a]).low[0].le(
                (#[trigger] boxes[b]).low[0],
            ),
        boxes[j as int].low[0].le(boxes[i as int].high[0]),
        boxes[j as int].low[1].le(boxes[i as int].high[1]),
        boxes[i as int].low[1].le(boxes[j as int].high[1]),
        boxes[i as int].edge.0 != boxes[j as int].edge.0,
        boxes[i as int].edge.0 != boxes[j as int].edge.1,
        boxes[i as int].edge.1 != boxes[j as int].edge.0,
        boxes[i as int].edge.1 != boxes[j as int].edge.1,
        layers_only ==> boxes[i as int].layer || boxes[j as int].layer,
    ensures
        tested(boxes, layers_only, (i, j)),
{
    assert forall|k: int| i < k <= j implies !boxes[i as int].high[0].lt(
        (#[trigger] boxes[k]).low[0],
    ) by {
        if k < j {
            assert(boxes[k].low[0].le(boxes[j as int].low[0]));
        }
    }
}

/// Only pairs of edges without a common end are tested, and of two boxes beside each other
/// none is.
pub proof fn tested_edges_are_apart(boxes: Seq<EdgeBox>, layers_only: bool, i: usize, j: usize)
    requires
        tested(boxes, layers_only, (i, j)),
    ensures
        i < j < boxes.len(),
        boxes[i as int].edge.0 != boxes[j as int].edge.0,
        boxes[i as int].edge.0 != boxes[j as int].edge.1,
        boxes[i as int].edge.1 != boxes[j as int].edge.0,
        boxes[i as int].edge.1 != boxes[j as int].edge.1,
        !boxes[i as int].high[0].lt(boxes[j as int].low[0]),
        !boxes[i as int].high[1].lt(boxes[j as int].low[1]),
        !boxes[j as int].high[1].lt(boxes[i as int].low[1]),
        layers_only ==> boxes[i as int].layer || boxes[j as int].layer,
{
}

} // verus!
