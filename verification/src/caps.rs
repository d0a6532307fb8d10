//! The ends of open layers: seeding the core beside them, and judging the
//! triangles there.

use vstd::prelude::*;

use crate::number::Real;
use crate::sorted::{same_key, SortedMap, SortedSet};
use crate::sweeps::is_open_triangle;
#[allow(unused_imports)]
use crate::sweeps::{open_triangle, side_key};
use crate::topology::{contains_point, ordered_pair, Cell, EdgeKey, Point, PointKey};
#[allow(unused_imports)]
use crate::topology::{cell_views, edge_key, holds_both, CellView};

verus! {

/// How many sizes of a seed chain are tried.
pub const SEED_SCALES: usize = 4;

/// What came of trying a seed chain.
#[derive(Debug, Clone, Copy, PartialEq, Eq, Structural)]
pub enum SeedOutcome {
    /// The core could not be triangulated with it.
    Refused,
    /// The mesh became too large.
    TooLarge,
    /// The chain is not attached to the end, or the mesh became invalid.
    Unfit,
    Fit,
}

/// A chain to try: its size, by its place among the sizes, and how many of its
/// points.
#[derive(Debug, Clone, Copy, PartialEq, Eq, Structural)]
pub struct SeedTrial {
    pub scale: usize,
    pub length: usize,
}

/// What to do next at the end of a layer.
#[derive(Debug, Clone, Copy, PartialEq, Eq, Structural)]
pub enum SeedStep {
    /// Find the chain of this size.
    Chain(usize),
    Try(SeedTrial),
    /// Keep the chain that was chosen, if any.
    Done(Option<SeedTrial>),
}

/// The search for a seed chain at one end of a layer. Beside the boundary every
/// size is tried and the best chain is kept; elsewhere the first that fits.
#[derive(Debug, Clone, Copy, PartialEq, Eq, Structural)]
pub struct SeedSearch {
    pub boundary_adjacent: bool,
    /// The size that is tried.
    pub scale: usize,
    /// The points of the chain that are tried next; none is known yet where it
    /// is zero.
    pub length: usize,
    pub chosen: Option<SeedTrial>,
}

impl SeedSearch {
    pub open spec fn wf(self) -> bool {
        &&& self.scale <= SEED_SCALES
        &&& self.scale == SEED_SCALES ==> self.length == 0
    }

    pub fn new(boundary_adjacent: bool) -> (result: SeedSearch)
        ensures
            result.wf(),
            result == (SeedSearch { boundary_adjacent, scale: 0, length: 0, chosen: None }),
    {
        SeedSearch { boundary_adjacent, scale: 0, length: 0, chosen: None }
    }

    pub open spec fn step(self) -> SeedStep {
        if self.scale >= SEED_SCALES {
            SeedStep::Done(self.chosen)
        } else if self.length == 0 {
            SeedStep::Chain(self.scale)
        } else {
            SeedStep::Try(SeedTrial { scale: self.scale, length: self.length })
        }
    }

    pub fn next(&self) -> (result: SeedStep)
        requires
            self.wf(),
        ensures
            result == self.step(),
    {
        if self.scale >= SEED_SCALES {
            SeedStep::Done(self.chosen)
        } else if self.length == 0 {
            SeedStep::Chain(self.scale)
        } else {
            SeedStep::Try(SeedTrial { scale: self.scale, length: self.length })
        }
    }

    /// Notes how many points the chain of the present size has. Where it has
    /// none the next size follows.
    pub fn chain(&mut self, points: usize)
        requires
            old(self).wf(),
            old(self).step() is Chain,
        ensures
            final(self).wf(),
            *final(self) == (if points == 0 {
                SeedSearch { scale: (old(self).scale + 1) as usize, ..*old(self) }
            } else {
                SeedSearch { length: points, ..*old(self) }
            }),
    {
        if points == 0 {
            self.scale = self.scale + 1;
        } else {
            self.length = points;
        }
    }

    /// Notes what came of a trial, and whether it is better than the one that
    /// was chosen before. A chain that does not fit is shortened; one that fits
    /// ends the search, or beside the boundary the trials of its size.
    pub fn settle(&mut self, outcome: SeedOutcome, better: bool)
        requires
            old(self).wf(),
            old(self).step() is Try,
        ensures
            final(self).wf(),
            *final(self) == settled(*old(self), outcome, better),
    {
        match outcome {
            SeedOutcome::Fit => {
                let trial = SeedTrial { scale: self.scale, length: self.length };
                if self.chosen.is_none() || better {
                    self.chosen = Some(trial);
                }
                self.scale = if self.boundary_adjacent {
                    self.scale + 1
                } else {
                    SEED_SCALES
                };
                self.length = 0;
            },
            _ => {
                if self.length == 1 {
                    self.scale = self.scale + 1;
                }
                self.length = self.length - 1;
            },
        }
    }
}

pub open spec fn settled(search: SeedSearch, outcome: SeedOutcome, better: bool) -> SeedSearch {
    if outcome == SeedOutcome::Fit {
        SeedSearch {
            chosen: if search.chosen is None || better {
                Some(SeedTrial { scale: search.scale, length: search.length })
            } else {
                search.chosen
            },
            scale: if search.boundary_adjacent {
                (search.scale + 1) as usize
            } else {
                SEED_SCALES
            },
            length: 0,
            ..search
        }
    } else if search.length == 1 {
        SeedSearch { scale: (search.scale + 1) as usize, length: 0, ..search }
    } else {
        SeedSearch { length: (search.length - 1) as usize, ..search }
    }
}

/// A search ends: every trial leaves fewer sizes, or the same size and a
/// shorter chain.
pub proof fn trials_run_out(search: SeedSearch, outcome: SeedOutcome, better: bool)
    requires
        search.wf(),
        search.step() is Try,
    ensures
        settled(search, outcome, better).wf(),
        settled(search, outcome, better).scale > search.scale || (settled(
            search,
            outcome,
            better,
        ).scale == search.scale && settled(search, outcome, better).length < search.length),
{
}

/// The edge belongs to a chain of seeds at the end of a layer: it joins the
/// first seed to an end of the layer's edge, or a seed to the next.
pub open spec fn chain_edge(edge: EdgeKey, keys: Seq<PointKey>, other: EdgeKey) -> bool {
    ||| other == edge_key(edge.0, keys[0])
    ||| other == edge_key(edge.1, keys[0])
    ||| exists|i: int| 0 <= i < keys.len() - 1 && #[trigger] link(keys, i) == other
}

pub open spec fn link(keys: Seq<PointKey>, i: int) -> EdgeKey {
    edge_key(keys[i], keys[i + 1])
}

/// Adds the edges of a chain of seeds to the constraints.
pub fn constrain_chain(constraints: &mut SortedSet<EdgeKey>, edge: EdgeKey, keys: &Vec<PointKey>)
    requires
        old(constraints).wf(),
        keys@.len() > 0,
    ensures
        final(constraints).wf(),
        forall|other: EdgeKey| #[trigger]
            final(constraints)@.contains(other) <==> old(constraints)@.contains(other)
                || chain_edge(edge, keys@, other),
{
    let ghost start = constraints@;
    let a = ordered_pair(edge.0, keys[0]);
    let b = ordered_pair(edge.1, keys[0]);
    constraints.insert(a);
    constraints.insert(b);
    let mut i: usize = 0;
    while i < keys.len() - 1
        invariant
            keys@.len() > 0,
            i <= keys@.len() - 1,
            start == old(constraints)@,
            constraints.wf(),
            a == edge_key(edge.0, keys@[0]),
            b == edge_key(edge.1, keys@[0]),
            forall|other: EdgeKey| #[trigger]
                constraints@.contains(other) <==> start.contains(other) || other == a || other == b
                    || exists|k: int| 0 <= k < i && #[trigger] link(keys@, k) == other,
        decreases keys@.len() - i,
    {
        let ghost before = constraints@;
        let key = ordered_pair(keys[i], keys[i + 1]);
        constraints.insert(key);
        assert(key == link(keys@, i as int));
        assert forall|other: EdgeKey| #[trigger] constraints@.contains(other) <==> start.contains(
            other,
        ) || other == a || other == b || exists|k: int|
            0 <= k < i + 1 && #[trigger] link(keys@, k) == other by {
            assert(before.contains(other) <==> start.contains(other) || other == a || other == b
                || exists|k: int| 0 <= k < i && #[trigger] link(keys@, k) == other);
        }
        i = i + 1;
    }
}

/// A triangle holds both ends of the edge and the seed.
pub open spec fn seed_attached(cells: Seq<CellView>, edge: EdgeKey, seed: PointKey) -> bool {
    exists|i: int|
        0 <= i < cells.len() && holds_both(#[trigger] cells[i], edge.0, edge.1)
            && cells[i].points.len() == 3 && cells[i].points.contains(seed)
}

pub fn is_seed_attached(cells: &Vec<Cell>, edge: EdgeKey, seed: PointKey) -> (result: bool)
    ensures
        result == seed_attached(cell_views(cells@), edge, seed),
{
    let ghost views = cell_views(cells@);
    let mut i: usize = 0;
    while i < cells.len()
        invariant
            i <= cells@.len(),
            views == cell_views(cells@),
            forall|k: int|
                0 <= k < i ==> !(holds_both(#[trigger] views[k], edge.0, edge.1)
                    && views[k].points.len() == 3 && views[k].points.contains(seed)),
        decreases cells@.len() - i,
    {
        let points = &cells[i].points;
        assert(views[i as int] == cells@[i as int]@);
        if points.len() == 3 && contains_point(points, edge.0) && contains_point(points, edge.1)
            && contains_point(points, seed) {
            return true;
        }
        i = i + 1;
    }
    false
}

/// An open triangle on one of the edges.
pub open spec fn caps_edge(cell: CellView, edges: Seq<EdgeKey>) -> bool {
    open_triangle(cell) && exists|e: int|
        0 <= e < edges.len() && #[trigger] on_edge(cell, edges[e])
}

pub open spec fn on_edge(cell: CellView, edge: EdgeKey) -> bool {
    holds_both(cell, edge.0, edge.1)
}

/// The triangles at the ends of layers, and those with a side in common with
/// one of them, by their places.
#[derive(Debug)]
pub struct CapPatch {
    pub direct: SortedSet<usize>,
    pub around: SortedSet<usize>,
}

/// The triangle has a side in common with one that caps an edge.
pub open spec fn beside_cap(cells: Seq<CellView>, edges: Seq<EdgeKey>, cell: CellView) -> bool {
    open_triangle(cell) && exists|side: int|
        0 <= side < 3 && cap_side(cells, edges, #[trigger] side_key(cell.points, side))
}

/// The edge is a side of a triangle that caps an edge.
pub open spec fn cap_side(cells: Seq<CellView>, edges: Seq<EdgeKey>, edge: EdgeKey) -> bool {
    exists|i: int, side: int|
        0 <= i < cells.len() && 0 <= side < 3 && caps_edge(cells[i], edges) && #[trigger] side_key(
            cells[i].points,
            side,
        ) == edge
}

fn caps_one(cell: &Cell, edges: &Vec<EdgeKey>) -> (result: bool)
    ensures
        result == caps_edge(cell@, edges@),
{
    if !is_open_triangle(cell) {
        return false;
    }
    let mut e: usize = 0;
    while e < edges.len()
        invariant
            e <= edges@.len(),
            open_triangle(cell@),
            forall|k: int| 0 <= k < e ==> !#[trigger] on_edge(cell@, edges@[k]),
        decreases edges@.len() - e,
    {
        if contains_point(&cell.points, edges[e].0) && contains_point(&cell.points, edges[e].1) {
            assert(on_edge(cell@, edges@[e as int]));
            return true;
        }
        e = e + 1;
    }
    false
}

/// The triangles at the ends of layers and those around them; `None` where
/// there is no triangle at an end.
pub fn cap_patch(cells: &Vec<Cell>, edges: &Vec<EdgeKey>) -> (result: Option<CapPatch>)
    ensures
        ({
            let views = cell_views(cells@);
            let some = exists|i: int|
                0 <= i < views.len() && caps_edge(#[trigger] views[i], edges@);
            &&& result is Some <==> some
            &&& result matches Some(patch) ==> patch.direct.wf() && patch.around.wf() && (forall|
                i: usize,
            | #[trigger]
                patch.direct@.contains(i) <==> i < views.len() && caps_edge(
                    views[i as int],
                    edges@,
                )) && (forall|i: usize| #[trigger]
                patch.around@.contains(i) <==> i < views.len() && beside_cap(
                    views,
                    edges@,
                    views[i as int],
                ))
        }),
{
    let ghost views = cell_views(cells@);
    let mut direct = SortedSet::<usize>::new();
    let mut sides = SortedSet::<EdgeKey>::new();
    let mut i: usize = 0;
    assert(views.take(0).len() == 0);
    while i < cells.len()
        invariant
            i <= cells@.len(),
            views == cell_views(cells@),
            direct.wf(),
            sides.wf(),
            forall|k: usize| #[trigger]
                direct@.contains(k) <==> k < i && caps_edge(views[k as int], edges@),
            forall|edge: EdgeKey| #[trigger]
                sides@.contains(edge) <==> cap_side(views.take(i as int), edges@, edge),
        decreases cells@.len() - i,
    {
        let cell = &cells[i];
        let ghost before = direct@;
        let ghost known = sides@;
        assert(views[i as int] == cell@);
        let caps = caps_one(cell, edges);
        if caps {
            direct.insert(i);
            let first = ordered_pair(cell.points[0], cell.points[1]);
            let second = ordered_pair(cell.points[1], cell.points[2]);
            let third = ordered_pair(cell.points[2], cell.points[0]);
            sides.insert(first);
            sides.insert(second);
            sides.insert(third);
            assert(first == side_key(cell@.points, 0));
            assert(second == side_key(cell@.points, 1));
            assert(third == side_key(cell@.points, 2));
        }
        assert forall|edge: EdgeKey| #[trigger] sides@.contains(edge) <==> cap_side(
            views.take(i + 1),
            edges@,
            edge,
        ) by {
            let less = views.take(i as int);
            let more = views.take(i + 1);
            assert(more[i as int] == cell@);
            assert(known.contains(edge) <==> cap_side(less, edges@, edge));
            if cap_side(less, edges@, edge) {
                let (p, side) = choose|p: int, side: int|
                    0 <= p < less.len() && 0 <= side < 3 && caps_edge(less[p], edges@)
                        && #[trigger] side_key(less[p].points, side) == edge;
                assert(side_key(more[p].points, side) == edge);
            }
            if cap_side(more, edges@, edge) {
                let (p, side) = choose|p: int, side: int|
                    0 <= p < more.len() && 0 <= side < 3 && caps_edge(more[p], edges@)
                        && #[trigger] side_key(more[p].points, side) == edge;
                if p < i {
                    assert(side_key(less[p].points, side) == edge);
                } else {
                    assert(side == 0 || side == 1 || side == 2);
                }
            }
            if caps {
                if edge == side_key(cell@.points, 0) {
                    assert(side_key(more[i as int].points, 0) == edge);
                }
                if edge == side_key(cell@.points, 1) {
                    assert(side_key(more[i as int].points, 1) == edge);
                }
                if edge == side_key(cell@.points, 2) {
                    assert(side_key(more[i as int].points, 2) == edge);
                }
            }
        }
        assert forall|k: usize| #[trigger] direct@.contains(k) <==> k < i + 1 && caps_edge(
            views[k as int],
            edges@,
        ) by {
            assert(before.contains(k) <==> k < i && caps_edge(views[k as int], edges@));
        }
        i = i + 1;
    }
    assert(views.take(i as int) =~= views);
    if direct.items.len() == 0 {
        assert forall|k: int| 0 <= k < views.len() implies !caps_edge(#[trigger] views[k], edges@) by {
            assert(!direct@.contains(k as usize));
        }
        return None;
    }
    assert(direct@.contains(direct.items@[0]));
    assert(caps_edge(views[direct.items@[0] as int], edges@));
    let mut around = SortedSet::<usize>::new();
    let mut c: usize = 0;
    while c < cells.len()
        invariant
            c <= cells@.len(),
            views == cell_views(cells@),
            sides.wf(),
            forall|edge: EdgeKey| #[trigger]
                sides@.contains(edge) <==> cap_side(views, edges@, edge),
            around.wf(),
            forall|k: usize| #[trigger]
                around@.contains(k) <==> k < c && beside_cap(views, edges@, views[k as int]),
        decreases cells@.len() - c,
    {
        let cell = &cells[c];
        let ghost before = around@;
        assert(views[c as int] == cell@);
        if is_open_triangle(cell) {
            let first = ordered_pair(cell.points[0], cell.points[1]);
            let second = ordered_pair(cell.points[1], cell.points[2]);
            let third = ordered_pair(cell.points[2], cell.points[0]);
            assert(first == side_key(cell@.points, 0));
            assert(second == side_key(cell@.points, 1));
            assert(third == side_key(cell@.points, 2));
            if sides.contains(&first) || sides.contains(&second) || sides.contains(&third) {
                assert(beside_cap(views, edges@, cell@));
                around.insert(c);
            } else {
                assert forall|side: int| 0 <= side < 3 implies !cap_side(
                    views,
                    edges@,
                    #[trigger] side_key(cell@.points, side),
                ) by {
                    assert(side == 0 || side == 1 || side == 2);
                }
            }
        }
        assert forall|k: usize| #[trigger] around@.contains(k) <==> k < c + 1 && beside_cap(
            views,
            edges@,
            views[k as int],
        ) by {
            assert(before.contains(k) <==> k < c && beside_cap(views, edges@, views[k as int]));
        }
        c = c + 1;
    }
    Some(CapPatch { direct, around })
}

/// The triangles at the ends of layers are among those around them.
pub proof fn caps_are_around(cells: Seq<CellView>, edges: Seq<EdgeKey>, place: int)
    requires
        0 <= place < cells.len(),
        caps_edge(cells[place], edges),
    ensures
        beside_cap(cells, edges, cells[place]),
{
    let side = side_key(cells[place].points, 0);
    assert(cap_side(cells, edges, side));
}

/// How the triangles at the end of a layer compare with those of another try.
#[derive(Debug, Clone, Copy, PartialEq, Eq, Structural)]
pub struct CapComparison {
    /// The worst triangle at the end reaches the target, now and before.
    pub reaches_target: bool,
    pub reached_target: bool,
    /// The worst of the triangles is clearly better.
    pub better_worst: bool,
    /// The worst is about as good as before.
    pub equal_worst: bool,
    /// The average is clearly better.
    pub better_average: bool,
}

/// Reaching the target comes first, then the worst triangle, then the average.
pub fn cap_seed_quality_is_better(comparison: CapComparison) -> (result: bool)
    ensures
        result == (if comparison.reaches_target != comparison.reached_target {
            comparison.reaches_target
        } else {
            comparison.better_worst || (comparison.equal_worst && comparison.better_average)
        }),
{
    comparison.reaches_target && !comparison.reached_target || comparison.reaches_target
        == comparison.reached_target && (comparison.better_worst || comparison.equal_worst
        && comparison.better_average)
}

/// Whether a change keeps the triangles at the ends of layers as good as they
/// were: there may be none before, but then not none after. `kept` says of the
/// average, the worst and the worst at an end that they did not get worse.
pub fn cap_quality_preserved(before: bool, after: bool, kept: [bool; 3]) -> (result: bool)
    ensures
        result == (!before || (after && kept[0] && kept[1] && kept[2])),
{
    !before || (after && kept[0] && kept[1] && kept[2])
}

/// The point is an end of the edge.
pub open spec fn ends_at(edge: EdgeKey, key: PointKey) -> bool {
    edge.0 == key || edge.1 == key
}

fn is_end(edge: EdgeKey, key: PointKey) -> (result: bool)
    ensures
        result == ends_at(edge, key),
{
    same_key(&edge.0, &key) || same_key(&edge.1, &key)
}

/// The constraints at a point, in order.
pub open spec fn constraints_at(constraints: Seq<EdgeKey>, key: PointKey) -> Seq<EdgeKey> {
    constraints.filter(|edge: EdgeKey| ends_at(edge, key))
}

/// Lists the constraints at a point.
pub fn list_constraints_at(constraints: &SortedSet<EdgeKey>, key: PointKey) -> (result: Vec<EdgeKey>)
    ensures
        result@ == constraints_at(constraints.items@, key),
{
    let ghost keep = |edge: EdgeKey| ends_at(edge, key);
    let mut list: Vec<EdgeKey> = Vec::new();
    let mut i: usize = 0;
    proof {
        reveal(Seq::filter);
    }
    while i < constraints.items.len()
        invariant
            i <= constraints.items@.len(),
            keep == |edge: EdgeKey| ends_at(edge, key),
            list@ == constraints.items@.take(i as int).filter(keep),
        decreases constraints.items@.len() - i,
    {
        let edge = constraints.items[i];
        proof {
            reveal(Seq::filter);
            assert(constraints.items@.take(i + 1).drop_last() =~= constraints.items@.take(i as int));
        }
        if is_end(edge, key) {
            list.push(edge);
        }
        i = i + 1;
    }
    assert(constraints.items@.take(i as int) =~= constraints.items@);
    list
}

/// The first constraint at a point that is not one of the strips', from a place
/// on.
pub open spec fn first_bare(
    constraints: Seq<EdgeKey>,
    strip: Set<EdgeKey>,
    key: PointKey,
    from: int,
) -> Option<EdgeKey>
    decreases constraints.len() - from,
{
    if from < 0 || from >= constraints.len() {
        None
    } else if ends_at(constraints[from], key) && !strip.contains(constraints[from]) {
        Some(constraints[from])
    } else {
        first_bare(constraints, strip, key, from + 1)
    }
}

/// The boundary edge beside the foot of a column at the end of a layer.
pub fn edge_beside(
    constraints: &SortedSet<EdgeKey>,
    strip: &SortedSet<EdgeKey>,
    base: PointKey,
) -> (result: Option<EdgeKey>)
    requires
        strip.wf(),
    ensures
        result == first_bare(constraints.items@, strip@, base, 0),
{
    let mut i: usize = 0;
    while i < constraints.items.len()
        invariant
            i <= constraints.items@.len(),
            strip.wf(),
            first_bare(constraints.items@, strip@, base, 0) == first_bare(
                constraints.items@,
                strip@,
                base,
                i as int,
            ),
        decreases constraints.items@.len() - i,
    {
        let edge = constraints.items[i];
        if is_end(edge, base) && !strip.contains(&edge) {
            return Some(edge);
        }
        i = i + 1;
    }
    None
}

/// The end of an edge that is not the given one.
pub open spec fn far_end(edge: EdgeKey, key: PointKey) -> PointKey {
    if edge.0 == key {
        edge.1
    } else {
        edge.0
    }
}

/// A boundary point that may go, and the point that its edge then leads to.
#[derive(Debug, Clone, Copy, PartialEq, Eq, Structural)]
pub struct CapMerge {
    pub remove: PointKey,
    pub next: PointKey,
}

/// The first end, along the edges, that is neither of two points.
pub open spec fn first_further(edges: Seq<EdgeKey>, a: PointKey, b: PointKey, from: int) -> Option<
    PointKey,
>
    decreases edges.len() - from,
{
    if from < 0 || from >= edges.len() {
        None
    } else if edges[from].0 != a && edges[from].0 != b {
        Some(edges[from].0)
    } else if edges[from].1 != a && edges[from].1 != b {
        Some(edges[from].1)
    } else {
        first_further(edges, a, b, from + 1)
    }
}

/// What merging a short edge at the foot of a column does: the far end goes,
/// where it is a free boundary point between two constraints of which none is a
/// strip's, and another point follows.
pub open spec fn cap_merge(
    points: Map<PointKey, Point>,
    constraints: Seq<EdgeKey>,
    strip: Set<EdgeKey>,
    base: PointKey,
    edge: EdgeKey,
) -> Option<CapMerge> {
    let remove = far_end(edge, base);
    let around = constraints_at(constraints, remove);
    let next = first_further(around, remove, base, 0);
    if points.dom().contains(remove) && !points[remove].protected && points[remove].boundary
        && around.len() == 2 && !strip.contains(around[0]) && !strip.contains(around[1])
        && next is Some {
        Some(CapMerge { remove, next: next->0 })
    } else {
        None
    }
}

/// Whether a short boundary edge at the foot of a column can be merged with the
/// next, and how.
pub fn plan_cap_merge(
    points: &SortedMap<PointKey, Point>,
    constraints: &SortedSet<EdgeKey>,
    strip: &SortedSet<EdgeKey>,
    base: PointKey,
    edge: EdgeKey,
) -> (result: Option<CapMerge>)
    requires
        points.wf(),
        strip.wf(),
    ensures
        result == cap_merge(points@, constraints.items@, strip@, base, edge),
{
    let remove = if same_key(&edge.0, &base) {
        edge.1
    } else {
        edge.0
    };
    let free = match points.get(&remove) {
        Some(point) => !point.protected && point.boundary,
        None => false,
    };
    if !free {
        return None;
    }
    let around = list_constraints_at(constraints, remove);
    if around.len() != 2 || strip.contains(&around[0]) || strip.contains(&around[1]) {
        return None;
    }
    let mut i: usize = 0;
    while i < around.len()
        invariant
            i <= around@.len(),
            around@.len() == 2,
            remove == far_end(edge, base),
            around@ == constraints_at(constraints.items@, remove),
            points@.dom().contains(remove),
            !points@[remove].protected && points@[remove].boundary,
            !strip@.contains(around@[0]) && !strip@.contains(around@[1]),
            first_further(around@, remove, base, 0) == first_further(
                around@,
                remove,
                base,
                i as int,
            ),
        decreases around@.len() - i,
    {
        let (a, b) = around[i];
        if !same_key(&a, &remove) && !same_key(&a, &base) {
            return Some(CapMerge { remove, next: a });
        }
        if !same_key(&b, &remove) && !same_key(&b, &base) {
            return Some(CapMerge { remove, next: b });
        }
        i = i + 1;
    }
    None
}

/// Merges a short boundary edge with the next: the point between them goes, with
/// its constraints and targets, and the ends are joined.
pub fn apply_cap_merge(
    points: &mut SortedMap<PointKey, Point>,
    targets: &mut SortedMap<EdgeKey, Real>,
    constraints: &mut SortedSet<EdgeKey>,
    merge: CapMerge,
    base: PointKey,
)
    requires
        old(points).wf(),
        old(targets).wf(),
        old(constraints).wf(),
    ensures
        final(points).wf(),
        final(targets).wf(),
        final(constraints).wf(),
        final(points)@ == old(points)@.remove(merge.remove),
        forall|edge: EdgeKey| #[trigger]
            final(targets)@.dom().contains(edge) <==> old(targets)@.dom().contains(edge)
                && !ends_at(edge, merge.remove),
        forall|edge: EdgeKey| #[trigger]
            final(targets)@.dom().contains(edge) ==> final(targets)@[edge] == old(targets)@[edge],
        forall|edge: EdgeKey| #[trigger]
            final(constraints)@.contains(edge) <==> (old(constraints)@.contains(edge) && !ends_at(
                edge,
                merge.remove,
            )) || edge == edge_key(base, merge.next),
{
    points.remove(&merge.remove);
    let kept_targets = edges_without(&targets.keys, merge.remove);
    let ghost held = targets@;
    targets.restrict(&kept_targets);
    assert forall|edge: EdgeKey| #[trigger] targets@.dom().contains(edge) <==> held.dom().contains(
        edge,
    ) && !ends_at(edge, merge.remove) by {
        assert(kept_targets@.contains(edge) <==> old(targets).keys@.contains(edge) && !ends_at(
            edge,
            merge.remove,
        ));
    }
    let mut kept = edges_without(&constraints.items, merge.remove);
    kept.insert(ordered_pair(base, merge.next));
    *constraints = kept;
}

fn edges_without(edges: &Vec<EdgeKey>, key: PointKey) -> (result: SortedSet<EdgeKey>)
    ensures
        result.wf(),
        forall|edge: EdgeKey| #[trigger]
            result@.contains(edge) <==> edges@.contains(edge) && !ends_at(edge, key),
{
    let mut kept = SortedSet::<EdgeKey>::new();
    let mut i: usize = 0;
    while i < edges.len()
        invariant
            i <= edges@.len(),
            kept.wf(),
            forall|edge: EdgeKey| #[trigger]
                kept@.contains(edge) <==> (exists|p: int| 0 <= p < i && #[trigger] edges@[p] == edge)
                    && !ends_at(edge, key),
        decreases edges@.len() - i,
    {
        let ghost before = kept@;
        let edge = edges[i];
        if !is_end(edge, key) {
            kept.insert(edge);
        }
        assert forall|other: EdgeKey| #[trigger] kept@.contains(other) <==> (exists|p: int|
            0 <= p < i + 1 && #[trigger] edges@[p] == other) && !ends_at(other, key) by {
            assert(before.contains(other) <==> (exists|p: int|
                0 <= p < i && #[trigger] edges@[p] == other) && !ends_at(other, key));
            if other == edge {
                assert(edges@[i as int] == other);
            }
        }
        i = i + 1;
    }
    assert forall|edge: EdgeKey| #[trigger] kept@.contains(edge) <==> edges@.contains(edge)
        && !ends_at(edge, key) by {
        if edges@.contains(edge) {
            let p = edges@.index_of(edge);
            assert(edges@[p] == edge);
        }
    }
    kept
}

/// The targets with those of the first links of a chain added.
pub open spec fn chain_targets(
    targets: Map<EdgeKey, Real>,
    chain: Seq<PointKey>,
    size: Real,
    count: int,
) -> Map<EdgeKey, Real>
    decreases count,
{
    if count <= 0 {
        targets
    } else {
        chain_targets(targets, chain, size, count - 1).insert(link(chain, count - 1), size)
    }
}

/// Replaces a constraint by a chain of edges; its target, where it has one, is
/// handed on to each of them.
pub fn replace_by_chain(
    constraints: &mut SortedSet<EdgeKey>,
    targets: &mut SortedMap<EdgeKey, Real>,
    edge: EdgeKey,
    chain: &Vec<PointKey>,
)
    requires
        old(constraints).wf(),
        old(targets).wf(),
        chain@.len() > 0,
    ensures
        final(constraints).wf(),
        final(targets).wf(),
        forall|other: EdgeKey| #[trigger]
            final(constraints)@.contains(other) <==> (old(constraints)@.contains(other) && other
                != edge) || exists|i: int|
                0 <= i < chain@.len() - 1 && #[trigger] link(chain@, i) == other,
        final(targets)@ == (if old(targets)@.dom().contains(edge) {
            chain_targets(
                old(targets)@.remove(edge),
                chain@,
                old(targets)@[edge],
                chain@.len() - 1,
            )
        } else {
            old(targets)@
        }),
{
    let ghost start = constraints@;
    let ghost noted = targets@;
    let size = match targets.get(&edge) {
        Some(size) => Some(*size),
        None => None,
    };
    constraints.remove(&edge);
    if size.is_some() {
        targets.remove(&edge);
    }
    let ghost cleared = targets@;
    let mut i: usize = 0;
    while i < chain.len() - 1
        invariant
            chain@.len() > 0,
            i <= chain@.len() - 1,
            constraints.wf(),
            targets.wf(),
            forall|other: EdgeKey| #[trigger]
                constraints@.contains(other) <==> (start.contains(other) && other != edge)
                    || exists|k: int| 0 <= k < i && #[trigger] link(chain@, k) == other,
            match size {
                Some(value) => targets@ == chain_targets(cleared, chain@, value, i as int),
                None => targets@ == cleared,
            },
        decreases chain@.len() - i,
    {
        let ghost before = constraints@;
        let key = ordered_pair(chain[i], chain[i + 1]);
        constraints.insert(key);
        match size {
            Some(value) => {
                targets.insert(key, value);
            },
            None => {},
        }
        assert(key == link(chain@, i as int));
        assert forall|other: EdgeKey| #[trigger] constraints@.contains(other) <==> (start.contains(
            other,
        ) && other != edge) || exists|k: int|
            0 <= k < i + 1 && #[trigger] link(chain@, k) == other by {
            assert(before.contains(other) <==> (start.contains(other) && other != edge)
                || exists|k: int| 0 <= k < i && #[trigger] link(chain@, k) == other);
        }
        i = i + 1;
    }
}

/// The first constraint at a point that no strip has is found.
pub proof fn first_bare_is_first(
    constraints: Seq<EdgeKey>,
    strip: Set<EdgeKey>,
    key: PointKey,
    from: int,
)
    requires
        0 <= from <= constraints.len(),
    ensures
        match first_bare(constraints, strip, key, from) {
            Some(edge) => exists|i: int|
                from <= i < constraints.len() && #[trigger] constraints[i] == edge && (edge.0 == key
                    || edge.1 == key) && !strip.contains(edge) && forall|k: int|
                    from <= k < i ==> strip.contains(#[trigger] constraints[k]) || (
                    constraints[k].0 != key && constraints[k].1 != key),
            None => forall|k: int|
                from <= k < constraints.len() ==> strip.contains(#[trigger] constraints[k]) || (
                constraints[k].0 != key && constraints[k].1 != key),
        },
    decreases constraints.len() - from,
{
    if from < constraints.len() {
        if ends_at(constraints[from], key) && !strip.contains(constraints[from]) {
            assert(constraints[from] == constraints[from]);
        } else {
            first_bare_is_first(constraints, strip, key, from + 1);
            if let Some(edge) = first_bare(constraints, strip, key, from) {
                let i = choose|i: int|
                    from + 1 <= i < constraints.len() && #[trigger] constraints[i] == edge && (
                    edge.0 == key || edge.1 == key) && !strip.contains(edge) && forall|k: int|
                        from + 1 <= k < i ==> strip.contains(#[trigger] constraints[k]) || (
                        constraints[k].0 != key && constraints[k].1 != key);
                assert(constraints[i] == edge);
            }
        }
    }
}

/// The far end of an edge is its other one, and going to the far end twice leads back.
pub proof fn far_end_is_the_other(edge: EdgeKey)
    ensures
        far_end(edge, edge.0) == edge.1,
        far_end(edge, edge.1) == edge.0,
        far_end(edge, far_end(edge, edge.0)) == edge.0,
{
}

/// The next point along edges is an end of one of them and neither of the two points.
pub proof fn further_point_is_another(edges: Seq<EdgeKey>, a: PointKey, b: PointKey, from: int)
    requires
        0 <= from <= edges.len(),
    ensures
        match first_further(edges, a, b, from) {
            Some(key) => key != a && key != b && exists|i: int|
                from <= i < edges.len() && ((#[trigger] edges[i]).0 == key || edges[i].1 == key),
            None => forall|i: int|
                from <= i < edges.len() ==> ((#[trigger] edges[i]).0 == a || edges[i].0 == b) && (
                edges[i].1 == a || edges[i].1 == b),
        },
    decreases edges.len() - from,
{
    if from < edges.len() {
        further_point_is_another(edges, a, b, from + 1);
        assert(edges[from].0 == edges[from].0);
        if first_further(edges, a, b, from) == first_further(edges, a, b, from + 1) {
            if let Some(key) = first_further(edges, a, b, from + 1) {
                let i = choose|i: int|
                    from + 1 <= i < edges.len() && ((#[trigger] edges[i]).0 == key || edges[i].1
                        == key);
                assert(edges[i].0 == key || edges[i].1 == key);
            }
        }
    }
}

/// A short edge is merged only where its far end may go: a free boundary point on exactly
/// two constraints, none of a strip; and a point other than the two follows.
pub proof fn merged_cap_may_go(
    points: Map<PointKey, Point>,
    constraints: Seq<EdgeKey>,
    strip: Set<EdgeKey>,
    base: PointKey,
    edge: EdgeKey,
)
    requires
        edge.0 == base || edge.1 == base,
        edge.0 != edge.1,
    ensures
        cap_merge(points, constraints, strip, base, edge) matches Some(merge) ==> {
            &&& merge.remove != base
            &&& edge.0 == merge.remove || edge.1 == merge.remove
            &&& merge.next != merge.remove
            &&& merge.next != base
            &&& points.dom().contains(merge.remove)
            &&& points[merge.remove].boundary
            &&& !points[merge.remove].protected
        },
{
    let remove = far_end(edge, base);
    further_point_is_another(constraints_at(constraints, remove), remove, base, 0);
}

/// Every link of a chain has the size as target; all other edges keep theirs.
pub proof fn chain_gets_its_targets(
    targets: Map<EdgeKey, Real>,
    chain: Seq<PointKey>,
    size: Real,
    count: int,
    edge: EdgeKey,
)
    requires
        0 <= count,
    ensures
        (exists|i: int| 0 <= i < count && edge_key(chain[i], #[trigger] chain[i + 1]) == edge)
            ==> chain_targets(targets, chain, size, count).dom().contains(edge) && chain_targets(
            targets,
            chain,
            size,
            count,
        )[edge] == size,
        !(exists|i: int| 0 <= i < count && edge_key(chain[i], #[trigger] chain[i + 1]) == edge) ==> {
            &&& chain_targets(targets, chain, size, count).dom().contains(edge)
                == targets.dom().contains(edge)
            &&& chain_targets(targets, chain, size, count)[edge] == targets[edge]
        },
    decreases count,
{
    if count > 0 {
        chain_gets_its_targets(targets, chain, size, count - 1, edge);
        assert(chain[count - 1 + 1] == chain[count]);
        if exists|i: int| 0 <= i < count && edge_key(chain[i], #[trigger] chain[i + 1]) == edge {
            let i = choose|i: int|
                0 <= i < count && edge_key(chain[i], #[trigger] chain[i + 1]) == edge;
            if i < count - 1 {
                assert(edge_key(chain[i], chain[i + 1]) == edge);
            }
        }
    }
}

/// The edges of a chain join the first seed to both ends of the layer's edge and every seed to
/// the next one: from either end every seed can be reached.
pub proof fn chain_reaches_every_seed(edge: EdgeKey, keys: Seq<PointKey>, place: int)
    requires
        0 <= place < keys.len(),
    ensures
        chain_edge(edge, keys, edge_key(edge.0, keys[0])),
        chain_edge(edge, keys, edge_key(edge.1, keys[0])),
        place > 0 ==> chain_edge(edge, keys, edge_key(keys[place - 1], keys[place])),
        forall|other: EdgeKey|
            #[trigger] chain_edge(edge, keys, other) ==> keys.contains(other.0) || keys.contains(
                other.1,
            ),
{
    if place > 0 {
        assert(link(keys, place - 1) == edge_key(keys[place - 1], keys[place]));
    }
    assert(keys.contains(keys[0]));
    assert forall|other: EdgeKey| #[trigger] chain_edge(edge, keys, other) implies keys.contains(
        other.0,
    ) || keys.contains(other.1) by {
        if exists|i: int| 0 <= i < keys.len() - 1 && #[trigger] link(keys, i) == other {
            let i = choose|i: int| 0 <= i < keys.len() - 1 && #[trigger] link(keys, i) == other;
            assert(keys.contains(keys[i]));
        }
    }
}

} // verus!
