//! The sweeps that improve a planar mesh: which triangles stand open to change,
//! what each sweep looks at, in which order, and when the work ends.

use vstd::prelude::*;

use crate::assess::QUALITY_TARGET_BITS;
use crate::faces::sort_triple;
#[allow(unused_imports)]
use crate::faces::sorted_triple;
use crate::grouping::Grouping;
#[allow(unused_imports)]
use crate::grouping::{places_are_exact, places_of};
use crate::incidence::next_place;
use crate::number::Real;
#[allow(unused_imports)]
use crate::sorted::Key;
use crate::sorted::{SortedMap, SortedSet};
#[allow(unused_imports)]
use crate::topology::{cell_views, edge_key, CellView};
use crate::topology::{ordered_pair, Cell, EdgeKey, Point, PointKey};

verus! {

/// The greatest skewness that a triangle should have: `0.6`.
pub const SKEWNESS_TARGET_BITS: u64 = 0x3fe3_3333_3333_3333;

/// The Scaled Jacobian that a triangle beside a layer should reach: `0.5`.
pub const TRANSITION_TARGET_BITS: u64 = 0x3fe0_0000_0000_0000;

/// A triangle that edits may change.
pub open spec fn open_triangle(cell: CellView) -> bool {
    !cell.protected && cell.points.len() == 3
}

pub fn is_open_triangle(cell: &Cell) -> (result: bool)
    ensures
        result == open_triangle(cell@),
{
    !cell.protected && cell.points.len() == 3
}

/// The corners of the open triangles, each with its triangle, in order.
pub open spec fn corners_of(cells: Seq<CellView>) -> Seq<(PointKey, usize)>
    decreases cells.len(),
{
    if cells.len() == 0 {
        Seq::empty()
    } else {
        let rest = corners_of(cells.drop_last());
        let cell = cells.last();
        let place = (cells.len() - 1) as usize;
        if open_triangle(cell) {
            rest.push((cell.points[0], place)).push((cell.points[1], place)).push(
                (cell.points[2], place),
            )
        } else {
            rest
        }
    }
}

/// The points of corners.
pub open spec fn corner_points(corners: Seq<(PointKey, usize)>) -> Seq<PointKey> {
    Seq::new(corners.len(), |i: int| corners[i].0)
}

/// The open triangles at a point, once for each corner there, in order.
pub open spec fn open_at(cells: Seq<CellView>, key: PointKey) -> Seq<usize> {
    let corners = corners_of(cells);
    let places = places_of(corner_points(corners), key);
    Seq::new(places.len(), |i: int| corners[places[i] as int].1)
}

/// The corners of the open triangles, gathered by point.
#[derive(Debug)]
pub struct OpenCorners {
    pub owners: Vec<usize>,
    pub groups: Grouping<PointKey>,
}

proof fn corners_stay_open(cells: Seq<CellView>)
    ensures
        forall|i: int|
            0 <= i < corners_of(cells).len() ==> ((#[trigger] corners_of(cells)[i]).1 as int)
                < cells.len() || cells.len() > usize::MAX,
        cells.len() <= usize::MAX ==> forall|i: int|
            0 <= i < corners_of(cells).len() ==> open_triangle(
                cells[(#[trigger] corners_of(cells)[i]).1 as int],
            ) && cells[corners_of(cells)[i].1 as int].points.contains(corners_of(cells)[i].0),
    decreases cells.len(),
{
    if cells.len() > 0 && cells.len() <= usize::MAX {
        let front = cells.drop_last();
        corners_stay_open(front);
        let rest = corners_of(front);
        let all = corners_of(cells);
        assert forall|i: int| 0 <= i < all.len() implies ((#[trigger] all[i]).1 as int) < cells.len()
            && open_triangle(cells[all[i].1 as int]) && cells[all[i].1 as int].points.contains(
            all[i].0,
        ) by {
            if i < rest.len() {
                assert(all[i] == rest[i]);
                assert(front[rest[i].1 as int] == cells[rest[i].1 as int]);
            } else {
                let points = cells.last().points;
                assert(points.contains(points[0]) && points.contains(points[1])
                    && points.contains(points[2]));
            }
        }
    }
}

impl OpenCorners {
    /// The corners are those of these cells.
    pub open spec fn of(self, cells: Seq<CellView>) -> bool {
        let corners = corners_of(cells);
        &&& self.owners@ == Seq::new(corners.len(), |i: int| corners[i].1)
        &&& self.groups.gathers(corner_points(corners))
    }

    pub fn build(cells: &Vec<Cell>) -> (result: OpenCorners)
        ensures
            result.of(cell_views(cells@)),
    {
        let ghost views = cell_views(cells@);
        let mut owners: Vec<usize> = Vec::new();
        let mut points: Vec<PointKey> = Vec::new();
        let mut i: usize = 0;
        while i < cells.len()
            invariant
                i <= cells.len(),
                views == cell_views(cells@),
                owners@.len() == points@.len(),
                owners@.len() == corners_of(views.take(i as int)).len(),
                forall|k: int|
                    0 <= k < owners@.len() ==> (#[trigger] corners_of(views.take(i as int))[k]) == (
                        points@[k],
                        owners@[k],
                    ),
            decreases cells.len() - i,
        {
            proof {
                assert(views.take(i + 1).drop_last() =~= views.take(i as int));
                assert(views.take(i + 1).last() == cells@[i as int]@);
            }
            let cell = &cells[i];
            if is_open_triangle(cell) {
                owners.push(i);
                owners.push(i);
                owners.push(i);
                points.push(cell.points[0]);
                points.push(cell.points[1]);
                points.push(cell.points[2]);
            }
            i += 1;
        }
        assert(views.take(i as int) =~= views);
        let groups = Grouping::gather(&points);
        proof {
            assert(points@ =~= corner_points(corners_of(views)));
            assert(owners@ =~= Seq::new(
                corners_of(views).len(),
                |k: int| corners_of(views)[k].1,
            ));
        }
        OpenCorners { owners, groups }
    }

    /// The open triangles at a point.
    pub(crate) fn at(&self, key: PointKey, Ghost(cells): Ghost<Seq<CellView>>) -> (result: Vec<usize>)
        requires
            self.of(cells),
        ensures
            result@ == open_at(cells, key),
    {
        let ghost corners = corners_of(cells);
        let ghost places = places_of(corner_points(corners), key);
        let mut list: Vec<usize> = Vec::new();
        match self.groups.groups.get(&key) {
            Some(found) => {
                let mut i: usize = 0;
                proof {
                    let total = self.owners.len();
                    places_are_exact(corner_points(corners), key);
                }
                while i < found.len()
                    invariant
                        i <= found.len(),
                        found@ == places,
                        corners == corners_of(cells),
                        self.owners@ == Seq::new(corners.len(), |k: int| corners[k].1),
                        forall|k: int|
                            0 <= k < places.len() ==> (#[trigger] places[k]) < corners.len(),
                        list@.len() == i,
                        forall|k: int|
                            0 <= k < i ==> (#[trigger] list@[k]) == corners[places[k] as int].1,
                    decreases found.len() - i,
                {
                    assert(places[i as int] < corners.len());
                    list.push(self.owners[found[i]]);
                    i += 1;
                }
            },
            None => {},
        }
        assert(list@ =~= open_at(cells, key));
        list
    }
}

proof fn open_cells_at_point(cells: Seq<CellView>, key: PointKey)
    requires
        cells.len() <= usize::MAX,
        corners_of(cells).len() <= usize::MAX,
    ensures
        forall|i: int|
            0 <= i < open_at(cells, key).len() ==> ((#[trigger] open_at(cells, key)[i]) as int)
                < cells.len() && open_triangle(cells[open_at(cells, key)[i] as int])
                && cells[open_at(cells, key)[i] as int].points.contains(key),
{
    corners_stay_open(cells);
    let corners = corners_of(cells);
    places_are_exact(corner_points(corners), key);
    let places = places_of(corner_points(corners), key);
    assert forall|i: int| 0 <= i < open_at(cells, key).len() implies ((#[trigger] open_at(
        cells,
        key,
    )[i]) as int) < cells.len() && open_triangle(cells[open_at(cells, key)[i] as int])
        && cells[open_at(cells, key)[i] as int].points.contains(key) by {
        let place = places[i] as int;
        assert(corner_points(corners)[place] == key);
        assert(corners[place].0 == key);
    }
}

/// The other points of listed cells.
pub open spec fn others_around(cells: Seq<CellView>, list: Seq<usize>, key: PointKey) -> Set<
    PointKey,
> {
    Set::new(
        |other: PointKey|
            other != key && exists|i: int|
                0 <= i < list.len() && cells[#[trigger] list[i] as int].points.contains(other),
    )
}

/// The other points of the listed cells.
pub fn neighbors_around(cells: &Vec<Cell>, list: &Vec<usize>, key: PointKey) -> (result: SortedSet<
    PointKey,
>)
    requires
        forall|i: int| 0 <= i < list@.len() ==> (#[trigger] list@[i]) < cells@.len(),
    ensures
        result.wf(),
        result@ == others_around(cell_views(cells@), list@, key),
{
    let ghost views = cell_views(cells@);
    let mut found = SortedSet::<PointKey>::new();
    let mut i: usize = 0;
    assert(found@ =~= others_around(views, list@.take(0), key));
    while i < list.len()
        invariant
            i <= list.len(),
            views == cell_views(cells@),
            forall|k: int| 0 <= k < list@.len() ==> (#[trigger] list@[k]) < cells@.len(),
            found.wf(),
            found@ == others_around(views, list@.take(i as int), key),
        decreases list.len() - i,
    {
        let cell = &cells[list[i]];
        let ghost before = found@;
        assert(views[list@[i as int] as int] == cell@);
        let mut k: usize = 0;
        while k < cell.points.len()
            invariant
                k <= cell.points.len(),
                found.wf(),
                forall|other: PointKey| #[trigger]
                    found@.contains(other) <==> before.contains(other) || (other != key
                        && cell.points@.take(k as int).contains(other)),
            decreases cell.points.len() - k,
        {
            let point = cell.points[k];
            let ghost so_far = found@;
            if point != key {
                found.insert(point);
            }
            assert forall|other: PointKey| #[trigger] found@.contains(other) <==> before.contains(
                other,
            ) || (other != key && cell.points@.take(k + 1).contains(other)) by {
                let less = cell.points@.take(k as int);
                let more = cell.points@.take(k + 1);
                assert(more[k as int] == point);
                if less.contains(other) {
                    let p = less.index_of(other);
                    assert(more[p] == other);
                }
                if more.contains(other) {
                    let p = more.index_of(other);
                    if p < k {
                        assert(less[p] == other);
                    }
                }
                assert(so_far.contains(other) <==> before.contains(other) || (other != key
                    && less.contains(other)));
            }
            k += 1;
        }
        assert(cell.points@.take(k as int) =~= cell.points@);
        assert(found@ =~= others_around(views, list@.take(i + 1), key)) by {
            let less = list@.take(i as int);
            let more = list@.take(i + 1);
            assert forall|other: PointKey| found@.contains(other) <==> others_around(
                views,
                more,
                key,
            ).contains(other) by {
                assert(more[i as int] == list@[i as int]);
                if before.contains(other) {
                    let p = choose|p: int|
                        0 <= p < less.len() && views[#[trigger] less[p] as int].points.contains(
                            other,
                        );
                    assert(more[p] == less[p]);
                }
                if others_around(views, more, key).contains(other) {
                    let p = choose|p: int|
                        0 <= p < more.len() && views[#[trigger] more[p] as int].points.contains(
                            other,
                        );
                    if p < i {
                        assert(less[p] == more[p]);
                    }
                }
            }
        }
        i += 1;
    }
    assert(list@.take(i as int) =~= list@);
    found
}

/// A point that a sweep may move, with the triangles and points around it.
#[derive(Debug)]
pub struct SmoothTarget {
    pub key: PointKey,
    pub incident: Vec<usize>,
    pub neighbors: SortedSet<PointKey>,
}

/// A point that nothing holds in place.
pub open spec fn free_point(point: Point) -> bool {
    !point.boundary && !point.protected
}

/// The point can be moved: nothing holds it, and three triangles or more stand
/// around it.
pub open spec fn movable(
    cells: Seq<CellView>,
    points: Map<PointKey, Point>,
    key: PointKey,
) -> bool {
    points.dom().contains(key) && free_point(points[key]) && open_at(cells, key).len() >= 3
}

/// The target describes what stands around its point.
pub open spec fn target_of(cells: Seq<CellView>, target: SmoothTarget) -> bool {
    &&& target.incident@ == open_at(cells, target.key)
    &&& target.neighbors.wf()
    &&& target.neighbors@ == others_around(cells, open_at(cells, target.key), target.key)
}

/// The targets are exactly the movable points of a list, in its order.
pub open spec fn targets_of(
    cells: Seq<CellView>,
    points: Map<PointKey, Point>,
    keys: Seq<PointKey>,
    targets: Seq<SmoothTarget>,
) -> bool
    decreases keys.len(),
{
    if keys.len() == 0 {
        targets.len() == 0
    } else if movable(cells, points, keys.last()) {
        targets.len() > 0 && targets.last().key == keys.last() && target_of(cells, targets.last())
            && targets_of(cells, points, keys.drop_last(), targets.drop_last())
    } else {
        targets_of(cells, points, keys.drop_last(), targets)
    }
}

/// The movable points among these keys, in order, with what stands around them.
pub fn smoothing_targets(
    cells: &Vec<Cell>,
    points: &SortedMap<PointKey, Point>,
    keys: &Vec<PointKey>,
) -> (result: Vec<SmoothTarget>)
    requires
        points.wf(),
        corners_of(cell_views(cells@)).len() <= usize::MAX,
    ensures
        targets_of(cell_views(cells@), points@, keys@, result@),
{
    let ghost views = cell_views(cells@);
    let corners = OpenCorners::build(cells);
    let mut targets: Vec<SmoothTarget> = Vec::new();
    let total: usize = cells.len();
    let mut i: usize = 0;
    while i < keys.len()
        invariant
            i <= keys.len(),
            views == cell_views(cells@),
            total == cells@.len(),
            corners.of(views),
            corners_of(views).len() <= usize::MAX,
            points.wf(),
            targets_of(views, points@, keys@.take(i as int), targets@),
        decreases keys.len() - i,
    {
        let key = keys[i];
        let ghost before = targets@;
        proof {
            assert(keys@.take(i + 1).drop_last() =~= keys@.take(i as int));
            assert(keys@.take(i + 1).last() == key);
        }
        let free = match points.get(&key) {
            Some(point) => !point.boundary && !point.protected,
            None => false,
        };
        if free {
            let incident = corners.at(key, Ghost(views));
            if incident.len() >= 3 {
                proof {
                    open_cells_at_point(views, key);
                    assert forall|k: int| 0 <= k < incident@.len() implies (#[trigger] incident@[k])
                        < cells@.len() by {
                        assert(incident@[k] == open_at(views, key)[k]);
                    }
                }
                let neighbors = neighbors_around(cells, &incident, key);
                targets.push(SmoothTarget { key, incident, neighbors });
                assert(targets@.drop_last() =~= before);
            }
        }
        assert(targets_of(views, points@, keys@.take(i + 1), targets@));
        i += 1;
    }
    assert(keys@.take(i as int) =~= keys@);
    targets
}

/// The edge is a side of the cell.
pub open spec fn has_side(cell: CellView, edge: EdgeKey) -> bool {
    exists|k: int|
        0 <= k < cell.points.len() && #[trigger] side_key(cell.points, k) == edge
}

/// The edge at a side of a ring of points.
pub open spec fn side_key(points: Seq<PointKey>, side: int) -> EdgeKey {
    edge_key(points[side], points[(side + 1) % (points.len() as int)])
}

/// The edges of the quads that edits must leave alone.
pub open spec fn layer_edges(cells: Seq<CellView>) -> Set<EdgeKey> {
    Set::new(
        |edge: EdgeKey|
            exists|i: int|
                0 <= i < cells.len() && (#[trigger] cells[i]).protected && cells[i].points.len()
                    == 4 && has_side(cells[i], edge),
    )
}

/// The edges of the quads that edits must leave alone.
pub fn protected_quad_edges(cells: &Vec<Cell>) -> (result: SortedSet<EdgeKey>)
    ensures
        result.wf(),
        result@ == layer_edges(cell_views(cells@)),
{
    let ghost views = cell_views(cells@);
    let mut edges = SortedSet::<EdgeKey>::new();
    let mut i: usize = 0;
    assert(edges@ =~= layer_edges(views.take(0)));
    while i < cells.len()
        invariant
            i <= cells.len(),
            views == cell_views(cells@),
            edges.wf(),
            edges@ == layer_edges(views.take(i as int)),
        decreases cells.len() - i,
    {
        let cell = &cells[i];
        let ghost before = edges@;
        let ghost view = cell@;
        assert(views[i as int] == view);
        if cell.protected && cell.points.len() == 4 {
            let mut side: usize = 0;
            while side < 4
                invariant
                    side <= 4,
                    cell@ == view,
                    view.points.len() == 4,
                    edges.wf(),
                    forall|edge: EdgeKey| #[trigger]
                        edges@.contains(edge) <==> before.contains(edge) || exists|k: int|
                            0 <= k < side && #[trigger] side_key(view.points, k) == edge,
                decreases 4 - side,
            {
                let ghost so_far = edges@;
                let key = ordered_pair(cell.points[side], cell.points[next_place(side, 4)]);
                edges.insert(key);
                assert(key == side_key(view.points, side as int));
                assert forall|edge: EdgeKey| #[trigger] edges@.contains(edge) <==> before.contains(
                    edge,
                ) || exists|k: int|
                    0 <= k < side + 1 && #[trigger] side_key(view.points, k) == edge by {
                    assert(so_far.contains(edge) <==> before.contains(edge) || exists|k: int|
                        0 <= k < side && #[trigger] side_key(view.points, k) == edge);
                    if edge == key {
                        assert(side_key(view.points, side as int) == edge);
                    }
                }
                side += 1;
            }
        }
        assert(edges@ =~= layer_edges(views.take(i + 1))) by {
            let less = views.take(i as int);
            let more = views.take(i + 1);
            assert forall|edge: EdgeKey| edges@.contains(edge) <==> layer_edges(more).contains(
                edge,
            ) by {
                assert(more[i as int] == view);
                if before.contains(edge) {
                    let p = choose|p: int|
                        0 <= p < less.len() && (#[trigger] less[p]).protected && less[p].points.len()
                            == 4 && has_side(less[p], edge);
                    assert(more[p] == less[p]);
                }
                if layer_edges(more).contains(edge) {
                    let p = choose|p: int|
                        0 <= p < more.len() && (#[trigger] more[p]).protected && more[p].points.len()
                            == 4 && has_side(more[p], edge);
                    if p < i {
                        assert(less[p] == more[p]);
                        assert(before.contains(edge));
                    }
                }
            }
        }
        i += 1;
    }
    assert(views.take(i as int) =~= views);
    edges
}

/// The triangle has one of the edges as a side.
pub open spec fn beside(cell: CellView, edges: Set<EdgeKey>) -> bool {
    cell.points.len() == 3 && exists|k: int|
        0 <= k < 3 && edges.contains(#[trigger] side_key(cell.points, k))
}

pub fn triangle_touches_edges(cell: &Cell, edges: &SortedSet<EdgeKey>) -> (result: bool)
    requires
        edges.wf(),
    ensures
        result == beside(cell@, edges@),
{
    if cell.points.len() != 3 {
        return false;
    }
    let mut side: usize = 0;
    while side < 3
        invariant
            side <= 3,
            cell.points@.len() == 3,
            edges.wf(),
            forall|k: int|
                0 <= k < side ==> !edges@.contains(#[trigger] side_key(cell.points@, k)),
        decreases 3 - side,
    {
        if edges.contains(&ordered_pair(cell.points[side], cell.points[next_place(side, 3)])) {
            assert(edges@.contains(side_key(cell@.points, side as int)));
            return true;
        }
        side += 1;
    }
    false
}

/// What was measured of a triangle.
#[derive(Debug, Clone, Copy)]
pub struct ShapeMeasure {
    pub scaled_jacobian: Real,
    pub skewness: Real,
}

/// The Scaled Jacobian that a triangle must reach: more beside a layer.
pub open spec fn required_quality(cell: CellView, edges: Set<EdgeKey>) -> Real {
    if beside(cell, edges) {
        Real { bits: TRANSITION_TARGET_BITS }
    } else {
        Real { bits: QUALITY_TARGET_BITS }
    }
}

/// The triangle is worse than it must be.
pub open spec fn outlier(cell: CellView, edges: Set<EdgeKey>, measure: ShapeMeasure) -> bool {
    measure.scaled_jacobian.lt(required_quality(cell, edges)) || (Real {
        bits: SKEWNESS_TARGET_BITS,
    }).lt(measure.skewness)
}

/// Whether an open triangle is worse than it must be.
pub fn is_outlier(cell: &Cell, edges: &SortedSet<EdgeKey>, measure: ShapeMeasure) -> (result: bool)
    requires
        edges.wf(),
    ensures
        result == outlier(cell@, edges@, measure),
{
    let required = if triangle_touches_edges(cell, edges) {
        Real { bits: TRANSITION_TARGET_BITS }
    } else {
        Real { bits: QUALITY_TARGET_BITS }
    };
    let limit = Real { bits: SKEWNESS_TARGET_BITS };
    measure.scaled_jacobian.less(required) || limit.less(measure.skewness)
}

/// The free points of the outliers among the first cells.
pub open spec fn outlier_points(
    cells: Seq<CellView>,
    points: Map<PointKey, Point>,
    measures: Seq<ShapeMeasure>,
    count: int,
) -> Set<PointKey> {
    Set::new(
        |key: PointKey|
            points.dom().contains(key) && free_point(points[key]) && exists|i: int|
                0 <= i < count && open_triangle(#[trigger] cells[i]) && outlier(
                    cells[i],
                    layer_edges(cells),
                    measures[i],
                ) && cells[i].points.contains(key),
    )
}

/// The points that an outlier sweep looks at: the free points of the open
/// triangles that are worse than they must be.
pub fn outlier_queue(
    cells: &Vec<Cell>,
    points: &SortedMap<PointKey, Point>,
    measures: &Vec<ShapeMeasure>,
) -> (result: SortedSet<PointKey>)
    requires
        points.wf(),
        measures@.len() == cells@.len(),
    ensures
        result.wf(),
        result@ == outlier_points(
            cell_views(cells@),
            points@,
            measures@,
            cells@.len() as int,
        ),
{
    let ghost views = cell_views(cells@);
    let edges = protected_quad_edges(cells);
    let mut queue = SortedSet::<PointKey>::new();
    let mut i: usize = 0;
    assert(queue@ =~= outlier_points(views, points@, measures@, 0));
    while i < cells.len()
        invariant
            i <= cells.len(),
            views == cell_views(cells@),
            points.wf(),
            measures@.len() == cells@.len(),
            edges.wf(),
            edges@ == layer_edges(views),
            queue.wf(),
            queue@ == outlier_points(views, points@, measures@, i as int),
        decreases cells.len() - i,
    {
        let cell = &cells[i];
        let ghost before = queue@;
        assert(views[i as int] == cell@);
        if is_open_triangle(cell) && is_outlier(cell, &edges, measures[i]) {
            let mut k: usize = 0;
            while k < 3
                invariant
                    k <= 3,
                    cell.points@.len() == 3,
                    points.wf(),
                    queue.wf(),
                    forall|key: PointKey| #[trigger]
                        queue@.contains(key) <==> before.contains(key) || (points@.dom().contains(
                            key,
                        ) && free_point(points@[key]) && cell.points@.take(k as int).contains(key)),
                decreases 3 - k,
            {
                let key = cell.points[k];
                let ghost so_far = queue@;
                let free = match points.get(&key) {
                    Some(point) => !point.boundary && !point.protected,
                    None => false,
                };
                if free {
                    queue.insert(key);
                }
                assert forall|other: PointKey| #[trigger] queue@.contains(other)
                    <==> before.contains(other) || (points@.dom().contains(other) && free_point(
                    points@[other],
                ) && cell.points@.take(k + 1).contains(other)) by {
                    let less = cell.points@.take(k as int);
                    let more = cell.points@.take(k + 1);
                    assert(more[k as int] == key);
                    if less.contains(other) {
                        let p = less.index_of(other);
                        assert(more[p] == other);
                    }
                    if more.contains(other) {
                        let p = more.index_of(other);
                        if p < k {
                            assert(less[p] == other);
                        }
                    }
                    assert(so_far.contains(other) <==> before.contains(other) || (
                    points@.dom().contains(other) && free_point(points@[other]) && less.contains(
                        other,
                    )));
                }
                k += 1;
            }
            assert(cell.points@.take(3) =~= cell.points@);
        }
        assert(queue@ =~= outlier_points(views, points@, measures@, i + 1)) by {
            assert forall|key: PointKey| queue@.contains(key) <==> outlier_points(
                views,
                points@,
                measures@,
                i + 1,
            ).contains(key) by {
                assert(before.contains(key) <==> outlier_points(
                    views,
                    points@,
                    measures@,
                    i as int,
                ).contains(key));
                let here = views[i as int];
            }
        }
        i += 1;
    }
    queue
}

/// What was measured of a triangle for its size.
#[derive(Debug, Clone, Copy)]
pub struct SizeMeasure {
    /// The lengths of the three sides.
    pub lengths: [Real; 3],
    pub shape: ShapeMeasure,
    /// The longest side passes its target by more than layers may grow.
    pub too_long: bool,
    /// The longest side passes the shortest by more than layers may grow.
    pub uneven: bool,
}

/// The triangle should be divided.
pub open spec fn wants_division(measure: SizeMeasure) -> bool {
    ||| measure.shape.scaled_jacobian.lt(Real { bits: QUALITY_TARGET_BITS })
    ||| (Real { bits: SKEWNESS_TARGET_BITS }).lt(measure.shape.skewness)
    ||| measure.too_long
    ||| measure.uneven
}

/// One side comes before another: the longer one first, of sides of one length
/// that with the smaller edge.
pub open spec fn longer_side(a: Real, edge_a: EdgeKey, b: Real, edge_b: EdgeKey) -> bool {
    a.total_rank() > b.total_rank() || (a.total_rank() == b.total_rank() && edge_a.before(edge_b))
}

/// The side is the first of those that no constraint holds.
pub open spec fn first_free_side(
    points: Seq<PointKey>,
    lengths: Seq<Real>,
    constraints: Set<EdgeKey>,
    side: int,
) -> bool {
    &&& 0 <= side < 3
    &&& !constraints.contains(side_key(points, side))
    &&& forall|other: int|
        0 <= other < 3 && !constraints.contains(#[trigger] side_key(points, other)) ==> !longer_side(
            lengths[other],
            side_key(points, other),
            lengths[side],
            side_key(points, side),
        )
}

/// Constraints hold all three sides.
pub open spec fn all_held(points: Seq<PointKey>, constraints: Set<EdgeKey>) -> bool {
    forall|side: int| 0 <= side < 3 ==> constraints.contains(#[trigger] side_key(points, side))
}

fn is_longer_side(a: Real, edge_a: EdgeKey, b: Real, edge_b: EdgeKey) -> (result: bool)
    ensures
        result == longer_side(a, edge_a, b, edge_b),
{
    if b.total_less(a) {
        true
    } else if a.total_less(b) {
        false
    } else {
        edge_a.precedes(&edge_b)
    }
}

proof fn longer_side_is_transitive(
    a: Real,
    edge_a: EdgeKey,
    b: Real,
    edge_b: EdgeKey,
    c: Real,
    edge_c: EdgeKey,
)
    ensures
        longer_side(a, edge_a, b, edge_b) && longer_side(b, edge_b, c, edge_c) ==> longer_side(
            a,
            edge_a,
            c,
            edge_c,
        ),
        longer_side(a, edge_a, b, edge_b) && !longer_side(c, edge_c, b, edge_b) ==> !longer_side(
            c,
            edge_c,
            a,
            edge_a,
        ),
{
    if edge_a.before(edge_b) && edge_b.before(edge_c) {
        EdgeKey::transitive(edge_a, edge_b, edge_c);
    }
    if edge_a.before(edge_b) && edge_c.before(edge_a) {
        EdgeKey::transitive(edge_c, edge_a, edge_b);
    }
}

/// The edge at which to split a triangle: of its sides that no constraint
/// holds the longest.
pub fn longest_free_edge(
    points: &Vec<PointKey>,
    lengths: [Real; 3],
    constraints: &SortedSet<EdgeKey>,
) -> (result: Option<EdgeKey>)
    requires
        points@.len() == 3,
        constraints.wf(),
    ensures
        match result {
            Some(edge) => exists|side: int| #[trigger]
                first_free_side(points@, lengths@, constraints@, side) && side_key(points@, side)
                    == edge,
            None => all_held(points@, constraints@),
        },
{
    let mut best: Option<(usize, EdgeKey)> = None;
    let mut side: usize = 0;
    while side < 3
        invariant
            side <= 3,
            points@.len() == 3,
            constraints.wf(),
            match best {
                Some(found) => {
                    &&& found.0 < side
                    &&& found.1 == side_key(points@, found.0 as int)
                    &&& !constraints@.contains(found.1)
                    &&& forall|k: int|
                        0 <= k < side && !constraints@.contains(#[trigger] side_key(points@, k))
                            ==> !longer_side(
                            lengths@[k],
                            side_key(points@, k),
                            lengths@[found.0 as int],
                            found.1,
                        )
                },
                None => forall|k: int|
                    0 <= k < side ==> constraints@.contains(#[trigger] side_key(points@, k)),
            },
        decreases 3 - side,
    {
        let key = ordered_pair(points[side], points[next_place(side, 3)]);
        assert(key == side_key(points@, side as int));
        if !constraints.contains(&key) {
            let better = match best {
                Some(found) => is_longer_side(lengths[side], key, lengths[found.0], found.1),
                None => true,
            };
            proof {
                EdgeKey::irreflexive(key);
                if best is Some && better {
                    let found = best.unwrap();
                    assert forall|k: int|
                        0 <= k < side + 1 && !constraints@.contains(
                            #[trigger] side_key(points@, k),
                        ) implies !longer_side(
                        lengths@[k],
                        side_key(points@, k),
                        lengths@[side as int],
                        key,
                    ) by {
                        if k < side {
                            longer_side_is_transitive(
                                lengths@[side as int],
                                key,
                                lengths@[found.0 as int],
                                found.1,
                                lengths@[k],
                                side_key(points@, k),
                            );
                        }
                    }
                }
            }
            if better {
                best = Some((side, key));
            }
        }
        side += 1;
    }
    match best {
        Some(found) => {
            assert(first_free_side(points@, lengths@, constraints@, found.0 as int));
            Some(found.1)
        },
        None => None,
    }
}

/// The order of one triangle's corners does not matter to this name of it.
pub type Signature = (PointKey, (PointKey, PointKey));

/// The name of a triangle.
pub open spec fn signature(points: Seq<PointKey>) -> Signature {
    sorted_triple(points[0], points[1], points[2])
}

/// What a size sweep does: which edges it splits, and into which triangles it
/// inserts a point.
#[derive(Debug)]
pub struct SizePlan {
    pub splits: SortedSet<EdgeKey>,
    pub inserts: SortedSet<Signature>,
}

/// The triangle is to be divided at this edge.
pub open spec fn split_at(
    cell: CellView,
    measure: SizeMeasure,
    constraints: Set<EdgeKey>,
    edge: EdgeKey,
) -> bool {
    open_triangle(cell) && wants_division(measure) && exists|side: int| #[trigger]
        first_free_side(cell.points, measure.lengths@, constraints, side) && side_key(
            cell.points,
            side,
        ) == edge
}

/// A point is to be inserted into the triangle.
pub open spec fn insert_into(
    cell: CellView,
    measure: SizeMeasure,
    constraints: Set<EdgeKey>,
) -> bool {
    open_triangle(cell) && wants_division(measure) && all_held(cell.points, constraints)
}

/// The edges at which some of the first triangles are to be divided.
pub open spec fn split_edges_of(
    cells: Seq<CellView>,
    measures: Seq<SizeMeasure>,
    constraints: Set<EdgeKey>,
    count: int,
) -> Set<EdgeKey> {
    Set::new(
        |edge: EdgeKey|
            exists|i: int|
                0 <= i < count && split_at(#[trigger] cells[i], measures[i], constraints, edge),
    )
}

/// The first triangles into which a point is to be inserted.
pub open spec fn insertions_of(
    cells: Seq<CellView>,
    measures: Seq<SizeMeasure>,
    constraints: Set<EdgeKey>,
    count: int,
) -> Set<Signature> {
    Set::new(
        |name: Signature|
            exists|i: int|
                0 <= i < count && insert_into(#[trigger] cells[i], measures[i], constraints)
                    && signature(cells[i].points) == name,
    )
}

proof fn one_free_side(
    points: Seq<PointKey>,
    lengths: Seq<Real>,
    constraints: Set<EdgeKey>,
    a: int,
    b: int,
)
    requires
        first_free_side(points, lengths, constraints, a),
        first_free_side(points, lengths, constraints, b),
    ensures
        side_key(points, a) == side_key(points, b),
{
    let x = side_key(points, a);
    let y = side_key(points, b);
    EdgeKey::total(x, y);
    assert(!longer_side(lengths[a], x, lengths[b], y));
    assert(!longer_side(lengths[b], y, lengths[a], x));
}

/// What a size sweep does with the open triangles, given what was measured of
/// each cell.
pub fn plan_size_sweep(
    cells: &Vec<Cell>,
    measures: &Vec<SizeMeasure>,
    constraints: &SortedSet<EdgeKey>,
) -> (result: SizePlan)
    requires
        measures@.len() == cells@.len(),
        constraints.wf(),
    ensures
        result.splits.wf(),
        result.inserts.wf(),
        result.splits@ == split_edges_of(
            cell_views(cells@),
            measures@,
            constraints@,
            cells@.len() as int,
        ),
        result.inserts@ == insertions_of(
            cell_views(cells@),
            measures@,
            constraints@,
            cells@.len() as int,
        ),
{
    let ghost views = cell_views(cells@);
    let mut splits = SortedSet::<EdgeKey>::new();
    let mut inserts = SortedSet::<Signature>::new();
    let mut i: usize = 0;
    assert(splits@ =~= split_edges_of(views, measures@, constraints@, 0));
    assert(inserts@ =~= insertions_of(views, measures@, constraints@, 0));
    while i < cells.len()
        invariant
            i <= cells.len(),
            views == cell_views(cells@),
            measures@.len() == cells@.len(),
            constraints.wf(),
            splits.wf(),
            inserts.wf(),
            splits@ == split_edges_of(views, measures@, constraints@, i as int),
            inserts@ == insertions_of(views, measures@, constraints@, i as int),
        decreases cells.len() - i,
    {
        let cell = &cells[i];
        let measure = measures[i];
        let ghost view = cell@;
        let ghost old_splits = splits@;
        let ghost old_inserts = inserts@;
        let ghost mut chosen: Option<EdgeKey> = None;
        assert(views[i as int] == view);
        let target = Real { bits: QUALITY_TARGET_BITS };
        let limit = Real { bits: SKEWNESS_TARGET_BITS };
        let wanted = measure.shape.scaled_jacobian.less(target) || limit.less(
            measure.shape.skewness,
        ) || measure.too_long || measure.uneven;
        if is_open_triangle(cell) && wanted {
            match longest_free_edge(&cell.points, measure.lengths, constraints) {
                Some(edge) => {
                    splits.insert(edge);
                    proof {
                        chosen = Some(edge);
                    }
                },
                None => {
                    inserts.insert(sort_triple(cell.points[0], cell.points[1], cell.points[2]));
                },
            }
        }
        proof {
            assert forall|edge: EdgeKey| splits@.contains(edge) <==> split_edges_of(
                views,
                measures@,
                constraints@,
                i + 1,
            ).contains(edge) by {
                assert(old_splits.contains(edge) <==> split_edges_of(
                    views,
                    measures@,
                    constraints@,
                    i as int,
                ).contains(edge));
                if split_at(view, measure, constraints@, edge) {
                    let side = choose|side: int| #[trigger]
                        first_free_side(view.points, measure.lengths@, constraints@, side)
                            && side_key(view.points, side) == edge;
                    if chosen is Some {
                        let other = choose|side: int| #[trigger]
                            first_free_side(view.points, measure.lengths@, constraints@, side)
                                && side_key(view.points, side) == chosen.unwrap();
                        one_free_side(view.points, measure.lengths@, constraints@, side, other);
                    }
                    assert(split_at(views[i as int], measures@[i as int], constraints@, edge));
                }
                if chosen == Some(edge) {
                    assert(split_at(views[i as int], measures@[i as int], constraints@, edge));
                }
            }
            assert(splits@ =~= split_edges_of(views, measures@, constraints@, i + 1));
            assert forall|name: Signature| inserts@.contains(name) <==> insertions_of(
                views,
                measures@,
                constraints@,
                i + 1,
            ).contains(name) by {
                assert(old_inserts.contains(name) <==> insertions_of(
                    views,
                    measures@,
                    constraints@,
                    i as int,
                ).contains(name));
                if chosen is Some {
                    let side = choose|side: int| #[trigger]
                        first_free_side(view.points, measure.lengths@, constraints@, side)
                            && side_key(view.points, side) == chosen.unwrap();
                    assert(!constraints@.contains(side_key(view.points, side)));
                }
                let here = views[i as int];
            }
            assert(inserts@ =~= insertions_of(views, measures@, constraints@, i + 1));
        }
        i += 1;
    }
    SizePlan { splits, inserts }
}

/// The greatest skewness that passes the gates, with its slack:
/// `0.6 + 1.0e-12`.
pub const SKEWNESS_GATE_BITS: u64 = 0x3fe3_3333_3333_5662;

/// Whether a mesh with layers is good enough to keep: the worst Scaled Jacobian
/// of its open triangles, its greatest skewness, and the worst Scaled Jacobian
/// beside a layer. The two Jacobians come with their slack.
pub fn quality_gates_met(jacobian: Real, skewness: Real, transition: Real) -> (result: bool)
    ensures
        result == ((Real { bits: QUALITY_TARGET_BITS }).le(jacobian) && skewness.le(
            Real { bits: SKEWNESS_GATE_BITS },
        ) && (Real { bits: TRANSITION_TARGET_BITS }).le(transition)),
{
    let shape = Real { bits: QUALITY_TARGET_BITS };
    let beside = Real { bits: TRANSITION_TARGET_BITS };
    let limit = Real { bits: SKEWNESS_GATE_BITS };
    shape.at_most(jacobian) && skewness.at_most(limit) && beside.at_most(transition)
}

/// How the triangles around an edit compare with what they were.
#[derive(Debug, Clone, Copy)]
pub struct LocalComparison {
    /// The worst Scaled Jacobian is as good, or good enough.
    pub jacobian_kept: bool,
    /// The greatest skewness is as good, or good enough.
    pub skewness_kept: bool,
    /// What is violated is clearly less.
    pub violation_less: bool,
    /// What is violated is about the same.
    pub violation_equal: bool,
    /// The greatest skewness is clearly less.
    pub skewness_less: bool,
    /// The greatest skewness is about the same.
    pub skewness_equal: bool,
    /// The worst distortion is clearly less.
    pub distortion_less: bool,
}

/// Nothing that must be kept got worse, and of violation, skewness and
/// distortion the first that changed got better.
pub open spec fn better_around(comparison: LocalComparison) -> bool {
    &&& comparison.jacobian_kept
    &&& comparison.skewness_kept
    &&& comparison.violation_less || comparison.violation_equal && (comparison.skewness_less
        || comparison.skewness_equal && comparison.distortion_less)
}

/// Whether a point has a better place among its triangles.
pub fn local_quality_is_better(comparison: LocalComparison) -> (result: bool)
    ensures
        result == better_around(comparison),
{
    comparison.jacobian_kept && comparison.skewness_kept && (comparison.violation_less
        || comparison.violation_equal && (comparison.skewness_less || comparison.skewness_equal
        && comparison.distortion_less))
}

/// Whether the split of an edge is kept: it must make the triangles beside it
/// less distorted and nothing worse.
pub fn is_split_kept(comparison: LocalComparison) -> (result: bool)
    ensures
        result == (comparison.jacobian_kept && comparison.skewness_kept
            && comparison.distortion_less),
{
    comparison.jacobian_kept && comparison.skewness_kept && comparison.distortion_less
}

proof fn corners_are_all(cells: Seq<CellView>)
    requires
        cells.len() <= usize::MAX,
    ensures
        forall|c: int, k: int|
            0 <= c < cells.len() && open_triangle(cells[c]) && 0 <= k < 3 ==> corners_of(cells).contains(
                (#[trigger] cells[c].points[k], c as usize),
            ),
        forall|i: int, j: int|
            0 <= i < j < corners_of(cells).len() ==> (#[trigger] corners_of(cells)[i]).1 <= (
            #[trigger] corners_of(cells)[j]).1,
        forall|i: int, j: int|
            0 <= i < j < corners_of(cells).len() && (#[trigger] corners_of(cells)[i]).1 == (
            #[trigger] corners_of(cells)[j]).1 && cells[corners_of(cells)[i].1 as int].points.no_duplicates()
                ==> corners_of(cells)[i].0 != corners_of(cells)[j].0,
    decreases cells.len(),
{
    if cells.len() > 0 {
        let front = cells.drop_last();
        corners_are_all(front);
        corners_stay_open(front);
        let rest = corners_of(front);
        let all = corners_of(cells);
        let points = cells.last().points;
        assert forall|c: int, k: int|
            0 <= c < cells.len() && open_triangle(cells[c]) && 0 <= k < 3 implies all.contains(
            (#[trigger] cells[c].points[k], c as usize),
        ) by {
            if c < front.len() {
                assert(front[c].points[k] == cells[c].points[k]);
                assert(rest.contains((front[c].points[k], c as usize)));
                let m = rest.index_of((front[c].points[k], c as usize));
                assert(all[m] == rest[m]);
            } else {
                assert(all[rest.len() + k] == (points[k], c as usize));
            }
        }
        assert forall|i: int, j: int| 0 <= i < j < all.len() implies (#[trigger] all[i]).1 <= (
        #[trigger] all[j]).1 by {
            if i < rest.len() {
                assert(all[i] == rest[i]);
                if j < rest.len() {
                    assert(all[j] == rest[j]);
                }
            }
        }
        assert forall|i: int, j: int|
            0 <= i < j < all.len() && (#[trigger] all[i]).1 == (#[trigger] all[j]).1
                && cells[all[i].1 as int].points.no_duplicates() implies all[i].0 != all[j].0 by {
            if i < rest.len() {
                assert(all[i] == rest[i]);
                assert((rest[i].1 as int) < front.len());
                if j < rest.len() {
                    assert(all[j] == rest[j]);
                    assert(front[rest[i].1 as int] == cells[rest[i].1 as int]);
                }
            } else {
                assert(all[i].0 == points[i - rest.len()]);
                assert(all[j].0 == points[j - rest.len()]);
            }
        }
    }
}

/// The triangles listed at a point are exactly the open ones that have it as a corner, in
/// order, and each once where no triangle repeats a corner.
pub proof fn open_triangles_are_listed(cells: Seq<CellView>, key: PointKey)
    requires
        cells.len() <= usize::MAX,
        corners_of(cells).len() <= usize::MAX,
    ensures
        forall|c: int|
            0 <= c < cells.len() ==> (#[trigger] open_at(cells, key).contains(c as usize) <==> {
                &&& !cells[c].protected
                &&& cells[c].points.len() == 3
                &&& cells[c].points.contains(key)
            }),
        forall|i: int|
            0 <= i < open_at(cells, key).len() ==> (#[trigger] open_at(cells, key)[i]) < cells.len(),
        (forall|c: int| 0 <= c < cells.len() ==> (#[trigger] cells[c]).points.no_duplicates())
            ==> forall|i: int, j: int|
            0 <= i < j < open_at(cells, key).len() ==> (#[trigger] open_at(cells, key)[i]) < (
            #[trigger] open_at(cells, key)[j]),
{
    open_cells_at_point(cells, key);
    corners_are_all(cells);
    corners_stay_open(cells);
    let corners = corners_of(cells);
    let names = corner_points(corners);
    places_are_exact(names, key);
    let places = places_of(names, key);
    let list = open_at(cells, key);
    assert forall|c: int| 0 <= c < cells.len() implies (#[trigger] list.contains(c as usize) <==> {
        &&& !cells[c].protected
        &&& cells[c].points.len() == 3
        &&& cells[c].points.contains(key)
    }) by {
        if list.contains(c as usize) {
            let m = list.index_of(c as usize);
            assert(list[m] == c as usize);
        }
        if open_triangle(cells[c]) && cells[c].points.contains(key) {
            let k = cells[c].points.index_of(key);
            assert(cells[c].points[k] == key);
            let corner = (cells[c].points[k], c as usize);
            assert(corners.contains(corner));
            let p = corners.index_of(corner);
            assert(names[p] == key);
            assert(places.contains(p as usize));
            let m = places.index_of(p as usize);
            assert(list[m] == corners[p].1);
        }
    }
    if forall|c: int| 0 <= c < cells.len() ==> (#[trigger] cells[c]).points.no_duplicates() {
        assert forall|i: int, j: int| 0 <= i < j < list.len() implies (#[trigger] list[i]) < (
        #[trigger] list[j]) by {
            let a = places[i] as int;
            let b = places[j] as int;
            assert(places[i] < places[j]);
            assert(names[a] == key && names[b] == key);
            assert(corners[a].1 <= corners[b].1);
            assert(cells[corners[a].1 as int].points.no_duplicates());
        }
    }
}

/// The targets of a smoothing pass are, in order, exactly the points of a list that are known,
/// free and have three triangles or more. Each comes with the triangles at it, and its
/// neighbours are the other points of these.
pub proof fn free_points_are_smoothed(
    cells: Seq<CellView>,
    points: Map<PointKey, Point>,
    keys: Seq<PointKey>,
    targets: Seq<SmoothTarget>,
) -> (places: Seq<int>)
    requires
        targets_of(cells, points, keys, targets),
        cells.len() <= usize::MAX,
        corners_of(cells).len() <= usize::MAX,
    ensures
        targets.len() == places.len(),
        forall|i: int, j: int|
            0 <= i < j < places.len() ==> (#[trigger] places[i]) < (#[trigger] places[j]),
        forall|k: int| #[trigger]
            places.contains(k) <==> 0 <= k < keys.len() && points.dom().contains(keys[k])
                && !points[keys[k]].boundary && !points[keys[k]].protected && open_at(
                cells,
                keys[k],
            ).len() >= 3,
        forall|i: int|
            0 <= i < places.len() ==> (#[trigger] targets[i]).key == keys[places[i]]
                && targets[i].incident@ == open_at(cells, targets[i].key),
        forall|i: int, other: PointKey|
            0 <= i < places.len() ==> (#[trigger] targets[i].neighbors@.contains(other) <==> {
                &&& other != targets[i].key
                &&& exists|c: int|
                    0 <= c < cells.len() && !(#[trigger] cells[c]).protected && cells[c].points.len()
                        == 3 && cells[c].points.contains(targets[i].key) && cells[c].points.contains(
                        other,
                    )
            }),
    decreases keys.len(),
{
    if keys.len() == 0 {
        Seq::empty()
    } else {
        let last = keys.len() - 1;
        let front = keys.drop_last();
        if movable(cells, points, keys.last()) {
            let list = free_points_are_smoothed(cells, points, front, targets.drop_last());
            let places = list.push(last);
            assert forall|i: int| 0 <= i < list.len() implies 0 <= (#[trigger] list[i]) < last by {
                assert(list.contains(list[i]));
            }
            assert forall|k: int| #[trigger]
                places.contains(k) <==> 0 <= k < keys.len() && points.dom().contains(keys[k])
                    && !points[keys[k]].boundary && !points[keys[k]].protected && open_at(
                    cells,
                    keys[k],
                ).len() >= 3 by {
                if places.contains(k) {
                    let m = places.index_of(k);
                    if m < list.len() {
                        assert(list[m] == k);
                        assert(list.contains(k));
                        assert(front[k] == keys[k]);
                    }
                }
                if list.contains(k) {
                    let m = list.index_of(k);
                    assert(places[m] == k);
                }
                if k == last {
                    assert(places[list.len() as int] == k);
                }
                if 0 <= k < last {
                    assert(front[k] == keys[k]);
                }
            }
            assert forall|i: int| 0 <= i < places.len() implies (#[trigger] targets[i]).key
                == keys[places[i]] && targets[i].incident@ == open_at(cells, targets[i].key) by {
                if i < list.len() {
                    assert(targets.drop_last()[i] == targets[i]);
                    assert(places[i] == list[i]);
                }
            }
            assert forall|i: int, other: PointKey| 0 <= i < places.len() implies (
            #[trigger] targets[i].neighbors@.contains(other) <==> {
                &&& other != targets[i].key
                &&& exists|c: int|
                    0 <= c < cells.len() && !(#[trigger] cells[c]).protected && cells[c].points.len()
                        == 3 && cells[c].points.contains(targets[i].key) && cells[c].points.contains(
                        other,
                    )
            }) by {
                if i < list.len() {
                    assert(targets.drop_last()[i] == targets[i]);
                } else {
                    neighbors_share_triangle(cells, targets[i].key, other);
                }
            }
            places
        } else {
            let list = free_points_are_smoothed(cells, points, front, targets);
            assert forall|k: int| #[trigger]
                list.contains(k) <==> 0 <= k < keys.len() && points.dom().contains(keys[k])
                    && !points[keys[k]].boundary && !points[keys[k]].protected && open_at(
                    cells,
                    keys[k],
                ).len() >= 3 by {
                if 0 <= k < last {
                    assert(front[k] == keys[k]);
                }
            }
            assert forall|i: int| 0 <= i < list.len() implies (#[trigger] targets[i]).key
                == keys[list[i]] by {
                assert(list.contains(list[i]));
                assert(front[list[i]] == keys[list[i]]);
            }
            list
        }
    }
}

proof fn neighbors_share_triangle(cells: Seq<CellView>, key: PointKey, other: PointKey)
    requires
        cells.len() <= usize::MAX,
        corners_of(cells).len() <= usize::MAX,
    ensures
        others_around(cells, open_at(cells, key), key).contains(other) <==> other != key && exists|c: int|
            0 <= c < cells.len() && !(#[trigger] cells[c]).protected && cells[c].points.len() == 3
                && cells[c].points.contains(key) && cells[c].points.contains(other),
{
    open_triangles_are_listed(cells, key);
    let list = open_at(cells, key);
    if others_around(cells, list, key).contains(other) {
        let i = choose|i: int|
            0 <= i < list.len() && cells[#[trigger] list[i] as int].points.contains(other);
        let c = list[i] as int;
        assert(list.contains(c as usize));
        assert(!cells[c].protected);
    }
    if exists|c: int|
        0 <= c < cells.len() && !(#[trigger] cells[c]).protected && cells[c].points.len() == 3
            && cells[c].points.contains(key) && cells[c].points.contains(other) {
        let c = choose|c: int|
            0 <= c < cells.len() && !(#[trigger] cells[c]).protected && cells[c].points.len() == 3
                && cells[c].points.contains(key) && cells[c].points.contains(other);
        assert(list.contains(c as usize));
        let i = list.index_of(c as usize);
        assert(cells[list[i] as int].points.contains(other));
    }
}

/// A triangle that wants division is either cut at one edge or gets a point inside: cut at the
/// longest of its sides that no constraint holds, where there is one, and filled where
/// constraints hold all three.
pub proof fn divided_triangle_is_cut_or_filled(
    cell: CellView,
    measure: SizeMeasure,
    constraints: Set<EdgeKey>,
    edge: EdgeKey,
)
    requires
        !cell.protected,
        cell.points.len() == 3,
        wants_division(measure),
    ensures
        insert_into(cell, measure, constraints) <==> constraints.contains(
            edge_key(cell.points[0], cell.points[1]),
        ) && constraints.contains(edge_key(cell.points[1], cell.points[2])) && constraints.contains(
            edge_key(cell.points[2], cell.points[0]),
        ),
        insert_into(cell, measure, constraints) <==> !exists|cut: EdgeKey| #[trigger]
            split_at(cell, measure, constraints, cut),
        split_at(cell, measure, constraints, edge) ==> !constraints.contains(edge) && exists|side: int|
            0 <= side < 3 && #[trigger] side_key(cell.points, side) == edge && forall|other: int|
                0 <= other < 3 && !constraints.contains(#[trigger] side_key(cell.points, other))
                    ==> measure.lengths@[other].total_rank() <= measure.lengths@[side].total_rank(),
        forall|cut: EdgeKey|
            #[trigger] split_at(cell, measure, constraints, cut) && split_at(
                cell,
                measure,
                constraints,
                edge,
            ) ==> cut == edge,
{
    let points = cell.points;
    let lengths = measure.lengths@;
    assert(side_key(points, 0) == edge_key(points[0], points[1]));
    assert(side_key(points, 1) == edge_key(points[1], points[2]));
    assert(side_key(points, 2) == edge_key(points[2], points[0]));
    if !all_held(points, constraints) {
        let side = free_side_exists(points, lengths, constraints);
        assert(split_at(cell, measure, constraints, side_key(points, side)));
    }
    assert forall|cut: EdgeKey|
        #[trigger] split_at(cell, measure, constraints, cut) && split_at(
            cell,
            measure,
            constraints,
            edge,
        ) implies cut == edge by {
        let a = choose|side: int| #[trigger]
            first_free_side(points, lengths, constraints, side) && side_key(points, side) == cut;
        let b = choose|side: int| #[trigger]
            first_free_side(points, lengths, constraints, side) && side_key(points, side) == edge;
        one_free_side(points, lengths, constraints, a, b);
    }
    if split_at(cell, measure, constraints, edge) {
        let side = choose|side: int| #[trigger]
            first_free_side(points, lengths, constraints, side) && side_key(points, side) == edge;
        assert(side_key(points, side) == edge);
    }
}

proof fn free_side_exists(
    points: Seq<PointKey>,
    lengths: Seq<Real>,
    constraints: Set<EdgeKey>,
) -> (side: int)
    requires
        !all_held(points, constraints),
    ensures
        first_free_side(points, lengths, constraints, side),
{
    let free = |k: int| !constraints.contains(side_key(points, k));
    let first = |a: int, b: int|
        if !free(b) {
            a
        } else if !free(a) {
            b
        } else if longer_side(lengths[b], side_key(points, b), lengths[a], side_key(points, a)) {
            b
        } else {
            a
        };
    let best = first(first(0, 1), 2);
    let (x, y, z) = (side_key(points, 0), side_key(points, 1), side_key(points, 2));
    EdgeKey::irreflexive(x);
    EdgeKey::irreflexive(y);
    EdgeKey::irreflexive(z);
    longer_side_is_transitive(lengths[0], x, lengths[1], y, lengths[2], z);
    longer_side_is_transitive(lengths[1], y, lengths[0], x, lengths[2], z);
    longer_side_is_transitive(lengths[2], z, lengths[0], x, lengths[1], y);
    longer_side_is_transitive(lengths[2], z, lengths[1], y, lengths[0], x);
    longer_side_is_transitive(lengths[0], x, lengths[2], z, lengths[1], y);
    longer_side_is_transitive(lengths[1], y, lengths[2], z, lengths[0], x);
    assert(!(free(0) == false && free(1) == false && free(2) == false)) by {
        if !free(0) && !free(1) && !free(2) {
            assert forall|side: int| 0 <= side < 3 implies constraints.contains(
                #[trigger] side_key(points, side),
            ) by {
                assert(side == 0 || side == 1 || side == 2);
            }
        }
    }
    if x.before(y) && y.before(x) {
        EdgeKey::transitive(x, y, x);
    }
    if x.before(z) && z.before(x) {
        EdgeKey::transitive(x, z, x);
    }
    if y.before(z) && z.before(y) {
        EdgeKey::transitive(y, z, y);
    }
    assert forall|other: int|
        0 <= other < 3 && !constraints.contains(#[trigger] side_key(points, other)) implies !longer_side(
        lengths[other],
        side_key(points, other),
        lengths[best],
        side_key(points, best),
    ) by {
        assert(other == 0 || other == 1 || other == 2);
    }
    best
}

/// A triangle beside a layer must be at least as good as one elsewhere: an outlier away from
/// layers is one beside them too.
pub proof fn layers_ask_for_more(
    cell: CellView,
    edges: Set<EdgeKey>,
    more: Set<EdgeKey>,
    measure: ShapeMeasure,
)
    requires
        edges.subset_of(more),
        outlier(cell, edges, measure),
    ensures
        outlier(cell, more, measure),
{
    if beside(cell, edges) {
        let k = choose|k: int| 0 <= k < 3 && edges.contains(#[trigger] side_key(cell.points, k));
        assert(more.contains(side_key(cell.points, k)));
    }
}

/// A move is kept only where nothing that must be kept got worse and something got better: not
/// where all is as it was, nor where the violation grew.
pub proof fn kept_move_improves(comparison: LocalComparison)
    requires
        better_around(comparison),
    ensures
        comparison.jacobian_kept && comparison.skewness_kept,
        comparison.violation_less || comparison.skewness_less || comparison.distortion_less,
        comparison.violation_less || comparison.violation_equal,
        !comparison.violation_less && !comparison.skewness_less ==> comparison.skewness_equal
            && comparison.distortion_less,
{
}

/// A smaller violation is enough for a move to be kept where nothing that must be kept got worse.
pub proof fn smaller_violation_is_kept(comparison: LocalComparison)
    requires
        comparison.jacobian_kept,
        comparison.skewness_kept,
        comparison.violation_less || (comparison.violation_equal && comparison.skewness_less),
    ensures
        better_around(comparison),
{
}

} // verus!
