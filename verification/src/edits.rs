//! The edits of a 2D mesh: flip, merge, split, insert, collapse, relocate.
//!
//! Each edit first plans on the connectivity alone. The caller measures what
//! the plan names (orientation, quality, a position on the surface) and hands
//! the findings to the edit, which applies the same plan. An edit without a
//! plan leaves the mesh as it was.

use vstd::prelude::*;

use crate::number::{Real, Vector3};
use crate::sorted::{same_key, SortedSet};
use crate::topology::{
    contains_point, edge_cells, find_other, ordered_pair, orient_triangle, Candidate, Cell,
    Point, PointKey, VALID_QUALITY_BITS,
};
#[allow(unused_imports)]
use crate::topology::{
    cell_known, cell_views, cells_known, cells_on_edge, edge_key,
    holds_both, other_point, turned, CellView,
};

verus! {

/// Only the cells changed.
pub open spec fn rest_unchanged(before: Candidate, after: Candidate) -> bool {
    &&& after.points == before.points
    &&& after.construction_failures == before.construction_failures
    &&& after.next_inserted == before.next_inserted
    &&& after.layer_edge_targets == before.layer_edge_targets
}

/// The triangle may be edited.
pub open spec fn free_triangle(cell: CellView) -> bool {
    !cell.protected && cell.points.len() == 3
}

fn is_free_triangle(cell: &Cell) -> (result: bool)
    ensures
        result == free_triangle(cell@),
{
    !cell.protected && cell.points.len() == 3
}

proof fn view_at(cells: Seq<Cell>, i: int)
    requires
        0 <= i < cells.len(),
    ensures
        cell_views(cells)[i] == cells[i]@,
{
}

/// A cell of known points in the list keeps the list known.
proof fn update_keeps_known(
    cells: Seq<CellView>,
    points: Map<PointKey, Point>,
    place: int,
    cell: CellView,
)
    requires
        cells_known(cells, points),
        0 <= place < cells.len(),
        cell_known(cell, points),
    ensures
        cells_known(cells.update(place, cell), points),
{
}

/// Where an edge can be flipped: the two triangles beside it and their far
/// corners.
pub open spec fn flip_plan(cells: Seq<CellView>, a: PointKey, b: PointKey) -> Option<
    (usize, usize, PointKey, PointKey),
> {
    let pair = cells_on_edge(cells, a, b);
    if pair.len() != 2 || !free_triangle(cells[pair[0] as int]) || !free_triangle(
        cells[pair[1] as int],
    ) {
        None
    } else {
        match (
            other_point(cells[pair[0] as int].points, a, b),
            other_point(cells[pair[1] as int].points, a, b),
        ) {
            (Some(c), Some(d)) => if c == d || cells_on_edge(cells, c, d).len() != 0 {
                None
            } else {
                Some((pair[0], pair[1], c, d))
            },
            _ => None,
        }
    }
}

fn plan_flip(candidate: &Candidate, a: PointKey, b: PointKey) -> (result: Option<
    (usize, usize, PointKey, PointKey),
>)
    ensures
        result == flip_plan(candidate.cells_view(), a, b),
        result matches Some(plan) ==> {
            let cells = candidate.cells_view();
            &&& plan.0 < plan.1 < cells.len()
            &&& holds_both(cells[plan.0 as int], a, b)
            &&& holds_both(cells[plan.1 as int], a, b)
            &&& cells[plan.0 as int].points.contains(plan.2)
            &&& cells[plan.1 as int].points.contains(plan.3)
        },
{
    let pair = edge_cells(&candidate.cells, a, b);
    if pair.len() != 2 {
        return None;
    }
    let first: usize = pair[0];
    let second: usize = pair[1];
    proof {
        assert(pair@[0] < pair@[1]);
        view_at(candidate.cells@, first as int);
        view_at(candidate.cells@, second as int);
    }
    if !is_free_triangle(&candidate.cells[first]) || !is_free_triangle(&candidate.cells[second]) {
        return None;
    }
    match find_other(&candidate.cells[first].points, a, b) {
        None => None,
        Some(c) => match find_other(&candidate.cells[second].points, a, b) {
            None => None,
            Some(d) => {
                if same_key(&c, &d) || edge_cells(&candidate.cells, c, d).len() != 0 {
                    None
                } else {
                    Some((first, second, c, d))
                }
            },
        },
    }
}

/// The triangles that a flip would make, before they are oriented.
pub fn flip_triangles(candidate: &Candidate, a: PointKey, b: PointKey) -> (result: Option<
    [[PointKey; 3]; 2],
>)
    ensures
        match flip_plan(candidate.cells_view(), a, b) {
            Some((i, j, c, d)) => result matches Some(triangles) && triangles[0]@ == seq![c, d, a]
                && triangles[1]@ == seq![d, c, b],
            None => result is None,
        },
{
    match plan_flip(candidate, a, b) {
        Some((first, second, c, d)) => {
            let triangles = [[c, d, a], [d, c, b]];
            assert(triangles[0]@ =~= seq![c, d, a]);
            assert(triangles[1]@ =~= seq![d, c, b]);
            Some(triangles)
        },
        None => None,
    }
}

/// The cells after a flip.
pub open spec fn flipped(
    cells: Seq<CellView>,
    a: PointKey,
    b: PointKey,
    plan: (usize, usize, PointKey, PointKey),
    clockwise: Seq<bool>,
) -> Seq<CellView> {
    let (first, second, c, d) = plan;
    cells.update(
        first as int,
        CellView { points: turned(seq![c, d, a], clockwise[0]), ..cells[first as int] },
    ).update(
        second as int,
        CellView { points: turned(seq![d, c, b], clockwise[1]), ..cells[second as int] },
    )
}

/// Replaces the edge between two triangles by the other diagonal. `clockwise`
/// tells which of the new triangles were found to be clockwise.
pub fn apply_flip(candidate: &mut Candidate, a: PointKey, b: PointKey, clockwise: [bool; 2]) -> (result:
    bool)
    requires
        old(candidate).wf(),
    ensures
        final(candidate).wf(),
        rest_unchanged(*old(candidate), *final(candidate)),
        match flip_plan(old(candidate).cells_view(), a, b) {
            Some(plan) => result && final(candidate).cells_view() == flipped(
                old(candidate).cells_view(),
                a,
                b,
                plan,
                clockwise@,
            ),
            None => !result && *final(candidate) == *old(candidate),
        },
{
    let ghost before = candidate.cells_view();
    let (first, second, c, d) = match plan_flip(candidate, a, b) {
        Some(plan) => plan,
        None => {
            return false;
        },
    };
    proof {
        assert(cell_known(before[first as int], candidate.points@));
        assert(cell_known(before[second as int], candidate.points@));
        let x = before[first as int].points;
        let y = before[second as int].points;
        assert(candidate.points@.dom().contains(x[x.index_of(a)]));
        assert(candidate.points@.dom().contains(x[x.index_of(b)]));
        assert(candidate.points@.dom().contains(x[x.index_of(c)]));
        assert(candidate.points@.dom().contains(y[y.index_of(d)]));
    }
    let one = orient_triangle([c, d, a], clockwise[0]);
    let two = orient_triangle([d, c, b], clockwise[1]);
    let ghost goal = flipped(before, a, b, (first, second, c, d), clockwise@);
    let mut left = Cell::triangle(one, candidate.cells[first].leaf);
    left.protected = candidate.cells[first].protected;
    let mut right = Cell::triangle(two, candidate.cells[second].leaf);
    right.protected = candidate.cells[second].protected;
    proof {
        assert([c, d, a]@ =~= seq![c, d, a]);
        assert([d, c, b]@ =~= seq![d, c, b]);
        view_at(candidate.cells@, first as int);
        view_at(candidate.cells@, second as int);
        assert(left@ == goal[first as int]);
        assert(right@ == goal[second as int]);
        update_keeps_known(before, candidate.points@, first as int, left@);
        update_keeps_known(
            before.update(first as int, left@),
            candidate.points@,
            second as int,
            right@,
        );
    }
    candidate.cells.set(first, left);
    candidate.cells.set(second, right);
    assert(candidate.cells_view() =~= goal);
    true
}

/// What was measured of a quad that two triangles would make.
#[derive(Debug, Clone, Copy)]
pub struct QuadShape {
    pub clockwise: bool,
    pub strictly_convex: bool,
    pub self_intersecting: bool,
    /// The quad's Scaled Jacobian.
    pub quality: Real,
    /// The quad's Scaled Jacobian with the comparison slack added.
    pub quality_with_slack: Real,
    /// The worse Scaled Jacobian of the two triangles.
    pub triangle_quality: Real,
}

impl QuadShape {
    /// A convex, simple, valid quad that is no worse than the triangles.
    pub open spec fn accepted(self) -> bool {
        &&& self.strictly_convex
        &&& !self.self_intersecting
        &&& !self.quality_with_slack.lt(self.triangle_quality)
        &&& !self.quality.le(Real { bits: VALID_QUALITY_BITS })
    }

    pub fn is_accepted(&self) -> (result: bool)
        ensures
            result == self.accepted(),
    {
        self.strictly_convex && !self.self_intersecting && !self.quality_with_slack.less(
            self.triangle_quality,
        ) && !self.quality.at_most(Real { bits: VALID_QUALITY_BITS })
    }
}

/// The far corners of two triangles that can form a quad across an edge.
pub open spec fn merge_corners(first: CellView, second: CellView, a: PointKey, b: PointKey) -> Option<
    (PointKey, PointKey),
> {
    if !free_triangle(first) || !free_triangle(second) {
        None
    } else {
        match (other_point(first.points, a, b), other_point(second.points, a, b)) {
            (Some(c), Some(d)) => if c == d {
                None
            } else {
                Some((c, d))
            },
            _ => None,
        }
    }
}

/// The points of the merged quad.
pub open spec fn merged_points(
    corners: (PointKey, PointKey),
    a: PointKey,
    b: PointKey,
    clockwise: bool,
) -> Seq<PointKey> {
    if clockwise {
        seq![b, corners.1, a, corners.0]
    } else {
        seq![corners.0, a, corners.1, b]
    }
}

fn find_corners(first: &Cell, second: &Cell, a: PointKey, b: PointKey) -> (result: Option<
    (PointKey, PointKey),
>)
    ensures
        result == merge_corners(first@, second@, a, b),
        result matches Some(corners) ==> first.points@.contains(corners.0)
            && second.points@.contains(corners.1),
{
    if !is_free_triangle(first) || !is_free_triangle(second) {
        return None;
    }
    match find_other(&first.points, a, b) {
        None => None,
        Some(c) => match find_other(&second.points, a, b) {
            None => None,
            Some(d) => {
                if same_key(&c, &d) {
                    None
                } else {
                    Some((c, d))
                }
            },
        },
    }
}

/// The quad that two triangles would make, before it is oriented.
pub fn merge_quad(candidate: &Candidate, first: usize, second: usize, a: PointKey, b: PointKey) -> (result:
    Option<[PointKey; 4]>)
    requires
        first < candidate.cells@.len(),
        second < candidate.cells@.len(),
    ensures
        match merge_corners(
            candidate.cells_view()[first as int],
            candidate.cells_view()[second as int],
            a,
            b,
        ) {
            Some(corners) => result matches Some(quad) && quad@ == merged_points(
                corners,
                a,
                b,
                false,
            ),
            None => result is None,
        },
{
    match find_corners(&candidate.cells[first], &candidate.cells[second], a, b) {
        Some((c, d)) => {
            let quad = [c, a, d, b];
            assert(quad@ =~= seq![c, a, d, b]);
            Some(quad)
        },
        None => None,
    }
}

/// The quad that two triangles become, where they can and its shape is
/// accepted.
pub fn merged_cell(
    candidate: &Candidate,
    first: usize,
    second: usize,
    a: PointKey,
    b: PointKey,
    shape: &QuadShape,
) -> (result: Option<Cell>)
    requires
        first < candidate.cells@.len(),
        second < candidate.cells@.len(),
    ensures
        match merge_corners(
            candidate.cells_view()[first as int],
            candidate.cells_view()[second as int],
            a,
            b,
        ) {
            Some(corners) => if shape.accepted() {
                result matches Some(cell) && cell@ == (CellView {
                    points: merged_points(corners, a, b, shape.clockwise),
                    leaf: candidate.cells_view()[first as int].leaf,
                    protected: false,
                })
            } else {
                result is None
            },
            None => result is None,
        },
{
    match find_corners(&candidate.cells[first], &candidate.cells[second], a, b) {
        Some((c, d)) => {
            if !shape.is_accepted() {
                return None;
            }
            let quad = if shape.clockwise {
                [b, d, a, c]
            } else {
                [c, a, d, b]
            };
            assert(quad@ =~= merged_points((c, d), a, b, shape.clockwise));
            Some(Cell::quad(quad, candidate.cells[first].leaf, false))
        },
        None => None,
    }
}

/// Where the triangles beside an edge can be merged.
pub open spec fn merge_plan(cells: Seq<CellView>, a: PointKey, b: PointKey) -> Option<
    (usize, usize, (PointKey, PointKey)),
> {
    let pair = cells_on_edge(cells, a, b);
    if pair.len() != 2 {
        None
    } else {
        match merge_corners(cells[pair[0] as int], cells[pair[1] as int], a, b) {
            Some(corners) => Some((pair[0], pair[1], corners)),
            None => None,
        }
    }
}

/// Merges the two triangles beside an edge into one quad.
pub fn apply_merge(candidate: &mut Candidate, a: PointKey, b: PointKey, shape: &QuadShape) -> (result:
    bool)
    requires
        old(candidate).wf(),
    ensures
        final(candidate).wf(),
        rest_unchanged(*old(candidate), *final(candidate)),
        match merge_plan(old(candidate).cells_view(), a, b) {
            Some((first, second, corners)) => if shape.accepted() {
                result && final(candidate).cells_view() == old(candidate).cells_view().update(
                    first as int,
                    CellView {
                        points: merged_points(corners, a, b, shape.clockwise),
                        leaf: old(candidate).cells_view()[first as int].leaf,
                        protected: false,
                    },
                ).remove(second as int)
            } else {
                !result && *final(candidate) == *old(candidate)
            },
            None => !result && *final(candidate) == *old(candidate),
        },
{
    let ghost before = candidate.cells_view();
    let pair = edge_cells(&candidate.cells, a, b);
    if pair.len() != 2 {
        return false;
    }
    let first: usize = pair[0];
    let second: usize = pair[1];
    proof {
        assert(pair@[0] < pair@[1]);
        view_at(candidate.cells@, first as int);
        view_at(candidate.cells@, second as int);
    }
    let quad = match merged_cell(candidate, first, second, a, b, shape) {
        Some(cell) => cell,
        None => {
            return false;
        },
    };
    let ghost goal = before.update(first as int, quad@).remove(second as int);
    proof {
        let x = before[first as int].points;
        let y = before[second as int].points;
        let corners = merge_corners(before[first as int], before[second as int], a, b)->0;
        assert(cell_known(before[first as int], candidate.points@));
        assert(cell_known(before[second as int], candidate.points@));
        assert(candidate.points@.dom().contains(x[x.index_of(a)]));
        assert(candidate.points@.dom().contains(x[x.index_of(b)]));
        other_is_member(x, a, b);
        other_is_member(y, a, b);
        assert(candidate.points@.dom().contains(x[x.index_of(corners.0)]));
        assert(candidate.points@.dom().contains(y[y.index_of(corners.1)]));
        assert(cell_known(quad@, candidate.points@));
        update_keeps_known(before, candidate.points@, first as int, quad@);
        let middle = before.update(first as int, quad@);
        assert forall|i: int| 0 <= i < goal.len() implies cell_known(
            #[trigger] goal[i],
            candidate.points@,
        ) by {
            let k = if i < second {
                i
            } else {
                i + 1
            };
            assert(goal[i] == middle[k]);
        }
    }
    candidate.cells.set(first, quad);
    candidate.cells.remove(second);
    assert(candidate.cells_view() =~= goal);
    true
}

proof fn other_is_member(points: Seq<PointKey>, a: PointKey, b: PointKey)
    ensures
        other_point(points, a, b) matches Some(c) ==> points.contains(c),
{
    other_is_member_from(points, a, b, 0);
}

proof fn other_is_member_from(points: Seq<PointKey>, a: PointKey, b: PointKey, from: int)
    requires
        0 <= from,
    ensures
        crate::topology::other_from(points, a, b, from) matches Some(c) ==> points.contains(c),
    decreases points.len() - from,
{
    if from < points.len() {
        other_is_member_from(points, a, b, from + 1);
    }
}

/// What was measured of the two ways to cut a quad. The triangles are, in
/// order, those of the first way and those of the second.
#[derive(Debug, Clone, Copy)]
pub struct QuadCuts {
    pub clockwise: [bool; 4],
    pub first_quality: Real,
    pub second_quality: Real,
}

/// The two triangles of one way to cut a quad.
pub open spec fn quad_cut(points: Seq<PointKey>, second_way: bool) -> (Seq<PointKey>, Seq<PointKey>) {
    if second_way {
        (seq![points[0], points[1], points[3]], seq![points[1], points[2], points[3]])
    } else {
        (seq![points[0], points[1], points[2]], seq![points[0], points[2], points[3]])
    }
}

/// The first way wins unless the second is better.
pub open spec fn second_cut_wins(cuts: QuadCuts) -> bool {
    !cuts.second_quality.le(cuts.first_quality)
}

/// The cells after a quad was cut.
pub open spec fn cut_cells(cells: Seq<CellView>, index: int, cuts: QuadCuts) -> Seq<CellView> {
    let cell = cells[index];
    let second = second_cut_wins(cuts);
    let (one, two) = quad_cut(cell.points, second);
    let flags = if second {
        (cuts.clockwise[2], cuts.clockwise[3])
    } else {
        (cuts.clockwise[0], cuts.clockwise[1])
    };
    cells.update(
        index,
        CellView { points: turned(one, flags.0), leaf: cell.leaf, protected: false },
    ).push(CellView { points: turned(two, flags.1), leaf: cell.leaf, protected: false })
}

/// Cuts a quad into two triangles, the better way.
pub fn apply_split_quad(candidate: &mut Candidate, index: usize, cuts: &QuadCuts) -> (result: bool)
    requires
        old(candidate).wf(),
    ensures
        final(candidate).wf(),
        rest_unchanged(*old(candidate), *final(candidate)),
        result == (index < old(candidate).cells@.len() && old(
            candidate,
        ).cells_view()[index as int].points.len() == 4 && !old(
            candidate,
        ).cells_view()[index as int].protected),
        result ==> final(candidate).cells_view() == cut_cells(
            old(candidate).cells_view(),
            index as int,
            *cuts,
        ),
        !result ==> *final(candidate) == *old(candidate),
{
    if index >= candidate.cells.len() {
        return false;
    }
    let ghost before = candidate.cells_view();
    proof {
        view_at(candidate.cells@, index as int);
        assert(cell_known(before[index as int], candidate.points@));
    }
    if candidate.cells[index].points.len() != 4 || candidate.cells[index].protected {
        return false;
    }
    let p0 = candidate.cells[index].points[0];
    let p1 = candidate.cells[index].points[1];
    let p2 = candidate.cells[index].points[2];
    let p3 = candidate.cells[index].points[3];
    let leaf = candidate.cells[index].leaf;
    let second = !cuts.second_quality.at_most(cuts.first_quality);
    let one = if second {
        orient_triangle([p0, p1, p3], cuts.clockwise[2])
    } else {
        orient_triangle([p0, p1, p2], cuts.clockwise[0])
    };
    let two = if second {
        orient_triangle([p1, p2, p3], cuts.clockwise[3])
    } else {
        orient_triangle([p0, p2, p3], cuts.clockwise[1])
    };
    let left = Cell::triangle(one, leaf);
    let right = Cell::triangle(two, leaf);
    let ghost goal = cut_cells(before, index as int, *cuts);
    proof {
        let cut = quad_cut(before[index as int].points, second);
        assert([p0, p1, p3]@ =~= seq![p0, p1, p3]);
        assert([p1, p2, p3]@ =~= seq![p1, p2, p3]);
        assert([p0, p1, p2]@ =~= seq![p0, p1, p2]);
        assert([p0, p2, p3]@ =~= seq![p0, p2, p3]);
        let p = before[index as int].points;
        assert(candidate.points@.dom().contains(p[0]));
        assert(candidate.points@.dom().contains(p[1]));
        assert(candidate.points@.dom().contains(p[2]));
        assert(candidate.points@.dom().contains(p[3]));
        assert(cell_known(left@, candidate.points@));
        assert(cell_known(right@, candidate.points@));
    }
    candidate.cells.set(index, left);
    candidate.cells.push(right);
    assert(candidate.cells_view() =~= goal);
    true
}

/// The cell limit as a count of list places.
pub open spec fn cell_capacity(max_cells: u64) -> int {
    if max_cells > usize::MAX {
        usize::MAX as int
    } else {
        max_cells as int
    }
}

pub fn cell_limit(max_cells: u64) -> (result: usize)
    ensures
        result == cell_capacity(max_cells),
{
    if max_cells > usize::MAX as u64 {
        usize::MAX
    } else {
        max_cells as usize
    }
}

/// There is room for so many more cells.
pub open spec fn has_room(count: nat, more: int, max_cells: u64) -> bool {
    if count + more > usize::MAX {
        cell_capacity(max_cells) == usize::MAX
    } else {
        count + more <= cell_capacity(max_cells)
    }
}

fn room_for(count: usize, more: usize, max_cells: u64) -> (result: bool)
    ensures
        result == has_room(count as nat, more as int, max_cells),
{
    count.saturating_add(more) <= cell_limit(max_cells)
}

/// A place for a new or moved point.
#[derive(Debug, Clone, Copy)]
pub struct Site {
    pub uv: [Real; 2],
    pub world: Vector3,
}

pub open spec fn point_at(site: Site, boundary: bool, protected: bool) -> Point {
    Point { uv: site.uv, world: site.world, boundary, protected }
}

/// A point can be inserted into the triangle.
pub open spec fn can_insert(candidate: Candidate, index: int, max_cells: u64) -> bool {
    &&& 0 <= index < candidate.cells@.len()
    &&& free_triangle(candidate.cells_view()[index])
    &&& has_room(candidate.cells@.len(), 2, max_cells)
}

pub fn insert_allowed(candidate: &Candidate, max_cells: u64, index: usize) -> (result: bool)
    ensures
        result == can_insert(*candidate, index as int, max_cells),
{
    index < candidate.cells.len() && is_free_triangle(&candidate.cells[index]) && room_for(
        candidate.cells.len(),
        2,
        max_cells,
    )
}

/// The cells after a point was put into a triangle.
pub open spec fn inserted_cells(cells: Seq<CellView>, index: int, key: PointKey) -> Seq<CellView> {
    let cell = cells[index];
    let p = cell.points;
    let leaf = cell.leaf;
    cells.update(
        index,
        CellView { points: seq![p[0], p[1], key], leaf, protected: false },
    ).push(CellView { points: seq![p[1], p[2], key], leaf, protected: false }).push(
        CellView { points: seq![p[2], p[0], key], leaf, protected: false },
    )
}

proof fn more_points_keep_known(
    cells: Seq<CellView>,
    points: Map<PointKey, Point>,
    more: Map<PointKey, Point>,
)
    requires
        cells_known(cells, points),
        points.dom().subset_of(more.dom()),
    ensures
        cells_known(cells, more),
{
    assert forall|i: int| 0 <= i < cells.len() implies cell_known(#[trigger] cells[i], more) by {
        assert(cell_known(cells[i], points));
        assert forall|k: int| 0 <= k < cells[i].points.len() implies more.dom().contains(
            #[trigger] cells[i].points[k],
        ) by {
            assert(points.dom().contains(cells[i].points[k]));
        }
    }
}

/// Puts a new interior point into a triangle, which becomes three. Without a
/// site nothing is done.
pub fn apply_insert(candidate: &mut Candidate, max_cells: u64, index: usize, site: Option<Site>) -> (result:
    bool)
    requires
        old(candidate).wf(),
        old(candidate).fresh(),
    ensures
        final(candidate).wf(),
        result == (can_insert(*old(candidate), index as int, max_cells) && site is Some),
        !result ==> *final(candidate) == *old(candidate),
        result ==> {
            let key = PointKey::Inserted(old(candidate).next_inserted);
            &&& final(candidate).points@ == old(candidate).points@.insert(
                key,
                point_at(site->0, false, false),
            )
            &&& final(candidate).next_inserted == old(candidate).next_inserted + 1
            &&& final(candidate).cells_view() == inserted_cells(
                old(candidate).cells_view(),
                index as int,
                key,
            )
            &&& final(candidate).construction_failures == old(candidate).construction_failures
            &&& final(candidate).layer_edge_targets == old(candidate).layer_edge_targets
        },
{
    if !insert_allowed(candidate, max_cells, index) {
        return false;
    }
    let site = match site {
        Some(value) => value,
        None => {
            return false;
        },
    };
    let ghost before = candidate.cells_view();
    let ghost known = candidate.points@;
    proof {
        view_at(candidate.cells@, index as int);
        assert(cell_known(before[index as int], known));
    }
    let p0 = candidate.cells[index].points[0];
    let p1 = candidate.cells[index].points[1];
    let p2 = candidate.cells[index].points[2];
    let leaf = candidate.cells[index].leaf;
    let key = PointKey::Inserted(candidate.next_inserted);
    candidate.next_inserted = candidate.next_inserted + 1;
    let point = Point { uv: site.uv, world: site.world, boundary: false, protected: false };
    candidate.points.insert(key, point);
    let one = Cell::triangle([p0, p1, key], leaf);
    let two = Cell::triangle([p1, p2, key], leaf);
    let three = Cell::triangle([p2, p0, key], leaf);
    let ghost goal = inserted_cells(before, index as int, key);
    proof {
        let p = before[index as int].points;
        assert(known.dom().contains(p[0]));
        assert(known.dom().contains(p[1]));
        assert(known.dom().contains(p[2]));
        assert([p0, p1, key]@ =~= seq![p0, p1, key]);
        assert([p1, p2, key]@ =~= seq![p1, p2, key]);
        assert([p2, p0, key]@ =~= seq![p2, p0, key]);
        more_points_keep_known(before, known, candidate.points@);
        assert(cell_known(one@, candidate.points@));
        assert(cell_known(two@, candidate.points@));
        assert(cell_known(three@, candidate.points@));
    }
    candidate.cells.set(index, one);
    candidate.cells.push(two);
    candidate.cells.push(three);
    assert(candidate.cells_view() =~= goal);
    true
}

/// The far corners of the triangles beside an edge that can be split.
pub open spec fn split_plan(candidate: Candidate, a: PointKey, b: PointKey, max_cells: u64) -> Option<
    Seq<(usize, PointKey)>,
> {
    let cells = candidate.cells_view();
    let pair = cells_on_edge(cells, a, b);
    if pair.len() == 0 || pair.len() > 2 || !has_room(cells.len(), pair.len() as int, max_cells) {
        None
    } else if exists|i: int|
        0 <= i < pair.len() && (!free_triangle(cells[(#[trigger] pair[i]) as int]) || other_point(
            cells[pair[i] as int].points,
            a,
            b,
        ) is None) {
        None
    } else if pair.len() == 1 && (!candidate.points@[a].boundary || !candidate.points@[b].boundary) {
        None
    } else {
        Some(
            Seq::new(
                pair.len(),
                |i: int| (pair[i], other_point(cells[pair[i] as int].points, a, b)->0),
            ),
        )
    }
}

/// The cells after one triangle beside the edge was split at the new point.
pub open spec fn split_once(
    cells: Seq<CellView>,
    a: PointKey,
    b: PointKey,
    key: PointKey,
    step: (usize, PointKey),
    clockwise: (bool, bool),
) -> Seq<CellView> {
    let cell = cells[step.0 as int];
    cells.update(
        step.0 as int,
        CellView { points: turned(seq![a, key, step.1], clockwise.0), ..cell },
    ).push(
        CellView {
            points: turned(seq![key, b, step.1], clockwise.1),
            leaf: cell.leaf,
            protected: false,
        },
    )
}

/// The cells after every triangle beside the edge was split.
pub open spec fn split_cells(
    cells: Seq<CellView>,
    a: PointKey,
    b: PointKey,
    key: PointKey,
    plan: Seq<(usize, PointKey)>,
    clockwise: Seq<bool>,
) -> Seq<CellView> {
    let one = split_once(cells, a, b, key, plan[0], (clockwise[0], clockwise[1]));
    if plan.len() == 1 {
        one
    } else {
        split_once(one, a, b, key, plan[1], (clockwise[2], clockwise[3]))
    }
}

fn plan_split(candidate: &Candidate, a: PointKey, b: PointKey, max_cells: u64) -> (result: Option<
    Vec<(usize, PointKey)>,
>)
    requires
        candidate.wf(),
    ensures
        match split_plan(*candidate, a, b, max_cells) {
            Some(plan) => result matches Some(list) && list@ == plan,
            None => result is None,
        },
        result matches Some(list) ==> {
            &&& 1 <= list.len() <= 2
            &&& list.len() == 2 ==> list[0].0 < list[1].0
            &&& candidate.points@.dom().contains(a)
            &&& candidate.points@.dom().contains(b)
            &&& forall|i: int|
                0 <= i < list.len() ==> (#[trigger] list[i]).0 < candidate.cells@.len()
                    && candidate.points@.dom().contains(list[i].1)
                    && candidate.cells_view()[list[i].0 as int].points.len() == 3
                    && !candidate.cells_view()[list[i].0 as int].protected
        },
{
    let ghost cells = candidate.cells_view();
    let pair = edge_cells(&candidate.cells, a, b);
    if pair.len() == 0 || pair.len() > 2 || !room_for(candidate.cells.len(), pair.len(), max_cells) {
        return None;
    }
    let mut list: Vec<(usize, PointKey)> = Vec::new();
    let mut i: usize = 0;
    while i < pair.len()
        invariant
            i <= pair.len() <= 2,
            candidate.wf(),
            cells == candidate.cells_view(),
            pair@ == cells_on_edge(cells, a, b),
            forall|k: int|
                0 <= k < pair.len() ==> (#[trigger] pair[k]) < cells.len() && holds_both(
                    cells[pair[k] as int],
                    a,
                    b,
                ),
            has_room(cells.len(), pair.len() as int, max_cells),
            pair.len() > 0,
            list.len() == i,
            forall|k: int|
                0 <= k < i ==> free_triangle(cells[(#[trigger] pair[k]) as int]) && other_point(
                    cells[pair[k] as int].points,
                    a,
                    b,
                ) == Some(list[k].1) && list[k].0 == pair[k] && candidate.points@.dom().contains(
                    list[k].1,
                ),
        decreases pair.len() - i,
    {
        let place: usize = pair[i];
        proof {
            view_at(candidate.cells@, place as int);
            assert(cell_known(cells[place as int], candidate.points@));
        }
        if !is_free_triangle(&candidate.cells[place]) {
            return None;
        }
        match find_other(&candidate.cells[place].points, a, b) {
            None => {
                return None;
            },
            Some(c) => {
                proof {
                    let p = cells[place as int].points;
                    assert(candidate.points@.dom().contains(p[p.index_of(c)]));
                }
                list.push((place, c));
            },
        }
        i = i + 1;
    }
    proof {
        let p = cells[pair[0] as int].points;
        assert(holds_both(cells[pair[0] as int], a, b));
        assert(cell_known(cells[pair[0] as int], candidate.points@));
        assert(candidate.points@.dom().contains(p[p.index_of(a)]));
        assert(candidate.points@.dom().contains(p[p.index_of(b)]));
    }
    if pair.len() == 1 {
        let a_boundary = match candidate.points.get(&a) {
            Some(point) => point.boundary,
            None => false,
        };
        let b_boundary = match candidate.points.get(&b) {
            Some(point) => point.boundary,
            None => false,
        };
        if !a_boundary || !b_boundary {
            return None;
        }
    }
    proof {
        let plan = split_plan(*candidate, a, b, max_cells);
        assert(plan is Some);
        assert(list@ =~= plan->0);
        assert forall|k: int| 0 <= k < list.len() implies (#[trigger] list[k]).0
            < candidate.cells@.len() && candidate.points@.dom().contains(list[k].1)
            && candidate.cells_view()[list[k].0 as int].points.len() == 3
            && !candidate.cells_view()[list[k].0 as int].protected by {
            assert(list[k].0 == pair[k]);
            assert(free_triangle(cells[pair[k] as int]));
        }
        if list.len() == 2 {
            assert(list[0].0 == pair[0]);
            assert(list[1].0 == pair[1]);
        }
    }
    Some(list)
}

/// The triangles beside an edge that can be split, each with its far corner.
pub fn split_sides(candidate: &Candidate, a: PointKey, b: PointKey, max_cells: u64) -> (result: Option<
    Vec<(usize, PointKey)>,
>)
    requires
        candidate.wf(),
    ensures
        match split_plan(*candidate, a, b, max_cells) {
            Some(plan) => result matches Some(list) && list@ == plan,
            None => result is None,
        },
{
    plan_split(candidate, a, b, max_cells)
}

/// Splits an edge at a new point, and with it the triangles beside the edge.
/// The point lies on the boundary where the edge does. `clockwise` tells, for
/// each triangle beside the edge in turn, which of its two parts were found to
/// be clockwise.
pub fn apply_split(
    candidate: &mut Candidate,
    max_cells: u64,
    a: PointKey,
    b: PointKey,
    site: Option<Site>,
    clockwise: [bool; 4],
) -> (result: bool)
    requires
        old(candidate).wf(),
        old(candidate).fresh(),
    ensures
        final(candidate).wf(),
        match split_plan(*old(candidate), a, b, max_cells) {
            Some(plan) => if site is Some {
                let key = PointKey::Inserted(old(candidate).next_inserted);
                &&& result
                &&& final(candidate).points@ == old(candidate).points@.insert(
                    key,
                    point_at(site->0, plan.len() == 1, false),
                )
                &&& final(candidate).next_inserted == old(candidate).next_inserted + 1
                &&& final(candidate).cells_view() == split_cells(
                    old(candidate).cells_view(),
                    a,
                    b,
                    key,
                    plan,
                    clockwise@,
                )
                &&& final(candidate).construction_failures == old(candidate).construction_failures
                &&& final(candidate).layer_edge_targets == old(candidate).layer_edge_targets
            } else {
                !result && *final(candidate) == *old(candidate)
            },
            None => !result && *final(candidate) == *old(candidate),
        },
{
    let plan = match plan_split(candidate, a, b, max_cells) {
        Some(list) => list,
        None => {
            return false;
        },
    };
    let site = match site {
        Some(value) => value,
        None => {
            return false;
        },
    };
    let ghost before = candidate.cells_view();
    let ghost known = candidate.points@;
    let boundary = plan.len() == 1;
    let key = PointKey::Inserted(candidate.next_inserted);
    candidate.next_inserted = candidate.next_inserted + 1;
    let point = Point { uv: site.uv, world: site.world, boundary, protected: false };
    candidate.points.insert(key, point);
    proof {
        more_points_keep_known(before, known, candidate.points@);
    }
    let (place, c) = plan[0];
    split_one(candidate, a, b, key, place, c, clockwise[0], clockwise[1]);
    if plan.len() == 2 {
        let (place, c) = plan[1];
        proof {
            let one = candidate.cells_view();
            assert(one[place as int] == before[place as int]);
        }
        split_one(candidate, a, b, key, place, c, clockwise[2], clockwise[3]);
    }
    true
}

fn split_one(
    candidate: &mut Candidate,
    a: PointKey,
    b: PointKey,
    key: PointKey,
    place: usize,
    c: PointKey,
    first_clockwise: bool,
    second_clockwise: bool,
)
    requires
        old(candidate).wf(),
        place < old(candidate).cells@.len(),
        old(candidate).points@.dom().contains(a),
        old(candidate).points@.dom().contains(b),
        old(candidate).points@.dom().contains(c),
        old(candidate).points@.dom().contains(key),
    ensures
        final(candidate).wf(),
        rest_unchanged(*old(candidate), *final(candidate)),
        final(candidate).cells_view() == split_once(
            old(candidate).cells_view(),
            a,
            b,
            key,
            (place, c),
            (first_clockwise, second_clockwise),
        ),
{
    let ghost before = candidate.cells_view();
    let leaf = candidate.cells[place].leaf;
    let one = orient_triangle([a, key, c], first_clockwise);
    let two = orient_triangle([key, b, c], second_clockwise);
    let mut left = Cell::triangle(one, leaf);
    left.protected = candidate.cells[place].protected;
    let right = Cell::triangle(two, leaf);
    let ghost goal = split_once(
        before,
        a,
        b,
        key,
        (place, c),
        (first_clockwise, second_clockwise),
    );
    proof {
        view_at(candidate.cells@, place as int);
        assert([a, key, c]@ =~= seq![a, key, c]);
        assert([key, b, c]@ =~= seq![key, b, c]);
        assert(cell_known(left@, candidate.points@));
        assert(cell_known(right@, candidate.points@));
    }
    candidate.cells.set(place, left);
    candidate.cells.push(right);
    assert(candidate.cells_view() =~= goal);
}

/// The points with one of them renamed.
pub open spec fn renamed(points: Seq<PointKey>, from: PointKey, to: PointKey) -> Seq<PointKey> {
    points.map_values(
        |point: PointKey|
            if point == from {
                to
            } else {
                point
            },
    )
}

/// The cells with one point renamed; those that then hold a point twice are
/// gone.
pub open spec fn collapsed(cells: Seq<CellView>, from: PointKey, to: PointKey) -> Seq<CellView>
    decreases cells.len(),
{
    if cells.len() == 0 {
        Seq::empty()
    } else {
        let rest = collapsed(cells.drop_last(), from, to);
        let points = renamed(cells.last().points, from, to);
        if points.no_duplicates() {
            rest.push(CellView { points, ..cells.last() })
        } else {
            rest
        }
    }
}

/// No cell at either end is protected or a quad.
pub open spec fn collapse_free(cells: Seq<CellView>, a: PointKey, b: PointKey) -> bool {
    forall|i: int|
        0 <= i < cells.len() && (cells[i].points.contains(a) || cells[i].points.contains(b))
            ==> free_triangle(#[trigger] cells[i])
}

/// The point that stays and the one that goes when an edge collapses: the
/// boundary point stays, else the smaller one.
pub open spec fn collapse_plan(candidate: Candidate, a: PointKey, b: PointKey) -> Option<
    (PointKey, PointKey),
> {
    let cells = candidate.cells_view();
    let first = candidate.points@[a];
    let second = candidate.points@[b];
    let pair = cells_on_edge(cells, a, b);
    if first.protected || second.protected || !collapse_free(cells, a, b) {
        None
    } else if first.boundary && second.boundary {
        if pair.len() == 1 {
            Some(edge_key(a, b))
        } else {
            None
        }
    } else if pair.len() != 2 {
        None
    } else if first.boundary {
        Some((a, b))
    } else if second.boundary {
        Some((b, a))
    } else {
        Some(edge_key(a, b))
    }
}

fn collapse_is_free(cells: &Vec<Cell>, a: PointKey, b: PointKey) -> (result: bool)
    ensures
        result == collapse_free(cell_views(cells@), a, b),
{
    let ghost views = cell_views(cells@);
    let mut i: usize = 0;
    while i < cells.len()
        invariant
            i <= cells.len(),
            views == cell_views(cells@),
            forall|k: int|
                0 <= k < i && (views[k].points.contains(a) || views[k].points.contains(b))
                    ==> free_triangle(#[trigger] views[k]),
        decreases cells.len() - i,
    {
        assert(views[i as int] == cells[i as int]@);
        if (contains_point(&cells[i].points, a) || contains_point(&cells[i].points, b))
            && !is_free_triangle(&cells[i]) {
            return false;
        }
        i = i + 1;
    }
    true
}

/// Whether an edge lies with both ends on the boundary.
pub open spec fn boundary_ends(candidate: Candidate, a: PointKey, b: PointKey) -> bool {
    candidate.points@[a].boundary && candidate.points@[b].boundary
}

/// The point that stays and the one that goes when the edge collapses.
pub fn collapse_ends(candidate: &Candidate, a: PointKey, b: PointKey) -> (result: Option<
    (PointKey, PointKey),
>)
    requires
        candidate.wf(),
        candidate.points@.dom().contains(a),
        candidate.points@.dom().contains(b),
    ensures
        result == collapse_plan(*candidate, a, b),
{
    let (a_protected, a_boundary) = match candidate.points.get(&a) {
        Some(point) => (point.protected, point.boundary),
        None => (false, false),
    };
    let (b_protected, b_boundary) = match candidate.points.get(&b) {
        Some(point) => (point.protected, point.boundary),
        None => (false, false),
    };
    let pair = edge_cells(&candidate.cells, a, b);
    if a_protected || b_protected || !collapse_is_free(&candidate.cells, a, b) {
        None
    } else if a_boundary && b_boundary {
        if pair.len() == 1 {
            Some(ordered_pair(a, b))
        } else {
            None
        }
    } else if pair.len() != 2 {
        None
    } else if a_boundary {
        Some((a, b))
    } else if b_boundary {
        Some((b, a))
    } else {
        Some(ordered_pair(a, b))
    }
}

fn rename_points(points: &Vec<PointKey>, from: PointKey, to: PointKey) -> (result: Vec<PointKey>)
    ensures
        result@ == renamed(points@, from, to),
{
    let mut list: Vec<PointKey> = Vec::new();
    let mut i: usize = 0;
    while i < points.len()
        invariant
            i <= points.len(),
            list@ == renamed(points@, from, to).take(i as int),
        decreases points.len() - i,
    {
        let point = if same_key(&points[i], &from) {
            to
        } else {
            points[i]
        };
        list.push(point);
        assert(renamed(points@, from, to).take(i as int + 1) =~= renamed(
            points@,
            from,
            to,
        ).take(i as int).push(point));
        i = i + 1;
    }
    assert(list@ =~= renamed(points@, from, to));
    list
}

/// Whether no point occurs twice.
pub fn all_distinct(points: &Vec<PointKey>) -> (result: bool)
    ensures
        result == points@.no_duplicates(),
{
    let mut i: usize = 0;
    while i < points.len()
        invariant
            i <= points.len(),
            forall|p: int, q: int|
                0 <= p < i && p < q < points.len() ==> points[p] != points[q],
        decreases points.len() - i,
    {
        let mut j: usize = i + 1;
        while j < points.len()
            invariant
                i < j <= points.len(),
                forall|q: int| i < q < j ==> points[i as int] != points[q],
            decreases points.len() - j,
        {
            if same_key(&points[i], &points[j]) {
                assert(points@[i as int] == points@[j as int]);
                return false;
            }
            j = j + 1;
        }
        i = i + 1;
    }
    true
}

proof fn collapsed_is_known(
    cells: Seq<CellView>,
    points: Map<PointKey, Point>,
    from: PointKey,
    to: PointKey,
)
    requires
        cells_known(cells, points),
        points.dom().contains(to),
        from != to,
    ensures
        cells_known(collapsed(cells, from, to), points.remove(from)),
    decreases cells.len(),
{
    if cells.len() > 0 {
        let front = cells.drop_last();
        assert forall|i: int| 0 <= i < front.len() implies cell_known(#[trigger] front[i], points) by {
            assert(cell_known(cells[i], points));
        }
        collapsed_is_known(front, points, from, to);
        let last = cells.last();
        let rest = collapsed(front, from, to);
        let all = collapsed(cells, from, to);
        assert(cell_known(cells[cells.len() - 1], points));
        let list = renamed(last.points, from, to);
        let cell = CellView { points: list, ..last };
        assert(cell_known(cell, points.remove(from))) by {
            assert forall|k: int| 0 <= k < list.len() implies points.remove(from).dom().contains(
                #[trigger] list[k],
            ) by {
                assert(points.dom().contains(last.points[k]));
            }
        }
        assert forall|i: int| 0 <= i < all.len() implies cell_known(
            #[trigger] all[i],
            points.remove(from),
        ) by {
            if i < rest.len() {
                assert(all[i] == rest[i]);
            } else {
                assert(all[i] == cell);
            }
        }
    }
}

/// Collapses an edge onto the end that stays. On the boundary that end moves
/// to the given site; without one nothing is done.
pub fn apply_collapse(candidate: &mut Candidate, a: PointKey, b: PointKey, site: Option<Site>) -> (result:
    bool)
    requires
        old(candidate).wf(),
        old(candidate).points@.dom().contains(a),
        old(candidate).points@.dom().contains(b),
        a != b,
    ensures
        final(candidate).wf(),
        match collapse_plan(*old(candidate), a, b) {
            Some((keep, gone)) => if boundary_ends(*old(candidate), a, b) && site is None {
                !result && *final(candidate) == *old(candidate)
            } else {
                &&& result
                &&& final(candidate).cells_view() == collapsed(
                    old(candidate).cells_view(),
                    gone,
                    keep,
                )
                &&& final(candidate).points@ == (if boundary_ends(*old(candidate), a, b) {
                    old(candidate).points@.insert(keep, point_at(site->0, true, false))
                } else {
                    old(candidate).points@
                }).remove(gone)
                &&& final(candidate).next_inserted == old(candidate).next_inserted
                &&& final(candidate).construction_failures == old(candidate).construction_failures
                &&& final(candidate).layer_edge_targets == old(candidate).layer_edge_targets
            },
            None => !result && *final(candidate) == *old(candidate),
        },
{
    let (keep, gone) = match collapse_ends(candidate, a, b) {
        Some(ends) => ends,
        None => {
            return false;
        },
    };
    let ghost before = candidate.cells_view();
    let ghost known = candidate.points@;
    let a_boundary = match candidate.points.get(&a) {
        Some(point) => point.boundary,
        None => false,
    };
    let b_boundary = match candidate.points.get(&b) {
        Some(point) => point.boundary,
        None => false,
    };
    if a_boundary && b_boundary {
        match site {
            None => {
                return false;
            },
            Some(value) => {
                let point = Point {
                    uv: value.uv,
                    world: value.world,
                    boundary: true,
                    protected: false,
                };
                candidate.points.insert(keep, point);
            },
        }
    }
    proof {
        assert(candidate.points@.dom() =~= known.dom());
        more_points_keep_known(before, known, candidate.points@);
        collapsed_is_known(before, candidate.points@, gone, keep);
    }
    let mut cells: Vec<Cell> = Vec::new();
    let mut i: usize = 0;
    while i < candidate.cells.len()
        invariant
            i <= candidate.cells.len(),
            candidate.cells_view() == before,
            cell_views(cells@) == collapsed(before.take(i as int), gone, keep),
        decreases candidate.cells.len() - i,
    {
        let ghost done = cells@;
        let points = rename_points(&candidate.cells[i].points, gone, keep);
        proof {
            view_at(candidate.cells@, i as int);
            assert(before.take(i as int + 1).drop_last() =~= before.take(i as int));
        }
        if all_distinct(&points) {
            let cell = Cell {
                points,
                leaf: candidate.cells[i].leaf,
                protected: candidate.cells[i].protected,
            };
            cells.push(cell);
            assert(cell_views(cells@) =~= cell_views(done).push(cell@));
        }
        i = i + 1;
    }
    assert(before.take(i as int) =~= before);
    candidate.cells = cells;
    candidate.points.remove(&gone);
    true
}

/// The places of the cells that hold the point.
pub open spec fn cells_at(cells: Seq<CellView>, key: PointKey) -> Seq<usize> {
    cells_on_edge(cells, key, key)
}

/// The cells around a point.
pub fn incident_cells(cells: &Vec<Cell>, key: PointKey) -> (result: Vec<usize>)
    ensures
        result@ == cells_at(cell_views(cells@), key),
        forall|i: int|
            0 <= i < result.len() ==> (#[trigger] result[i]) < cells.len() && cell_views(
                cells@,
            )[result[i] as int].points.contains(key),
{
    edge_cells(cells, key, key)
}

/// The point shares a cell with the other one.
pub open spec fn adjacent(cells: Seq<CellView>, key: PointKey, other: PointKey) -> bool {
    other != key && exists|i: int|
        0 <= i < cells.len() && (#[trigger] cells[i]).points.contains(key)
            && cells[i].points.contains(other)
}

/// The points that share a cell with the given one.
pub fn neighbor_points(cells: &Vec<Cell>, key: PointKey) -> (result: SortedSet<PointKey>)
    ensures
        result.wf(),
        forall|other: PointKey| #[trigger]
            result@.contains(other) <==> adjacent(cell_views(cells@), key, other),
{
    let ghost views = cell_views(cells@);
    let mut set: SortedSet<PointKey> = SortedSet::new();
    let mut i: usize = 0;
    while i < cells.len()
        invariant
            i <= cells.len(),
            views == cell_views(cells@),
            set.wf(),
            forall|other: PointKey| #[trigger]
                set@.contains(other) <==> adjacent(views.take(i as int), key, other),
        decreases cells.len() - i,
    {
        let ghost before = set@;
        let points = &cells[i].points;
        assert(views[i as int] == cells[i as int]@);
        if contains_point(points, key) {
            let mut j: usize = 0;
            while j < points.len()
                invariant
                    j <= points.len(),
                    set.wf(),
                    forall|other: PointKey| #[trigger]
                        set@.contains(other) <==> before.contains(other) || (other != key
                            && points@.take(j as int).contains(other)),
                decreases points.len() - j,
            {
                let ghost partial = set@;
                let point = points[j];
                if !same_key(&point, &key) {
                    set.insert(point);
                }
                proof {
                    let short = points@.take(j as int);
                    let long = points@.take(j as int + 1);
                    assert(long =~= short.push(point));
                    assert forall|other: PointKey| #[trigger]
                        set@.contains(other) <==> before.contains(other) || (other != key
                            && long.contains(other)) by {
                        if short.contains(other) {
                            let k = short.index_of(other);
                            assert(long[k] == other);
                        }
                        if long.contains(other) && other != point {
                            let k = long.index_of(other);
                            assert(short[k] == other);
                        }
                        assert(long[j as int] == point);
                        assert(partial.contains(other) <==> before.contains(other) || (other != key
                            && short.contains(other)));
                    }
                }
                j = j + 1;
            }
            assert(points@.take(j as int) =~= points@);
        }
        proof {
            let short = views.take(i as int);
            let long = views.take(i as int + 1);
            assert forall|other: PointKey| #[trigger]
                set@.contains(other) <==> adjacent(long, key, other) by {
                assert(before.contains(other) <==> adjacent(short, key, other));
                if adjacent(short, key, other) {
                    let k = choose|k: int|
                        0 <= k < short.len() && (#[trigger] short[k]).points.contains(key)
                            && short[k].points.contains(other);
                    assert(long[k] == short[k]);
                }
                if adjacent(long, key, other) {
                    let k = choose|k: int|
                        0 <= k < long.len() && (#[trigger] long[k]).points.contains(key)
                            && long[k].points.contains(other);
                    if k < i {
                        assert(short[k] == long[k]);
                    }
                }
                assert(long[i as int] == views[i as int]);
            }
        }
        i = i + 1;
    }
    assert(views.take(i as int) =~= views);
    set
}

/// An interior point may move: it is free, has three neighbours, and the step
/// is one of four.
pub open spec fn can_relocate_interior(candidate: Candidate, key: PointKey, step: u8) -> bool {
    &&& candidate.points@.dom().contains(key)
    &&& !candidate.points@[key].boundary
    &&& !candidate.points@[key].protected
    &&& step < 4
    &&& three_neighbors(candidate.cells_view(), key)
}

/// At least three points share a cell with this one.
pub open spec fn three_neighbors(cells: Seq<CellView>, key: PointKey) -> bool {
    exists|a: PointKey, b: PointKey, c: PointKey|
        a != b && b != c && a != c && #[trigger] adjacent(cells, key, a) && #[trigger] adjacent(
            cells,
            key,
            b,
        ) && #[trigger] adjacent(cells, key, c)
}

/// Moves an interior point to the site. Without a site nothing is done.
pub fn apply_interior_relocation(
    candidate: &mut Candidate,
    key: PointKey,
    step: u8,
    site: Option<Site>,
) -> (result: bool)
    requires
        old(candidate).wf(),
    ensures
        final(candidate).wf(),
        result == (can_relocate_interior(*old(candidate), key, step) && site is Some),
        !result ==> *final(candidate) == *old(candidate),
        result ==> final(candidate).points@ == old(candidate).points@.insert(
            key,
            point_at(site->0, false, false),
        ) && final(candidate).cells == old(candidate).cells && final(candidate).next_inserted
            == old(candidate).next_inserted && final(candidate).construction_failures == old(
            candidate,
        ).construction_failures && final(candidate).layer_edge_targets == old(
            candidate,
        ).layer_edge_targets,
{
    let movable = match candidate.points.get(&key) {
        Some(point) => !point.boundary && !point.protected,
        None => false,
    };
    if !movable {
        return false;
    }
    let neighbors = neighbor_points(&candidate.cells, key);
    proof {
        let set = neighbors.items@;
        let cells = candidate.cells_view();
        crate::sorted::increasing_has_no_duplicates(set);
        if set.len() >= 3 {
            assert(neighbors@.contains(set[0]));
            assert(neighbors@.contains(set[1]));
            assert(neighbors@.contains(set[2]));
            assert(adjacent(cells, key, set[0]));
            assert(adjacent(cells, key, set[1]));
            assert(adjacent(cells, key, set[2]));
        }
        if three_neighbors(cells, key) {
            let (a, b, c) = choose|a: PointKey, b: PointKey, c: PointKey|
                a != b && b != c && a != c && #[trigger] adjacent(cells, key, a)
                    && #[trigger] adjacent(cells, key, b) && #[trigger] adjacent(cells, key, c);
            assert(neighbors@.contains(a) && neighbors@.contains(b) && neighbors@.contains(c));
            let i = set.index_of(a);
            let j = set.index_of(b);
            let k = set.index_of(c);
            assert(set[i] == a && set[j] == b && set[k] == c);
            assert(i != j && j != k && i != k);
            assert(set.len() >= 3);
        }
    }
    if neighbors.items.len() < 3 || step >= 4 {
        return false;
    }
    match site {
        None => false,
        Some(value) => {
            let ghost known = candidate.points@;
            let point = Point {
                uv: value.uv,
                world: value.world,
                boundary: false,
                protected: false,
            };
            candidate.points.insert(key, point);
            proof {
                more_points_keep_known(candidate.cells_view(), known, candidate.points@);
            }
            true
        },
    }
}

/// The far end of a cell's edge, where the edge starts or ends at the point.
pub open spec fn edge_end(points: Seq<PointKey>, edge: int, key: PointKey) -> Option<PointKey> {
    let p = points[edge];
    let q = points[(edge + 1) % (points.len() as int)];
    if p == key {
        Some(q)
    } else if q == key {
        Some(p)
    } else {
        None
    }
}

/// Some edge of the cell at that place leads from the point to the other one
/// and belongs to this cell alone.
pub open spec fn exposed_in(cells: Seq<CellView>, place: int, edge: int, key: PointKey, other: PointKey) -> bool {
    let points = cells[place].points;
    &&& 0 <= edge < points.len()
    &&& edge_end(points, edge, key) == Some(other)
    &&& cells_on_edge(cells, points[edge], points[(edge + 1) % (points.len() as int)]) == seq![
        place as usize,
    ]
}

/// An edge of a single cell joins the two points.
pub open spec fn exposed(cells: Seq<CellView>, key: PointKey, other: PointKey) -> bool {
    exists|place: int, edge: int|
        0 <= place < cells.len() && #[trigger] exposed_in(cells, place, edge, key, other)
}

/// The points joined to the given one by an edge of a single cell.
pub fn exposed_neighbors(cells: &Vec<Cell>, key: PointKey) -> (result: SortedSet<PointKey>)
    ensures
        result.wf(),
        forall|other: PointKey| #[trigger]
            result@.contains(other) <==> exposed(cell_views(cells@), key, other),
{
    let ghost views = cell_views(cells@);
    let mut set: SortedSet<PointKey> = SortedSet::new();
    let mut i: usize = 0;
    while i < cells.len()
        invariant
            i <= cells.len(),
            views == cell_views(cells@),
            set.wf(),
            forall|other: PointKey| #[trigger]
                set@.contains(other) <==> exists|place: int, edge: int|
                    0 <= place < i && #[trigger] exposed_in(views, place, edge, key, other),
        decreases cells.len() - i,
    {
        let ghost before = set@;
        let points = &cells[i].points;
        assert(views[i as int] == cells[i as int]@);
        let mut e: usize = 0;
        while e < points.len()
            invariant
                i < cells.len(),
                e <= points.len(),
                views == cell_views(cells@),
                points@ == views[i as int].points,
                set.wf(),
                forall|other: PointKey| #[trigger]
                    set@.contains(other) <==> before.contains(other) || exists|edge: int|
                        0 <= edge < e && #[trigger] exposed_in(views, i as int, edge, key, other),
            decreases points.len() - e,
        {
            let ghost partial = set@;
            let next: usize = if e + 1 < points.len() {
                e + 1
            } else {
                0
            };
            let p = points[e];
            let q = points[next];
            proof {
                let n = points@.len() as int;
                if e + 1 < n {
                    assert((e + 1) % n == e + 1) by (nonlinear_arith)
                        requires
                            0 <= e + 1 < n,
                    ;
                } else {
                    assert((e + 1) % n == 0) by (nonlinear_arith)
                        requires
                            e + 1 == n,
                            n > 0,
                    ;
                }
            }
            let ghost reached = edge_end(points@, e as int, key);
            if same_key(&p, &key) || same_key(&q, &key) {
                let end = if same_key(&p, &key) {
                    q
                } else {
                    p
                };
                let owners = edge_cells(cells, p, q);
                if owners.len() == 1 && owners[0] == i {
                    assert(owners@ =~= seq![i]);
                    set.insert(end);
                    assert(exposed_in(views, i as int, e as int, key, end));
                } else {
                    assert(owners@ != seq![i]) by {
                        if owners@ == seq![i] {
                            assert(owners@.len() == 1);
                            assert(owners@[0] == i);
                        }
                    }
                    assert(!exposed_in(views, i as int, e as int, key, end));
                }
            }
            proof {
                assert forall|other: PointKey| #[trigger]
                    set@.contains(other) <==> before.contains(other) || exists|edge: int|
                        0 <= edge < e + 1 && #[trigger] exposed_in(
                            views,
                            i as int,
                            edge,
                            key,
                            other,
                        ) by {
                    assert(partial.contains(other) <==> before.contains(other) || exists|edge: int|
                        0 <= edge < e && #[trigger] exposed_in(views, i as int, edge, key, other));
                    if exposed_in(views, i as int, e as int, key, other) {
                        assert(set@.contains(other));
                    }
                    if exists|edge: int|
                        0 <= edge < e + 1 && #[trigger] exposed_in(
                            views,
                            i as int,
                            edge,
                            key,
                            other,
                        ) {
                        let edge = choose|edge: int|
                            0 <= edge < e + 1 && #[trigger] exposed_in(
                                views,
                                i as int,
                                edge,
                                key,
                                other,
                            );
                        if edge < e {
                            assert(partial.contains(other));
                        }
                    }
                }
            }
            e = e + 1;
        }
        proof {
            assert forall|other: PointKey| #[trigger]
                set@.contains(other) <==> exists|place: int, edge: int|
                    0 <= place < i + 1 && #[trigger] exposed_in(views, place, edge, key, other) by {
                assert(before.contains(other) <==> exists|place: int, edge: int|
                    0 <= place < i && #[trigger] exposed_in(views, place, edge, key, other));
                if exists|place: int, edge: int|
                    0 <= place < i + 1 && #[trigger] exposed_in(views, place, edge, key, other) {
                    let (place, edge) = choose|place: int, edge: int|
                        0 <= place < i + 1 && #[trigger] exposed_in(views, place, edge, key, other);
                    if place == i {
                        assert(exposed_in(views, i as int, edge, key, other));
                    } else {
                        assert(before.contains(other));
                    }
                }
            }
        }
        i = i + 1;
    }
    set
}

/// A boundary point may move: it is free, exactly two edges of single cells
/// leave it, and the step is one of five.
pub open spec fn can_relocate_boundary(
    candidate: Candidate,
    key: PointKey,
    step: u8,
    ends: Seq<PointKey>,
) -> bool {
    &&& candidate.points@.dom().contains(key)
    &&& candidate.points@[key].boundary
    &&& !candidate.points@[key].protected
    &&& step < 5
    &&& ends.len() == 2
}

/// Moves a boundary point to the site. Without a site nothing is done.
pub fn apply_boundary_relocation(
    candidate: &mut Candidate,
    key: PointKey,
    step: u8,
    site: Option<Site>,
) -> (result: bool)
    requires
        old(candidate).wf(),
    ensures
        final(candidate).wf(),
        exists|ends: Seq<PointKey>|
            {
                &&& crate::sorted::increasing(ends)
                &&& forall|other: PointKey| #[trigger]
                    ends.contains(other) <==> exposed(old(candidate).cells_view(), key, other)
                &&& result == (#[trigger] can_relocate_boundary(
                    *old(candidate),
                    key,
                    step,
                    ends,
                ) && site is Some)
            },
        !result ==> *final(candidate) == *old(candidate),
        result ==> final(candidate).points@ == old(candidate).points@.insert(
            key,
            point_at(site->0, true, false),
        ) && final(candidate).cells == old(candidate).cells && final(candidate).next_inserted
            == old(candidate).next_inserted && final(candidate).construction_failures == old(
            candidate,
        ).construction_failures && final(candidate).layer_edge_targets == old(
            candidate,
        ).layer_edge_targets,
{
    let neighbors = exposed_neighbors(&candidate.cells, key);
    let ghost ends = neighbors.items@;
    proof {
        assert forall|other: PointKey| #[trigger] ends.contains(other) <==> exposed(
            candidate.cells_view(),
            key,
            other,
        ) by {
            assert(ends.contains(other) == neighbors@.contains(other));
        }
    }
    let movable = match candidate.points.get(&key) {
        Some(point) => point.boundary && !point.protected,
        None => false,
    };
    if !movable || neighbors.items.len() != 2 || step >= 5 {
        assert(!can_relocate_boundary(*candidate, key, step, ends));
        return false;
    }
    assert(can_relocate_boundary(*candidate, key, step, ends));
    match site {
        None => false,
        Some(value) => {
            let ghost known = candidate.points@;
            let point = Point {
                uv: value.uv,
                world: value.world,
                boundary: true,
                protected: false,
            };
            candidate.points.insert(key, point);
            proof {
                more_points_keep_known(candidate.cells_view(), known, candidate.points@);
            }
            true
        },
    }
}

/// Sharing a cell is mutual, and no point is its own neighbour.
pub proof fn neighbors_are_mutual(cells: Seq<CellView>, key: PointKey, other: PointKey)
    ensures
        adjacent(cells, key, other) == adjacent(cells, other, key),
        !adjacent(cells, key, key),
        other != key && (exists|i: int|
            0 <= i < cells.len() && (#[trigger] cells[i]).points.contains(key)
                && cells[i].points.contains(other)) ==> adjacent(cells, key, other),
{
    if adjacent(cells, key, other) {
        let i = choose|i: int|
            0 <= i < cells.len() && (#[trigger] cells[i]).points.contains(key)
                && cells[i].points.contains(other);
        assert(cells[i].points.contains(other));
    }
    if adjacent(cells, other, key) {
        let i = choose|i: int|
            0 <= i < cells.len() && (#[trigger] cells[i]).points.contains(other)
                && cells[i].points.contains(key);
        assert(cells[i].points.contains(key));
    }
}

/// An interior point moves only where it is off the boundary, a boundary point only where it is
/// on it: no point may do both, and none that must stay may do either.
pub proof fn points_move_one_way(
    candidate: Candidate,
    key: PointKey,
    step: u8,
    other: u8,
    ends: Seq<PointKey>,
)
    ensures
        !(can_relocate_interior(candidate, key, step) && can_relocate_boundary(
            candidate,
            key,
            other,
            ends,
        )),
        candidate.points@[key].protected ==> !can_relocate_interior(candidate, key, step)
            && !can_relocate_boundary(candidate, key, other, ends),
{
}

/// Of the two ways to cut a quad the better one is taken, and the first of equals.
pub proof fn better_cut_wins(cuts: QuadCuts)
    ensures
        second_cut_wins(cuts) ==> !cuts.second_quality.le(cuts.first_quality),
        !second_cut_wins(cuts) ==> cuts.second_quality.le(cuts.first_quality),
        cuts.first_quality.lt(cuts.second_quality) ==> second_cut_wins(cuts),
        cuts.second_quality.same_value(cuts.first_quality) ==> !second_cut_wins(cuts),
{
}

} // verus!
