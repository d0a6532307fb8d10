//! Splitting a boundary edge where one layer control gives way to another.

use vstd::prelude::*;

#[allow(unused_imports)]
use crate::topology::{cell_known, cells_on_edge, cells_on_edge_places, other_from_is_there, other_point, turned, CellView};
use crate::topology::{edge_cells, find_other, orient_triangle, Candidate, Cell, Point, PointKey};

verus! {

/// The triangle beside an edge that can be split at a transition: the only cell
/// on the edge, a triangle that edits may change; and its third point.
pub open spec fn transition_plan(cells: Seq<CellView>, a: PointKey, b: PointKey) -> Option<
    (usize, PointKey),
> {
    let beside = cells_on_edge(cells, a, b);
    if beside.len() == 1 && !cells[beside[0] as int].protected && cells[beside[0] as int].points.len()
        == 3 && other_point(cells[beside[0] as int].points, a, b) is Some {
        Some((beside[0], other_point(cells[beside[0] as int].points, a, b)->0))
    } else {
        None
    }
}

/// The triangle beside an edge at a transition, and its third point.
pub fn plan_transition(candidate: &Candidate, a: PointKey, b: PointKey) -> (result: Option<
    (usize, PointKey),
>)
    ensures
        result == transition_plan(candidate.cells_view(), a, b),
        result matches Some((place, _)) ==> place < candidate.cells@.len(),
{
    let beside = edge_cells(&candidate.cells, a, b);
    if beside.len() != 1 {
        return None;
    }
    let place: usize = beside[0];
    assert(candidate.cells_view()[place as int] == candidate.cells@[place as int]@);
    let cell = &candidate.cells[place];
    if cell.protected || cell.points.len() != 3 {
        return None;
    }
    match find_other(&cell.points, a, b) {
        Some(c) => Some((place, c)),
        None => None,
    }
}

/// What was measured of the two triangles that a split would make.
#[derive(Debug, Clone, Copy)]
pub struct SplitMeasure {
    /// Which of them are clockwise before they are turned.
    pub clockwise: [bool; 2],
    /// Which of them are too flat once they are turned.
    pub flat: [bool; 2],
}

/// The cells after a split: the triangle beside the edge becomes two.
pub open spec fn transition_cells(
    cells: Seq<CellView>,
    place: int,
    a: PointKey,
    b: PointKey,
    c: PointKey,
    key: PointKey,
    clockwise: Seq<bool>,
) -> Seq<CellView> {
    cells.update(
        place,
        CellView { points: turned(seq![a, key, c], clockwise[0]), ..cells[place] },
    ).push(
        CellView {
            points: turned(seq![key, b, c], clockwise[1]),
            leaf: cells[place].leaf,
            protected: false,
        },
    )
}

/// The split can be made.
pub open spec fn can_split(
    candidate: Candidate,
    a: PointKey,
    b: PointKey,
    measure: SplitMeasure,
    max_cells: u64,
) -> bool {
    &&& transition_plan(candidate.cells_view(), a, b) is Some
    &&& !measure.flat[0]
    &&& !measure.flat[1]
    &&& candidate.cells@.len() < max_cells
}

/// Splits a boundary edge at a new point on it.
pub fn split_at_transition(
    candidate: &mut Candidate,
    a: PointKey,
    b: PointKey,
    point: Point,
    measure: SplitMeasure,
    max_cells: u64,
) -> (result: bool)
    requires
        old(candidate).wf(),
        old(candidate).fresh(),
    ensures
        final(candidate).wf(),
        result == can_split(*old(candidate), a, b, measure, max_cells),
        !result ==> *final(candidate) == *old(candidate),
        result ==> ({
            let key = PointKey::Inserted(old(candidate).next_inserted);
            let (place, c) = transition_plan(old(candidate).cells_view(), a, b)->0;
            &&& final(candidate).points@ == old(candidate).points@.insert(
                key,
                Point { protected: true, ..point },
            )
            &&& final(candidate).cells_view() == transition_cells(
                old(candidate).cells_view(),
                place as int,
                a,
                b,
                c,
                key,
                measure.clockwise@,
            )
            &&& final(candidate).next_inserted == old(candidate).next_inserted + 1
            &&& final(candidate).construction_failures == old(candidate).construction_failures
            &&& final(candidate).layer_edge_targets == old(candidate).layer_edge_targets
        }),
{
    let (place, c) = match plan_transition(candidate, a, b) {
        Some(plan) => plan,
        None => {
            return false;
        },
    };
    if measure.flat[0] || measure.flat[1] || candidate.cells.len() as u64 >= max_cells {
        return false;
    }
    let ghost start = *candidate;
    let ghost views = candidate.cells_view();
    let key = PointKey::Inserted(candidate.next_inserted);
    candidate.next_inserted = candidate.next_inserted + 1;
    candidate.points.insert(
        key,
        Point { uv: point.uv, world: point.world, boundary: point.boundary, protected: true },
    );
    proof {
        cells_on_edge_places(views, a, b);
        assert(views[place as int] == candidate.cells@[place as int]@);
    }
    let leaf = candidate.cells[place].leaf;
    let first = orient_triangle([a, key, c], measure.clockwise[0]);
    let second = orient_triangle([key, b, c], measure.clockwise[1]);
    let left = Cell::triangle(first, leaf);
    let right = Cell::triangle(second, leaf);
    let ghost wanted = transition_cells(
        views,
        place as int,
        a,
        b,
        c,
        key,
        measure.clockwise@,
    );
    proof {
        assert([a, key, c]@ =~= seq![a, key, c]);
        assert([key, b, c]@ =~= seq![key, b, c]);
    }
    candidate.cells.set(place, left);
    candidate.cells.push(right);
    proof {
        assert(candidate.cells_view() =~= wanted);
        let points = candidate.points@;
        assert(cell_known(views[place as int], start.points@));
        let held = views[place as int].points;
        assert(start.points@.dom().contains(a)) by {
            let i = held.index_of(a);
            assert(held[i] == a);
        }
        assert(start.points@.dom().contains(b)) by {
            let i = held.index_of(b);
            assert(held[i] == b);
        }
        other_from_is_there(held, a, b, 0);
        assert(start.points@.dom().contains(c)) by {
            let i = held.index_of(c);
            assert(held[i] == c);
        }
        assert forall|k: int| 0 <= k < wanted.len() implies cell_known(#[trigger] wanted[k], points) by {
            if k < views.len() && k != place {
                assert(cell_known(views[k], start.points@));
            } else if k == place {
                assert(wanted[k].points == turned(seq![a, key, c], measure.clockwise[0]));
            } else {
                assert(wanted[k].points == turned(seq![key, b, c], measure.clockwise[1]));
            }
        }
    }
    true
}

} // verus!
