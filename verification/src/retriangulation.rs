//! The way into a constrained triangulation and back: which vertices and
//! segments go in, and what becomes of the triangles that come out.

use vstd::prelude::*;

use crate::algorithm::QualityTermination;
#[allow(unused_imports)]
use crate::assess::capped;
#[allow(unused_imports)]
use crate::edits::cell_capacity;
use crate::edits::cell_limit;
use crate::error::{MeshError, MeshResult};
#[allow(unused_imports)]
use crate::error::fails_input;
use crate::incidence::{cell_sides, EdgeMap};
#[allow(unused_imports)]
use crate::incidence::{all_sides, sides_on};
use crate::layers::saturating_product;
use crate::number::Real;
use crate::quadtree::Leaf;
use crate::sorted::{position, same_key, SortedMap, SortedSet};
#[allow(unused_imports)]
use crate::sorted::{increasing, push_keeps_order, Key};
use crate::text::{around, join, quoted};
#[allow(unused_imports)]
use crate::text::debug_text;
#[allow(unused_imports)]
use crate::topology::{cell_known, cell_views, cells_known, turned, CellView};
use crate::topology::{orient_triangle, Candidate, Cell, EdgeKey, Point, PointKey};

verus! {

/// What is said of a triangulation that cannot be made or used.
pub open spec fn triangulation_message(domain: Seq<char>, reason: Seq<char>) -> Seq<char> {
    "domain "@ + debug_text(domain) + " global constrained Delaunay triangulation "@ + reason
}

pub fn triangulation_error(domain: &str, reason: &str) -> (result: MeshError)
    ensures
        result is InvalidInput,
        result.text() == triangulation_message(domain@, reason@),
{
    let text = around(
        "domain ",
        quoted(domain).as_str(),
        " global constrained Delaunay triangulation ",
    );
    MeshError::InvalidInput(join(text.as_str(), reason))
}

/// The point is an end of a constraint.
pub open spec fn on_constraint(constraints: Set<EdgeKey>, key: PointKey) -> bool {
    exists|edge: EdgeKey| #[trigger] constraints.contains(edge) && (edge.0 == key || edge.1 == key)
}

/// The ends of the constraints.
pub fn constraint_ends(constraints: &SortedSet<EdgeKey>) -> (result: SortedSet<PointKey>)
    ensures
        result.wf(),
        forall|key: PointKey| #[trigger]
            result@.contains(key) <==> on_constraint(constraints@, key),
{
    let mut ends = SortedSet::<PointKey>::new();
    let mut i: usize = 0;
    while i < constraints.items.len()
        invariant
            i <= constraints.items@.len(),
            ends.wf(),
            forall|key: PointKey| #[trigger]
                ends@.contains(key) <==> exists|p: int|
                    0 <= p < i && ((#[trigger] constraints.items@[p]).0 == key
                        || constraints.items@[p].1 == key),
        decreases constraints.items@.len() - i,
    {
        let ghost before = ends@;
        let edge = constraints.items[i];
        ends.insert(edge.0);
        ends.insert(edge.1);
        assert forall|key: PointKey| #[trigger] ends@.contains(key) <==> exists|p: int|
            0 <= p < i + 1 && ((#[trigger] constraints.items@[p]).0 == key
                || constraints.items@[p].1 == key) by {
            assert(ends@.contains(key) <==> before.contains(key) || key == edge.0 || key == edge.1);
            if key == edge.0 || key == edge.1 {
                assert(constraints.items@[i as int] == edge);
            }
        }
        i = i + 1;
    }
    assert forall|key: PointKey| #[trigger] ends@.contains(key) <==> on_constraint(
        constraints@,
        key,
    ) by {
        if ends@.contains(key) {
            let p = choose|p: int|
                0 <= p < i && ((#[trigger] constraints.items@[p]).0 == key
                    || constraints.items@[p].1 == key);
            assert(constraints@.contains(constraints.items@[p]));
        }
        if on_constraint(constraints@, key) {
            let edge = choose|edge: EdgeKey| #[trigger]
                constraints@.contains(edge) && (edge.0 == key || edge.1 == key);
            let p = constraints.items@.index_of(edge);
            assert(constraints.items@[p] == edge);
        }
    }
    ends
}

/// The constraint joins two different known points.
pub open spec fn sound_constraint(points: Map<PointKey, Point>, edge: EdgeKey) -> bool {
    edge.0 != edge.1 && points.dom().contains(edge.0) && points.dom().contains(edge.1)
}

/// Every constraint joins two different known points.
pub open spec fn sound_constraints(points: Map<PointKey, Point>, constraints: Set<EdgeKey>) -> bool {
    forall|edge: EdgeKey| #[trigger]
        constraints.contains(edge) ==> sound_constraint(points, edge)
}

/// Refuses constraints that do not join two different known points.
pub fn validate_constraint_graph(
    domain: &str,
    points: &SortedMap<PointKey, Point>,
    constraints: &SortedSet<EdgeKey>,
) -> (result: MeshResult<()>)
    requires
        points.wf(),
    ensures
        sound_constraints(points@, constraints@) ==> result is Ok,
        !sound_constraints(points@, constraints@) ==> fails_input(
            result,
            triangulation_message(domain@, "contains an invalid constraint edge"@),
        ),
{
    let mut i: usize = 0;
    while i < constraints.items.len()
        invariant
            i <= constraints.items@.len(),
            points.wf(),
            forall|p: int|
                0 <= p < i ==> sound_constraint(points@, #[trigger] constraints.items@[p]),
        decreases constraints.items@.len() - i,
    {
        let edge = constraints.items[i];
        assert(constraints@.contains(edge));
        if same_key(&edge.0, &edge.1) || !points.contains_key(&edge.0) || !points.contains_key(
            &edge.1,
        ) {
            return Err(triangulation_error(domain, "contains an invalid constraint edge"));
        }
        i = i + 1;
    }
    assert forall|edge: EdgeKey| #[trigger] constraints@.contains(edge) implies sound_constraint(
        points@,
        edge,
    ) by {
        let p = constraints.items@.index_of(edge);
        assert(constraints.items@[p] == edge);
    }
    Ok(())
}

/// Where a point stands in the plane, by the bits of its coordinates.
pub open spec fn spot(point: Point) -> (u64, u64) {
    (point.uv[0].bits, point.uv[1].bits)
}

/// No point before this place stands at the same spot.
pub open spec fn first_at_spot(points: Seq<Point>, place: int) -> bool {
    forall|i: int| 0 <= i < place ==> spot(#[trigger] points[i]) != spot(points[place])
}

/// The first of the points at each spot, in order.
pub open spec fn first_keys(keys: Seq<PointKey>, points: Seq<Point>, count: int) -> Seq<PointKey>
    decreases count,
{
    if count <= 0 {
        Seq::empty()
    } else if first_at_spot(points, count - 1) {
        first_keys(keys, points, count - 1).push(keys[count - 1])
    } else {
        first_keys(keys, points, count - 1)
    }
}

/// The point must stay where it is and what it is.
pub open spec fn immutable(
    keys: Seq<PointKey>,
    points: Seq<Point>,
    constraints: Set<EdgeKey>,
    place: int,
) -> bool {
    points[place].protected || on_constraint(constraints, keys[place])
}

/// A point that must stay shares its spot with another.
pub open spec fn spots_clash(
    keys: Seq<PointKey>,
    points: Seq<Point>,
    constraints: Set<EdgeKey>,
) -> bool {
    exists|i: int, j: int|
        0 <= i < points.len() && 0 <= j < points.len() && i != j && spot(#[trigger] points[i])
            == spot(#[trigger] points[j]) && immutable(keys, points, constraints, i)
}

proof fn first_keys_are_keys(keys: Seq<PointKey>, points: Seq<Point>, count: int)
    requires
        0 <= count <= keys.len(),
        increasing(keys),
    ensures
        increasing(first_keys(keys, points, count)),
        first_keys(keys, points, count).len() > 0 ==> exists|p: int|
            0 <= p < count && first_keys(keys, points, count).last() == #[trigger] keys[p],
        forall|p: int|
            0 <= p < count && first_at_spot(points, p) ==> first_keys(
                keys,
                points,
                count,
            ).contains(#[trigger] keys[p]),
    decreases count,
{
    if count > 0 {
        first_keys_are_keys(keys, points, count - 1);
        let rest = first_keys(keys, points, count - 1);
        let all = first_keys(keys, points, count);
        if first_at_spot(points, count - 1) {
            if rest.len() > 0 {
                let p = choose|p: int| 0 <= p < count - 1 && rest.last() == #[trigger] keys[p];
                assert(keys[p].before(keys[count - 1]));
            }
            push_keeps_order(rest, keys[count - 1]);
            assert(all[rest.len() as int] == keys[count - 1]);
            assert(all.last() == keys[count - 1]);
            assert forall|p: int| 0 <= p < count && first_at_spot(points, p) implies all.contains(
                #[trigger] keys[p],
            ) by {
                if p < count - 1 {
                    let q = rest.index_of(keys[p]);
                    assert(all[q] == keys[p]);
                }
            }
        }
    }
}

/// Chooses the vertices of a triangulation: one point for each spot. Two points
/// at one spot are refused where one of them must stay.
fn choose_vertices(
    domain: &str,
    points: &SortedMap<PointKey, Point>,
    constraints: &SortedSet<EdgeKey>,
) -> (result: MeshResult<Vec<PointKey>>)
    requires
        points.wf(),
    ensures
        spots_clash(points.keys@, points.values@, constraints@) ==> fails_input(
            result,
            triangulation_message(domain@, "contains coincident immutable vertices"@),
        ),
        !spots_clash(points.keys@, points.values@, constraints@) ==> (result matches Ok(keys)
            && keys@ == first_keys(points.keys@, points.values@, points.keys@.len() as int)),
{
    let ends = constraint_ends(constraints);
    let mut seen = SortedMap::<(u64, u64), usize>::new();
    let mut keys: Vec<PointKey> = Vec::new();
    let mut i: usize = 0;
    while i < points.keys.len()
        invariant
            i <= points.keys@.len(),
            points.wf(),
            ends.wf(),
            forall|key: PointKey| #[trigger]
                ends@.contains(key) <==> on_constraint(constraints@, key),
            seen.wf(),
            forall|bits: (u64, u64)| #[trigger]
                seen@.dom().contains(bits) ==> seen@[bits] < i && spot(
                    points.values@[seen@[bits] as int],
                ) == bits && first_at_spot(points.values@, seen@[bits] as int),
            forall|p: int|
                0 <= p < i ==> seen@.dom().contains(spot(#[trigger] points.values@[p])),
            keys@ == first_keys(points.keys@, points.values@, i as int),
            forall|p: int, q: int|
                0 <= p < i && 0 <= q < i && p != q && spot(#[trigger] points.values@[p]) == spot(
                    #[trigger] points.values@[q],
                ) ==> !immutable(points.keys@, points.values@, constraints@, p),
        decreases points.keys@.len() - i,
    {
        let key = points.keys[i];
        let point = points.values[i];
        let bits = (point.uv[0].bits, point.uv[1].bits);
        let ghost known = seen@;
        match seen.get(&bits) {
            Some(place) => {
                let previous: usize = *place;
                assert(spot(points.values@[previous as int]) == spot(points.values@[i as int]));
                if ends.contains(&key) || ends.contains(&points.keys[previous]) || point.protected
                    || points.values[previous].protected {
                    assert(immutable(points.keys@, points.values@, constraints@, i as int)
                        || immutable(points.keys@, points.values@, constraints@, previous as int));
                    assert(spots_clash(points.keys@, points.values@, constraints@)) by {
                        let a = points.values@[previous as int];
                        let b = points.values@[i as int];
                        assert(spot(a) == spot(b));
                    }
                    return Err(
                        triangulation_error(domain, "contains coincident immutable vertices"),
                    );
                }
                assert(!first_at_spot(points.values@, i as int));
                assert forall|p: int, q: int|
                    0 <= p < i + 1 && 0 <= q < i + 1 && p != q && spot(#[trigger] points.values@[p])
                        == spot(#[trigger] points.values@[q]) implies !immutable(
                    points.keys@,
                    points.values@,
                    constraints@,
                    p,
                ) by {
                    if q == i && p < i {
                        if p != previous {
                            assert(spot(points.values@[p]) == spot(points.values@[previous as int]));
                        }
                    }
                }
            },
            None => {
                assert(first_at_spot(points.values@, i as int));
                seen.insert(bits, i);
                keys.push(key);
                assert forall|b: (u64, u64)| #[trigger] seen@.dom().contains(b) implies seen@[b] < i
                    + 1 && spot(points.values@[seen@[b] as int]) == b && first_at_spot(
                    points.values@,
                    seen@[b] as int,
                ) by {
                    if b != bits {
                        assert(known.dom().contains(b));
                    }
                }
            },
        }
        i = i + 1;
    }
    assert(!spots_clash(points.keys@, points.values@, constraints@));
    Ok(keys)
}

/// What goes into a triangulation: the vertices in order, and each constraint
/// as the places of its ends among them.
#[derive(Debug)]
pub struct TriangulationInput {
    pub keys: Vec<PointKey>,
    pub segments: Vec<[usize; 2]>,
}

/// The segments are the constraints in order, by the places of their ends.
pub open spec fn segments_name(
    segments: Seq<[usize; 2]>,
    keys: Seq<PointKey>,
    constraints: Seq<EdgeKey>,
) -> bool {
    &&& segments.len() == constraints.len()
    &&& forall|i: int|
        0 <= i < segments.len() ==> (#[trigger] segments[i])[0] < keys.len() && segments[i][1]
            < keys.len() && keys[segments[i][0] as int] == constraints[i].0
            && keys[segments[i][1] as int] == constraints[i].1
}

/// Prepares a triangulation of the points that keeps the constraints.
pub fn triangulation_input(
    domain: &str,
    points: &SortedMap<PointKey, Point>,
    constraints: &SortedSet<EdgeKey>,
) -> (result: MeshResult<TriangulationInput>)
    requires
        points.wf(),
        constraints.wf(),
    ensures
        !sound_constraints(points@, constraints@) ==> fails_input(
            result,
            triangulation_message(domain@, "contains an invalid constraint edge"@),
        ),
        sound_constraints(points@, constraints@) && spots_clash(
            points.keys@,
            points.values@,
            constraints@,
        ) ==> fails_input(
            result,
            triangulation_message(domain@, "contains coincident immutable vertices"@),
        ),
        sound_constraints(points@, constraints@) && !spots_clash(
            points.keys@,
            points.values@,
            constraints@,
        ) ==> (result matches Ok(input) && input.keys@ == first_keys(
            points.keys@,
            points.values@,
            points.keys@.len() as int,
        ) && segments_name(input.segments@, input.keys@, constraints.items@)),
{
    match validate_constraint_graph(domain, points, constraints) {
        Err(error) => {
            return Err(error);
        },
        Ok(_) => {},
    }
    let keys = match choose_vertices(domain, points, constraints) {
        Err(error) => {
            return Err(error);
        },
        Ok(keys) => keys,
    };
    proof {
        first_keys_are_keys(points.keys@, points.values@, points.keys@.len() as int);
    }
    let mut segments: Vec<[usize; 2]> = Vec::new();
    let mut i: usize = 0;
    while i < constraints.items.len()
        invariant
            i <= constraints.items@.len(),
            points.wf(),
            increasing(keys@),
            sound_constraints(points@, constraints@),
            !spots_clash(points.keys@, points.values@, constraints@),
            forall|p: int|
                0 <= p < points.keys@.len() && first_at_spot(points.values@, p) ==> keys@.contains(
                    #[trigger] points.keys@[p],
                ),
            segments@.len() == i,
            forall|p: int|
                0 <= p < i ==> (#[trigger] segments@[p])[0] < keys@.len() && segments@[p][1]
                    < keys@.len() && keys@[segments@[p][0] as int] == constraints.items@[p].0
                    && keys@[segments@[p][1] as int] == constraints.items@[p].1,
        decreases constraints.items@.len() - i,
    {
        let edge = constraints.items[i];
        proof {
            assert(constraints@.contains(edge));
            constrained_point_is_first(points, constraints@, edge.0);
            constrained_point_is_first(points, constraints@, edge.1);
        }
        let a: usize = position(&keys, &edge.0);
        let b: usize = position(&keys, &edge.1);
        segments.push([a, b]);
        i = i + 1;
    }
    Ok(TriangulationInput { keys, segments })
}

proof fn constrained_point_is_first(
    points: &SortedMap<PointKey, Point>,
    constraints: Set<EdgeKey>,
    key: PointKey,
)
    requires
        points.wf(),
        points@.dom().contains(key),
        on_constraint(constraints, key),
        !spots_clash(points.keys@, points.values@, constraints),
    ensures
        exists|p: int|
            0 <= p < points.keys@.len() && #[trigger] points.keys@[p] == key && first_at_spot(
                points.values@,
                p,
            ),
{
    let p = points.keys@.index_of(key);
    assert(points.keys@[p] == key);
    assert(immutable(points.keys@, points.values@, constraints, p));
    assert forall|i: int| 0 <= i < p implies spot(#[trigger] points.values@[i]) != spot(
        points.values@[p],
    ) by {
        if spot(points.values@[i]) == spot(points.values@[p]) {
            assert(spots_clash(points.keys@, points.values@, constraints));
        }
    }
}

/// How large a triangulation may grow.
#[derive(Debug, Clone, Copy, PartialEq, Eq, Structural)]
pub struct TriangulationLimits {
    pub max_vertices: usize,
    pub max_cells: usize,
    pub max_iterations: usize,
}

/// The most refinement steps of one triangulation.
pub const MAX_REFINEMENT_STEPS: usize = 64;

/// The limits of a triangulation: twice as many vertices as cells, and at
/// least those that go in.
pub fn triangulation_limits(max_cells: u64, vertices: usize) -> (result: TriangulationLimits)
    ensures
        result.max_cells == cell_capacity(max_cells),
        result.max_vertices == (if vertices > capped((2 * cell_capacity(max_cells)) as nat) {
            vertices as nat
        } else {
            capped((2 * cell_capacity(max_cells)) as nat)
        }),
        result.max_iterations == 64,
{
    let cells: usize = cell_limit(max_cells);
    let doubled: usize = saturating_product(cells, 2);
    assert(cells as int * 2 == 2 * cells) by (nonlinear_arith);
    TriangulationLimits {
        max_vertices: if vertices > doubled {
            vertices
        } else {
            doubled
        },
        max_cells: cells,
        max_iterations: MAX_REFINEMENT_STEPS,
    }
}

/// How a triangulation failed.
#[derive(Debug)]
pub enum TriangulationFault {
    Cancelled,
    /// The resource that ran out.
    Limit(String),
    /// Why the input cannot be triangulated.
    Refused(String),
}

pub open spec fn exhausted_message(domain: Seq<char>, resource: Seq<char>) -> Seq<char> {
    "domain "@ + debug_text(domain) + " constrained Delaunay "@ + resource + " limit exceeded"@
}

/// The error of a failed triangulation, and the limit that it ran into.
pub fn fault_error(domain: &str, fault: TriangulationFault) -> (result: (
    MeshError,
    Option<QualityTermination>,
))
    ensures
        match fault {
            TriangulationFault::Cancelled => result.0 == MeshError::Cancelled && result.1 is None,
            TriangulationFault::Limit(resource) => result.0 is LimitExceeded && result.0.text()
                == exhausted_message(domain@, resource@) && result.1 == Some(
                QualityTermination::MaxCells,
            ),
            TriangulationFault::Refused(reason) => result.0 is InvalidInput && result.0.text()
                == triangulation_message(domain@, reason@) && result.1 is None,
        },
{
    match fault {
        TriangulationFault::Cancelled => (MeshError::Cancelled, None),
        TriangulationFault::Limit(resource) => {
            let head = around("domain ", quoted(domain).as_str(), " constrained Delaunay ");
            let text = around(head.as_str(), resource.as_str(), " limit exceeded");
            (MeshError::LimitExceeded(text), Some(QualityTermination::MaxCells))
        },
        TriangulationFault::Refused(reason) => (triangulation_error(domain, reason.as_str()), None),
    }
}

/// The names that are given to new points, in order.
pub open spec fn fresh_names(next: u64, count: nat) -> Seq<PointKey> {
    Seq::new(count, |i: int| PointKey::Inserted((next + i) as u64))
}

/// The points with the first of the new ones put under fresh names.
pub open spec fn with_fresh(
    points: Map<PointKey, Point>,
    next: u64,
    extra: Seq<Point>,
    count: int,
) -> Map<PointKey, Point>
    decreases count,
{
    if count <= 0 {
        points
    } else {
        with_fresh(points, next, extra, count - 1).insert(
            PointKey::Inserted((next + count - 1) as u64),
            extra[count - 1],
        )
    }
}

proof fn fresh_points_keep_names(
    points: Map<PointKey, Point>,
    next: u64,
    extra: Seq<Point>,
    count: int,
)
    ensures
        forall|key: PointKey| #[trigger]
            points.dom().contains(key) ==> with_fresh(points, next, extra, count).dom().contains(
                key,
            ),
    decreases count,
{
    if count > 0 {
        fresh_points_keep_names(points, next, extra, count - 1);
    }
}

/// Puts the vertices that a triangulation added under fresh names, and returns
/// the names of all its vertices. Vertices that got lost are refused.
pub fn name_vertices(
    domain: &str,
    candidate: &mut Candidate,
    keys: &Vec<PointKey>,
    vertices: usize,
    extra: &Vec<Point>,
) -> (result: MeshResult<Vec<PointKey>>)
    requires
        old(candidate).wf(),
        old(candidate).next_inserted + extra@.len() <= u64::MAX,
        vertices >= keys@.len() ==> extra@.len() == vertices - keys@.len(),
    ensures
        final(candidate).wf(),
        vertices < keys@.len() ==> fails_input(
            result,
            triangulation_message(domain@, "lost input vertices"@),
        ) && *final(candidate) == *old(candidate),
        vertices >= keys@.len() ==> (result matches Ok(names) && names@ == keys@ + fresh_names(
            old(candidate).next_inserted,
            extra@.len(),
        )),
        vertices >= keys@.len() ==> final(candidate).points@ == with_fresh(
            old(candidate).points@,
            old(candidate).next_inserted,
            extra@,
            extra@.len() as int,
        ),
        vertices >= keys@.len() ==> final(candidate).next_inserted == old(candidate).next_inserted
            + extra@.len(),
        final(candidate).cells@ == old(candidate).cells@,
        final(candidate).construction_failures == old(candidate).construction_failures,
        final(candidate).layer_edge_targets == old(candidate).layer_edge_targets,
{
    if vertices < keys.len() {
        return Err(triangulation_error(domain, "lost input vertices"));
    }
    let ghost start = *candidate;
    let ghost next = candidate.next_inserted;
    let mut names: Vec<PointKey> = keys.clone();
    assert(names@ =~= keys@);
    assert(names@ =~= keys@ + fresh_names(next, 0));
    let mut i: usize = 0;
    while i < extra.len()
        invariant
            i <= extra@.len(),
            start == *old(candidate),
            next == start.next_inserted,
            next + extra@.len() <= u64::MAX,
            candidate.next_inserted == next + i,
            candidate.points.wf(),
            candidate.points@ == with_fresh(start.points@, next, extra@, i as int),
            candidate.cells@ == start.cells@,
            candidate.construction_failures == start.construction_failures,
            candidate.layer_edge_targets == start.layer_edge_targets,
            names@ == keys@ + fresh_names(next, i as nat),
        decreases extra@.len() - i,
    {
        let key = PointKey::Inserted(candidate.next_inserted);
        candidate.points.insert(key, extra[i]);
        candidate.next_inserted = candidate.next_inserted + 1;
        names.push(key);
        assert(names@ =~= keys@ + fresh_names(next, (i + 1) as nat));
        i = i + 1;
    }
    proof {
        fresh_points_keep_names(start.points@, next, extra@, extra@.len() as int);
        assert(candidate.cells_view() == start.cells_view());
    }
    Ok(names)
}

/// What was measured of a triangle that came out of a triangulation.
#[derive(Debug, Clone, Copy)]
pub struct TriangleMeasure {
    /// Its middle lies inside the boundary edges.
    pub inside: bool,
    /// Its middle lies inside the edges of what is left out.
    pub excluded: bool,
    /// Its middle lies outside the domain.
    pub outside: bool,
    pub area: Real,
    /// The area below which a triangle is flat, whichever way it turns.
    pub floor: Real,
}

/// The triangle is part of the mesh.
pub open spec fn belongs(measure: TriangleMeasure) -> bool {
    &&& measure.inside
    &&& !measure.excluded
    &&& !measure.outside
    &&& !(measure.area.le(measure.floor) && measure.area.opposite().le(measure.floor))
}

/// The triangle runs clockwise.
pub open spec fn clockwise(measure: TriangleMeasure) -> bool {
    measure.area.lt(Real { bits: 0 })
}

pub open spec fn named_triangle(names: Seq<PointKey>, triangle: Seq<usize>) -> Seq<PointKey> {
    seq![names[triangle[0] as int], names[triangle[1] as int], names[triangle[2] as int]]
}

/// The cells of the triangles that are part of the mesh, in order, none of them
/// clockwise.
pub open spec fn kept_triangles(
    names: Seq<PointKey>,
    triangles: Seq<[usize; 3]>,
    measures: Seq<TriangleMeasure>,
    count: int,
) -> Seq<CellView>
    decreases count,
{
    if count <= 0 {
        Seq::empty()
    } else {
        let rest = kept_triangles(names, triangles, measures, count - 1);
        if belongs(measures[count - 1]) {
            rest.push(
                CellView {
                    points: turned(
                        named_triangle(names, triangles[count - 1]@),
                        clockwise(measures[count - 1]),
                    ),
                    leaf: Leaf { level: 0, x: 0, y: 0 },
                    protected: false,
                },
            )
        } else {
            rest
        }
    }
}

fn keep_triangles(
    names: &Vec<PointKey>,
    triangles: &Vec<[usize; 3]>,
    measures: &Vec<TriangleMeasure>,
) -> (result: Vec<Cell>)
    requires
        measures@.len() == triangles@.len(),
        forall|i: int, k: int|
            0 <= i < triangles@.len() && 0 <= k < 3 ==> #[trigger] triangles@[i][k] < names@.len(),
    ensures
        cell_views(result@) == kept_triangles(
            names@,
            triangles@,
            measures@,
            triangles@.len() as int,
        ),
{
    let mut cells: Vec<Cell> = Vec::new();
    let mut i: usize = 0;
    assert(cell_views(cells@) =~= Seq::<CellView>::empty());
    while i < triangles.len()
        invariant
            i <= triangles@.len(),
            measures@.len() == triangles@.len(),
            forall|t: int, k: int|
                0 <= t < triangles@.len() && 0 <= k < 3 ==> #[trigger] triangles@[t][k]
                    < names@.len(),
            cell_views(cells@) == kept_triangles(names@, triangles@, measures@, i as int),
        decreases triangles@.len() - i,
    {
        let measure = measures[i];
        let ghost before = cells@;
        if measure.inside && !measure.excluded && !measure.outside && !(measure.area.at_most(
            measure.floor,
        ) && measure.area.negated().at_most(measure.floor)) {
            let triangle = triangles[i];
            assert(triangles@[i as int][0] < names@.len());
            assert(triangles@[i as int][1] < names@.len());
            assert(triangles@[i as int][2] < names@.len());
            let points = [names[triangle[0]], names[triangle[1]], names[triangle[2]]];
            assert(points@ =~= named_triangle(names@, triangle@));
            let zero = Real { bits: 0 };
            let turned_points = orient_triangle(points, measure.area.less(zero));
            let cell = Cell::triangle(turned_points, Leaf { level: 0, x: 0, y: 0 });
            cells.push(cell);
            assert(cell_views(cells@) =~= cell_views(before).push(cell@));
        }
        i = i + 1;
    }
    cells
}

/// A cell has the point.
pub open spec fn in_cells(cells: Seq<CellView>, key: PointKey) -> bool {
    exists|i: int| 0 <= i < cells.len() && (#[trigger] cells[i]).points.contains(key)
}

/// The points of the cells.
pub fn used_points(cells: &Vec<Cell>) -> (result: SortedSet<PointKey>)
    ensures
        result.wf(),
        forall|key: PointKey| #[trigger]
            result@.contains(key) <==> in_cells(cell_views(cells@), key),
{
    let ghost views = cell_views(cells@);
    let mut used = SortedSet::<PointKey>::new();
    let mut i: usize = 0;
    while i < cells.len()
        invariant
            i <= cells@.len(),
            views == cell_views(cells@),
            used.wf(),
            forall|key: PointKey| #[trigger]
                used@.contains(key) <==> in_cells(views.take(i as int), key),
        decreases cells@.len() - i,
    {
        let ghost before = used@;
        let points = &cells[i].points;
        let mut k: usize = 0;
        while k < points.len()
            invariant
                k <= points@.len(),
                used.wf(),
                forall|key: PointKey| #[trigger]
                    used@.contains(key) <==> before.contains(key) || points@.take(
                        k as int,
                    ).contains(key),
            decreases points@.len() - k,
        {
            let ghost so_far = used@;
            used.insert(points[k]);
            assert forall|key: PointKey| #[trigger] used@.contains(key) <==> before.contains(key)
                || points@.take(k + 1).contains(key) by {
                let less = points@.take(k as int);
                let more = points@.take(k + 1);
                assert(so_far.contains(key) <==> before.contains(key) || less.contains(key));
                assert(more =~= less.push(points@[k as int]));
                if less.contains(key) {
                    let q = less.index_of(key);
                    assert(more[q] == key);
                }
                if key == points@[k as int] {
                    assert(more[k as int] == key);
                }
                if more.contains(key) {
                    let q = more.index_of(key);
                    if q < k {
                        assert(less[q] == key);
                    }
                }
            }
            k = k + 1;
        }
        assert(points@.take(k as int) =~= points@);
        assert forall|key: PointKey| #[trigger] used@.contains(key) <==> in_cells(
            views.take(i + 1),
            key,
        ) by {
            let less = views.take(i as int);
            let more = views.take(i + 1);
            assert(more[i as int].points == points@);
            assert(before.contains(key) <==> in_cells(less, key));
            if in_cells(less, key) {
                let p = choose|p: int|
                    0 <= p < less.len() && (#[trigger] less[p]).points.contains(key);
                assert(more[p].points.contains(key));
            }
            if in_cells(more, key) {
                let p = choose|p: int|
                    0 <= p < more.len() && (#[trigger] more[p]).points.contains(key);
                if p < i {
                    assert(less[p].points.contains(key));
                }
            }
        }
        i = i + 1;
    }
    assert(views.take(i as int) =~= views);
    used
}

/// The point stays in the mesh: a cell or a constraint has it.
pub open spec fn stays(cells: Seq<CellView>, constraints: Set<EdgeKey>, key: PointKey) -> bool {
    in_cells(cells, key) || on_constraint(constraints, key)
}

/// Drops the points that neither a cell nor a constraint has.
pub fn drop_unused(points: &mut SortedMap<PointKey, Point>, cells: &Vec<Cell>, constraints: &SortedSet<
    EdgeKey,
>)
    requires
        old(points).wf(),
    ensures
        final(points).wf(),
        forall|key: PointKey| #[trigger]
            final(points)@.dom().contains(key) <==> old(points)@.dom().contains(key) && stays(
                cell_views(cells@),
                constraints@,
                key,
            ),
        forall|key: PointKey| #[trigger]
            final(points)@.dom().contains(key) ==> final(points)@[key] == old(points)@[key],
{
    let mut used = used_points(cells);
    let ends = constraint_ends(constraints);
    let ghost of_cells = used@;
    let mut i: usize = 0;
    while i < ends.items.len()
        invariant
            i <= ends.items@.len(),
            used.wf(),
            forall|key: PointKey| #[trigger]
                used@.contains(key) <==> of_cells.contains(key) || exists|p: int|
                    0 <= p < i && #[trigger] ends.items@[p] == key,
        decreases ends.items@.len() - i,
    {
        let ghost before = used@;
        used.insert(ends.items[i]);
        assert forall|key: PointKey| #[trigger] used@.contains(key) <==> of_cells.contains(key)
            || exists|p: int| 0 <= p < i + 1 && #[trigger] ends.items@[p] == key by {
            assert(before.contains(key) <==> of_cells.contains(key) || exists|p: int|
                0 <= p < i && #[trigger] ends.items@[p] == key);
            if key == ends.items@[i as int] {
                assert(used@.contains(key));
            }
        }
        i = i + 1;
    }
    points.restrict(&used);
    assert forall|key: PointKey| used@.contains(key) == stays(
        cell_views(cells@),
        constraints@,
        key,
    ) by {
        assert(of_cells.contains(key) <==> in_cells(cell_views(cells@), key));
        assert(ends@.contains(key) <==> on_constraint(constraints@, key));
        if ends@.contains(key) {
            let p = ends.items@.index_of(key);
            assert(ends.items@[p] == key);
        }
        if exists|p: int| 0 <= p < i && #[trigger] ends.items@[p] == key {
            let p = choose|p: int| 0 <= p < i && #[trigger] ends.items@[p] == key;
            assert(ends.items@.contains(key));
        }
    }
}

/// Installs the triangles that came out of a triangulation and belong to the
/// mesh; it is refused where there are none. Points without a triangle or a
/// constraint go.
pub fn install_triangles(
    domain: &str,
    candidate: &mut Candidate,
    names: &Vec<PointKey>,
    triangles: &Vec<[usize; 3]>,
    measures: &Vec<TriangleMeasure>,
    constraints: &SortedSet<EdgeKey>,
) -> (result: MeshResult<()>)
    requires
        old(candidate).wf(),
        measures@.len() == triangles@.len(),
        forall|i: int, k: int|
            0 <= i < triangles@.len() && 0 <= k < 3 ==> #[trigger] triangles@[i][k] < names@.len(),
        forall|i: int|
            0 <= i < names@.len() ==> old(candidate).points@.dom().contains(#[trigger] names@[i]),
    ensures
        final(candidate).wf(),
        ({
            let cells = kept_triangles(names@, triangles@, measures@, triangles@.len() as int);
            &&& cells.len() == 0 ==> *final(candidate) == *old(candidate) && fails_input(
                result,
                triangulation_message(domain@, "produced no interior triangles"@),
            )
            &&& cells.len() > 0 ==> result is Ok && final(candidate).cells_view() == cells
                && final(candidate).construction_failures@ == Set::<Leaf>::empty()
            &&& cells.len() > 0 ==> forall|key: PointKey| #[trigger]
                final(candidate).points@.dom().contains(key) <==> old(
                    candidate,
                ).points@.dom().contains(key) && stays(cells, constraints@, key)
            &&& forall|key: PointKey| #[trigger]
                final(candidate).points@.dom().contains(key) ==> final(candidate).points@[key]
                    == old(candidate).points@[key]
        }),
        final(candidate).next_inserted == old(candidate).next_inserted,
        final(candidate).layer_edge_targets == old(candidate).layer_edge_targets,
{
    let cells = keep_triangles(names, triangles, measures);
    let ghost views = cell_views(cells@);
    if cells.len() == 0 {
        assert(views.len() == 0);
        return Err(triangulation_error(domain, "produced no interior triangles"));
    }
    let ghost start = *candidate;
    drop_unused(&mut candidate.points, &cells, constraints);
    candidate.cells = cells;
    candidate.construction_failures = SortedSet::new();
    proof {
        kept_triangles_are_named(
            names@,
            triangles@,
            measures@,
            triangles@.len() as int,
            start.points@,
        );
        assert forall|i: int| 0 <= i < views.len() implies cell_known(
            #[trigger] views[i],
            candidate.points@,
        ) by {
            assert(cell_known(views[i], start.points@));
            assert forall|k: int| 0 <= k < views[i].points.len() implies candidate.points@.dom().contains(
                #[trigger] views[i].points[k],
            ) by {
                let key = views[i].points[k];
                assert(views[i].points.contains(key));
                assert(in_cells(views, key));
                assert(stays(views, constraints@, key));
            }
        }
        assert(views.len() == cells@.len());
    }
    Ok(())
}

proof fn kept_triangles_are_named(
    names: Seq<PointKey>,
    triangles: Seq<[usize; 3]>,
    measures: Seq<TriangleMeasure>,
    count: int,
    points: Map<PointKey, Point>,
)
    requires
        count <= triangles.len(),
        forall|i: int, k: int|
            0 <= i < triangles.len() && 0 <= k < 3 ==> #[trigger] triangles[i][k] < names.len(),
        forall|i: int| 0 <= i < names.len() ==> points.dom().contains(#[trigger] names[i]),
    ensures
        cells_known(kept_triangles(names, triangles, measures, count), points),
    decreases count,
{
    if count > 0 {
        kept_triangles_are_named(names, triangles, measures, count - 1, points);
        assert(triangles[count - 1][0] < names.len());
        assert(triangles[count - 1][1] < names.len());
        assert(triangles[count - 1][2] < names.len());
    }
}

/// The edges that exactly one of the cells has: the outline of a strip.
pub fn outline(cells: &Vec<Cell>) -> (result: SortedSet<EdgeKey>)
    requires
        forall|i: int| 0 <= i < cells@.len() ==> (#[trigger] cells@[i]).points@.len() > 0,
    ensures
        result.wf(),
        forall|edge: EdgeKey| #[trigger]
            result@.contains(edge) <==> sides_on(all_sides(cell_views(cells@)), edge).len() == 1,
{
    let sides = cell_sides(cells);
    let map = EdgeMap::gather(&sides);
    let mut edges = SortedSet::<EdgeKey>::new();
    let mut i: usize = 0;
    while i < map.groups.keys.len()
        invariant
            i <= map.groups.keys@.len(),
            map.gathers(sides@),
            edges.wf(),
            forall|edge: EdgeKey| #[trigger]
                edges@.contains(edge) <==> exists|p: int|
                    0 <= p < i && #[trigger] map.groups.keys@[p] == edge && sides_on(
                        sides@,
                        edge,
                    ).len() == 1,
        decreases map.groups.keys@.len() - i,
    {
        let ghost before = edges@;
        let edge = map.groups.keys[i];
        proof {
            map.groups.entry_at(i as int);
        }
        if map.groups.values[i].len() == 1 {
            edges.insert(edge);
        }
        assert forall|other: EdgeKey| #[trigger] edges@.contains(other) <==> exists|p: int|
            0 <= p < i + 1 && #[trigger] map.groups.keys@[p] == other && sides_on(
                sides@,
                other,
            ).len() == 1 by {
            assert(before.contains(other) <==> exists|p: int|
                0 <= p < i && #[trigger] map.groups.keys@[p] == other && sides_on(
                    sides@,
                    other,
                ).len() == 1);
            if other == edge {
                assert(map.groups.keys@[i as int] == other);
            }
        }
        i = i + 1;
    }
    assert forall|edge: EdgeKey| #[trigger] edges@.contains(edge) <==> sides_on(
        sides@,
        edge,
    ).len() == 1 by {
        if sides_on(sides@, edge).len() == 1 {
            assert(map.groups@.dom().contains(edge));
            let p = map.groups.keys@.index_of(edge);
            assert(map.groups.keys@[p] == edge);
        }
    }
    edges
}

/// The constraints, both ends of which are on the boundary, in order.
pub open spec fn on_boundary(points: Map<PointKey, Point>, constraints: Seq<EdgeKey>) -> Seq<EdgeKey> {
    constraints.filter(|edge: EdgeKey| points[edge.0].boundary && points[edge.1].boundary)
}

/// The constraints that run along the boundary.
pub fn boundary_constraints(
    points: &SortedMap<PointKey, Point>,
    constraints: &SortedSet<EdgeKey>,
) -> (result: Vec<EdgeKey>)
    requires
        points.wf(),
        constraints.wf(),
        sound_constraints(points@, constraints@),
    ensures
        result@ == on_boundary(points@, constraints.items@),
{
    let ghost keep = |edge: EdgeKey| points@[edge.0].boundary && points@[edge.1].boundary;
    let mut list: Vec<EdgeKey> = Vec::new();
    let mut i: usize = 0;
    proof {
        reveal(Seq::filter);
    }
    while i < constraints.items.len()
        invariant
            i <= constraints.items@.len(),
            points.wf(),
            sound_constraints(points@, constraints@),
            keep == |edge: EdgeKey| points@[edge.0].boundary && points@[edge.1].boundary,
            list@ == constraints.items@.take(i as int).filter(keep),
        decreases constraints.items@.len() - i,
    {
        let edge = constraints.items[i];
        proof {
            reveal(Seq::filter);
            assert(constraints@.contains(edge));
            assert(sound_constraint(points@, edge));
            assert(constraints.items@.take(i + 1).drop_last() =~= constraints.items@.take(i as int));
        }
        let first = match points.get(&edge.0) {
            Some(point) => point.boundary,
            None => false,
        };
        let second = match points.get(&edge.1) {
            Some(point) => point.boundary,
            None => false,
        };
        if first && second {
            list.push(edge);
        }
        i = i + 1;
    }
    assert(constraints.items@.take(i as int) =~= constraints.items@);
    list
}

/// The cells of a triangulation are its triangles that lie inside, in no excluded part, and
/// have an area; in order, named by their points, none of them clockwise.
pub proof fn mesh_has_the_triangles_inside(
    names: Seq<PointKey>,
    triangles: Seq<[usize; 3]>,
    measures: Seq<TriangleMeasure>,
    count: int,
) -> (places: Seq<int>)
    requires
        0 <= count,
    ensures
        kept_triangles(names, triangles, measures, count).len() == places.len(),
        forall|i: int, j: int|
            0 <= i < j < places.len() ==> (#[trigger] places[i]) < (#[trigger] places[j]),
        forall|k: int| #[trigger] places.contains(k) <==> 0 <= k < count && (measures[k].inside && !measures[k].excluded && !measures[k].outside && !(measures[k].area.le(measures[k].floor) && measures[k].area.opposite().le(measures[k].floor))),
        forall|i: int|
            0 <= i < places.len() ==> kept_triangles(names, triangles, measures, count)[i] == (CellView { points: if measures[(#[trigger] places[i])].area.lt(Real { bits: 0 }) { seq![names[triangles[(#[trigger] places[i])][0] as int], names[triangles[(#[trigger] places[i])][2] as int], names[triangles[(#[trigger] places[i])][1] as int]] } else { seq![names[triangles[(#[trigger] places[i])][0] as int], names[triangles[(#[trigger] places[i])][1] as int], names[triangles[(#[trigger] places[i])][2] as int]] }, leaf: (Leaf { level: 0, x: 0, y: 0 }), protected: false }),
    decreases count,
{
    if count == 0 {
        Seq::empty()
    } else {
        let list = mesh_has_the_triangles_inside(names, triangles, measures, count - 1);
        let last = count - 1;
        let takes = (measures[last].inside && !measures[last].excluded && !measures[last].outside && !(measures[last].area.le(measures[last].floor) && measures[last].area.opposite().le(measures[last].floor)));
        let places = if takes {
            list.push(last)
        } else {
            list
        };
        let rest = kept_triangles(names, triangles, measures, count - 1);
        let now = kept_triangles(names, triangles, measures, count);
        
        assert forall|i: int| 0 <= i < list.len() implies 0 <= (#[trigger] list[i]) < last by {
            assert(list.contains(list[i]));
        }
        assert forall|k: int| #[trigger] places.contains(k) <==> 0 <= k < count && (measures[k].inside && !measures[k].excluded && !measures[k].outside && !(measures[k].area.le(measures[k].floor) && measures[k].area.opposite().le(measures[k].floor))) by {
            if places.contains(k) {
                let m = places.index_of(k);
                if m < list.len() {
                    assert(list[m] == k);
                    assert(list.contains(k));
                }
            }
            if list.contains(k) {
                let m = list.index_of(k);
                assert(places[m] == k);
            }
            if k == last && takes {
                assert(places[list.len() as int] == k);
            }
        }
        assert forall|i: int| 0 <= i < places.len() implies now[i] == (CellView { points: if measures[(#[trigger] places[i])].area.lt(Real { bits: 0 }) { seq![names[triangles[(#[trigger] places[i])][0] as int], names[triangles[(#[trigger] places[i])][2] as int], names[triangles[(#[trigger] places[i])][1] as int]] } else { seq![names[triangles[(#[trigger] places[i])][0] as int], names[triangles[(#[trigger] places[i])][1] as int], names[triangles[(#[trigger] places[i])][2] as int]] }, leaf: (Leaf { level: 0, x: 0, y: 0 }), protected: false }) by {
            if i < list.len() {
                assert(places[i] == list[i]);
                assert(now[i] == rest[i]);
            }
        }
        places
    }
}

/// Of the points at one spot the first is kept, in order.
pub proof fn first_points_are_kept(
    keys: Seq<PointKey>,
    points: Seq<Point>,
    count: int,
) -> (places: Seq<int>)
    requires
        0 <= count,
    ensures
        first_keys(keys, points, count).len() == places.len(),
        forall|i: int, j: int|
            0 <= i < j < places.len() ==> (#[trigger] places[i]) < (#[trigger] places[j]),
        forall|k: int| #[trigger] places.contains(k) <==> 0 <= k < count && (forall|i: int| 0 <= i < k ==> (#[trigger] points[i]).uv[0].bits != points[k].uv[0].bits || points[i].uv[1].bits != points[k].uv[1].bits),
        forall|i: int|
            0 <= i < places.len() ==> first_keys(keys, points, count)[i] == keys[(#[trigger] places[i])],
    decreases count,
{
    if count == 0 {
        Seq::empty()
    } else {
        let list = first_points_are_kept(keys, points, count - 1);
        let last = count - 1;
        let takes = (forall|i: int| 0 <= i < last ==> (#[trigger] points[i]).uv[0].bits != points[last].uv[0].bits || points[i].uv[1].bits != points[last].uv[1].bits);
        let places = if takes {
            list.push(last)
        } else {
            list
        };
        let rest = first_keys(keys, points, count - 1);
        let now = first_keys(keys, points, count);
        assert(takes == first_at_spot(points, last));
        assert forall|i: int| 0 <= i < list.len() implies 0 <= (#[trigger] list[i]) < last by {
            assert(list.contains(list[i]));
        }
        assert forall|k: int| #[trigger] places.contains(k) <==> 0 <= k < count && (forall|i: int| 0 <= i < k ==> (#[trigger] points[i]).uv[0].bits != points[k].uv[0].bits || points[i].uv[1].bits != points[k].uv[1].bits) by {
            if places.contains(k) {
                let m = places.index_of(k);
                if m < list.len() {
                    assert(list[m] == k);
                    assert(list.contains(k));
                }
            }
            if list.contains(k) {
                let m = list.index_of(k);
                assert(places[m] == k);
            }
            if k == last && takes {
                assert(places[list.len() as int] == k);
            }
        }
        assert forall|i: int| 0 <= i < places.len() implies now[i] == keys[(#[trigger] places[i])] by {
            if i < list.len() {
                assert(places[i] == list[i]);
                assert(now[i] == rest[i]);
            }
        }
        places
    }
}

/// Every new point stands under its own fresh name, in order, and the points from before keep
/// theirs.
pub proof fn new_points_have_fresh_names(
    points: Map<PointKey, Point>,
    next: u64,
    extra: Seq<Point>,
    count: int,
    key: PointKey,
)
    requires
        0 <= count <= extra.len(),
        next + count <= u64::MAX,
    ensures
        match key {
            PointKey::Inserted(n) if next <= n && n < next + count => with_fresh(
                points,
                next,
                extra,
                count,
            ).dom().contains(key) && with_fresh(points, next, extra, count)[key] == extra[n - next],
            _ => with_fresh(points, next, extra, count).dom().contains(key) == points.dom().contains(
                key,
            ) && with_fresh(points, next, extra, count)[key] == points[key],
        },
    decreases count,
{
    if count > 0 {
        new_points_have_fresh_names(points, next, extra, count - 1, key);
    }
}

/// Fresh names are all different, none is one of the names below the next, and they come in
/// order.
pub proof fn fresh_names_are_new(next: u64, count: nat, i: int, j: int)
    requires
        next + count <= u64::MAX,
        0 <= i < j < count,
    ensures
        fresh_names(next, count).len() == count,
        fresh_names(next, count)[i] matches PointKey::Inserted(a)
            && fresh_names(next, count)[j] matches PointKey::Inserted(b) && next <= a < b < next
            + count,
        fresh_names(next, count)[0] == PointKey::Inserted(next),
{
}

} // verus!
