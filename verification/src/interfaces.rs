//! Where domains touch: one domain's mesh of the common boundary is taken over
//! by the other.

use vstd::prelude::*;

use crate::assess::{copy_owner, BoundaryEdge};
#[allow(unused_imports)]
use crate::assess::owner_view;
#[allow(unused_imports)]
use crate::cores::boundary_key;
use crate::incidence::next_place;
use crate::number::{Real, Vector3};
use crate::sorted::{SortedMap, SortedSet};
#[allow(unused_imports)]
use crate::sweeps::side_key;
use crate::text::same_text;
#[allow(unused_imports)]
use crate::topology::{cell_views, CellView};
use crate::topology::{ordered_pair, Cell, EdgeKey, Point, PointKey};

verus! {

/// The points with one of them, where it is there, made to stay.
pub open spec fn with_protected(points: Map<PointKey, Point>, key: PointKey) -> Map<PointKey, Point> {
    if points.dom().contains(key) {
        points.insert(key, Point { protected: true, ..points[key] })
    } else {
        points
    }
}

fn protect(points: &mut SortedMap<PointKey, Point>, key: PointKey)
    requires
        old(points).wf(),
    ensures
        final(points).wf(),
        final(points)@ == with_protected(old(points)@, key),
{
    let found = match points.get(&key) {
        Some(point) => Some(*point),
        None => None,
    };
    match found {
        Some(point) => {
            points.insert(
                key,
                Point {
                    uv: point.uv,
                    world: point.world,
                    boundary: point.boundary,
                    protected: true,
                },
            );
        },
        None => {},
    }
}

/// The point is an end of one of the first flagged edges.
pub open spec fn flagged_end(
    boundary: Seq<BoundaryEdge>,
    flags: Seq<bool>,
    count: int,
    key: PointKey,
) -> bool {
    exists|i: int|
        0 <= i < count && flags[i] && ((#[trigger] boundary[i]).points[0] == key
            || boundary[i].points[1] == key)
}

/// The points with the ends of the first flagged edges made to stay.
pub open spec fn ends_protected(
    points: Map<PointKey, Point>,
    boundary: Seq<BoundaryEdge>,
    flags: Seq<bool>,
    count: int,
) -> Map<PointKey, Point> {
    Map::new(
        |key: PointKey| points.dom().contains(key),
        |key: PointKey|
            if flagged_end(boundary, flags, count, key) {
                Point { protected: true, ..points[key] }
            } else {
                points[key]
            },
    )
}

/// Makes the ends of the flagged boundary edges stay.
pub fn protect_ends(
    points: &mut SortedMap<PointKey, Point>,
    boundary: &Vec<BoundaryEdge>,
    flags: &Vec<bool>,
)
    requires
        old(points).wf(),
        flags@.len() == boundary@.len(),
    ensures
        final(points).wf(),
        final(points)@ == ends_protected(
            old(points)@,
            boundary@,
            flags@,
            boundary@.len() as int,
        ),
{
    let ghost start = points@;
    assert(start =~= ends_protected(start, boundary@, flags@, 0));
    let mut i: usize = 0;
    while i < boundary.len()
        invariant
            i <= boundary@.len(),
            flags@.len() == boundary@.len(),
            start == old(points)@,
            points.wf(),
            points@ == ends_protected(start, boundary@, flags@, i as int),
        decreases boundary@.len() - i,
    {
        let ghost before = points@;
        let first = boundary[i].points[0];
        let second = boundary[i].points[1];
        if flags[i] {
            protect(points, first);
            protect(points, second);
        }
        proof {
            let wanted = ends_protected(start, boundary@, flags@, i + 1);
            assert forall|key: PointKey|
                #![trigger points@.dom().contains(key)]
                #![trigger wanted.dom().contains(key)]
                points@.dom().contains(key) == wanted.dom().contains(key) by {
                assert(before.dom().contains(key) == start.dom().contains(key));
            }
            assert forall|key: PointKey| points@.dom().contains(key) implies points@[key]
                == wanted[key] by {
                assert(before[key] == ends_protected(start, boundary@, flags@, i as int)[key]);
                let was = flagged_end(boundary@, flags@, i as int, key);
                let is = flagged_end(boundary@, flags@, i + 1, key);
                if was {
                    let k = choose|k: int|
                        0 <= k < i && flags@[k] && ((#[trigger] boundary@[k]).points[0] == key
                            || boundary@[k].points[1] == key);
                    assert(boundary@[k].points[0] == key || boundary@[k].points[1] == key);
                }
                if flags@[i as int] && (key == first || key == second) {
                    assert(boundary@[i as int].points[0] == key || boundary@[i as int].points[1]
                        == key);
                }
            }
            assert(points@ =~= wanted);
        }
        i = i + 1;
    }
}

/// The edge is a side of a protected cell.
pub open spec fn protected_side(cells: Seq<CellView>, edge: EdgeKey) -> bool {
    exists|i: int, side: int|
        0 <= i < cells.len() && 0 <= side < cells[i].points.len() && cells[i].protected
            && #[trigger] side_key(cells[i].points, side) == edge
}

/// The edge is one of the boundary edges.
pub open spec fn is_boundary(boundary: Seq<BoundaryEdge>, edge: EdgeKey) -> bool {
    exists|i: int| 0 <= i < boundary.len() && #[trigger] boundary_key(boundary[i]) == edge
}

/// Locks a mesh before it is optimised: its boundary edges and the sides of its
/// protected cells become constraints, and the ends of boundary edges stay.
pub fn lock_constraint_vertices(
    points: &mut SortedMap<PointKey, Point>,
    cells: &Vec<Cell>,
    boundary: &Vec<BoundaryEdge>,
    constraints: &mut SortedSet<EdgeKey>,
)
    requires
        old(points).wf(),
        old(constraints).wf(),
    ensures
        final(points).wf(),
        final(constraints).wf(),
        final(points)@ == ends_protected(
            old(points)@,
            boundary@,
            Seq::new(boundary@.len(), |i: int| true),
            boundary@.len() as int,
        ),
        forall|edge: EdgeKey| #[trigger]
            final(constraints)@.contains(edge) <==> old(constraints)@.contains(edge)
                || is_boundary(boundary@, edge) || protected_side(cell_views(cells@), edge),
{
    let ghost start = constraints@;
    let ghost views = cell_views(cells@);
    let mut flags: Vec<bool> = Vec::new();
    let mut i: usize = 0;
    while i < boundary.len()
        invariant
            i <= boundary@.len(),
            start == old(constraints)@,
            constraints.wf(),
            flags@ == Seq::new(i as nat, |k: int| true),
            forall|edge: EdgeKey| #[trigger]
                constraints@.contains(edge) <==> start.contains(edge) || is_boundary(
                    boundary@.take(i as int),
                    edge,
                ),
        decreases boundary@.len() - i,
    {
        let ghost before = constraints@;
        let key = ordered_pair(boundary[i].points[0], boundary[i].points[1]);
        constraints.insert(key);
        flags.push(true);
        assert(flags@ =~= Seq::new((i + 1) as nat, |k: int| true));
        assert forall|edge: EdgeKey| #[trigger] constraints@.contains(edge) <==> start.contains(
            edge,
        ) || is_boundary(boundary@.take(i + 1), edge) by {
            let less = boundary@.take(i as int);
            let more = boundary@.take(i + 1);
            assert(boundary_key(more[i as int]) == key);
            assert(before.contains(edge) <==> start.contains(edge) || is_boundary(less, edge));
            if is_boundary(less, edge) {
                let p = choose|p: int|
                    0 <= p < less.len() && #[trigger] boundary_key(less[p]) == edge;
                assert(boundary_key(more[p]) == edge);
            }
            if is_boundary(more, edge) {
                let p = choose|p: int|
                    0 <= p < more.len() && #[trigger] boundary_key(more[p]) == edge;
                if p < i {
                    assert(boundary_key(less[p]) == edge);
                }
            }
        }
        i = i + 1;
    }
    assert(boundary@.take(i as int) =~= boundary@);
    protect_ends(points, boundary, &flags);
    assert(flags@ =~= Seq::new(boundary@.len(), |k: int| true));
    let mut c: usize = 0;
    while c < cells.len()
        invariant
            c <= cells@.len(),
            views == cell_views(cells@),
            constraints.wf(),
            forall|edge: EdgeKey| #[trigger]
                constraints@.contains(edge) <==> start.contains(edge) || is_boundary(
                    boundary@,
                    edge,
                ) || protected_side(views.take(c as int), edge),
        decreases cells@.len() - c,
    {
        let ghost before = constraints@;
        let list = &cells[c].points;
        let count: usize = list.len();
        assert(views[c as int] == cells@[c as int]@);
        let mut side: usize = 0;
        if cells[c].protected {
            while side < count
                invariant
                    side <= count,
                    count == list@.len(),
                    constraints.wf(),
                    forall|edge: EdgeKey| #[trigger]
                        constraints@.contains(edge) <==> before.contains(edge) || exists|k: int|
                            0 <= k < side && #[trigger] side_key(list@, k) == edge,
                decreases count - side,
            {
                let ghost so_far = constraints@;
                let key = ordered_pair(list[side], list[next_place(side, count)]);
                constraints.insert(key);
                assert(key == side_key(list@, side as int));
                assert forall|edge: EdgeKey| #[trigger] constraints@.contains(edge)
                    <==> before.contains(edge) || exists|k: int|
                    0 <= k < side + 1 && #[trigger] side_key(list@, k) == edge by {
                    assert(so_far.contains(edge) <==> before.contains(edge) || exists|k: int|
                        0 <= k < side && #[trigger] side_key(list@, k) == edge);
                }
                side = side + 1;
            }
        }
        assert forall|edge: EdgeKey| #[trigger] constraints@.contains(edge) <==> start.contains(
            edge,
        ) || is_boundary(boundary@, edge) || protected_side(views.take(c + 1), edge) by {
            let less = views.take(c as int);
            let more = views.take(c + 1);
            assert(more[c as int].points == list@);
            assert(before.contains(edge) <==> start.contains(edge) || is_boundary(boundary@, edge)
                || protected_side(less, edge));
            if protected_side(less, edge) {
                let (p, k) = choose|p: int, k: int|
                    0 <= p < less.len() && 0 <= k < less[p].points.len() && less[p].protected
                        && #[trigger] side_key(less[p].points, k) == edge;
                assert(side_key(more[p].points, k) == edge);
            }
            if protected_side(more, edge) {
                let (p, k) = choose|p: int, k: int|
                    0 <= p < more.len() && 0 <= k < more[p].points.len() && more[p].protected
                        && #[trigger] side_key(more[p].points, k) == edge;
                if p < c {
                    assert(side_key(less[p].points, k) == edge);
                } else {
                    assert(side_key(list@, k) == edge);
                    assert(constraints@.contains(edge));
                }
            }
            if views[c as int].protected && exists|k: int|
                0 <= k < count && #[trigger] side_key(list@, k) == edge {
                let k = choose|k: int| 0 <= k < count && #[trigger] side_key(list@, k) == edge;
                assert(side_key(more[c as int].points, k) == edge);
            }
        }
        c = c + 1;
    }
    assert(views.take(c as int) =~= views);
}

/// A domain's mesh of the boundary that it shares with another.
#[derive(Debug)]
pub struct SharedInterface {
    pub source: String,
    pub target: String,
    pub segments: Vec<[Vector3; 2]>,
}

#[verifier::ext_equal]
pub struct SharedView {
    pub source: Seq<char>,
    pub target: Seq<char>,
    pub segments: Seq<Seq<Vector3>>,
}

impl View for SharedInterface {
    type V = SharedView;

    open spec fn view(&self) -> SharedView {
        SharedView {
            source: self.source@,
            target: self.target@,
            segments: segment_ends(self.segments@),
        }
    }
}

pub open spec fn shared_views(shared: Seq<SharedInterface>) -> Seq<SharedView> {
    shared.map_values(|entry: SharedInterface| entry@)
}

/// An interface between two domains, and which of the boundary edges lie on it.
#[derive(Debug)]
pub struct InterfaceHits {
    pub domain_a: String,
    pub domain_b: String,
    pub hits: Vec<bool>,
}

/// The domain on the other side of an interface.
pub open spec fn other_side(interface: InterfaceHits, domain: Seq<char>) -> Seq<char> {
    if interface.domain_a@ == domain {
        interface.domain_b@
    } else {
        interface.domain_a@
    }
}

/// The segments of the first edges that lie on an interface.
pub open spec fn segments_on(
    points: Map<PointKey, Point>,
    boundary: Seq<BoundaryEdge>,
    hits: Seq<bool>,
    count: int,
) -> Seq<Seq<Vector3>>
    decreases count,
{
    if count <= 0 {
        Seq::empty()
    } else {
        let rest = segments_on(points, boundary, hits, count - 1);
        if hits[count - 1] {
            rest.push(
                seq![
                    points[boundary[count - 1].points[0]].world,
                    points[boundary[count - 1].points[1]].world,
                ],
            )
        } else {
            rest
        }
    }
}

/// The segments, by their ends.
pub open spec fn segment_ends(segments: Seq<[Vector3; 2]>) -> Seq<Seq<Vector3>> {
    segments.map_values(|segment: [Vector3; 2]| segment@)
}

pub open spec fn has_target(shared: Seq<SharedView>, target: Seq<char>) -> bool {
    exists|i: int| 0 <= i < shared.len() && (#[trigger] shared[i]).target == target
}

/// What has been shared, with a domain's mesh of the first interfaces added:
/// of each for which the domain on the other side has none yet, and on which
/// some edge lies.
pub open spec fn shared_after(
    shared: Seq<SharedView>,
    domain: Seq<char>,
    interfaces: Seq<InterfaceHits>,
    points: Map<PointKey, Point>,
    boundary: Seq<BoundaryEdge>,
    count: int,
) -> Seq<SharedView>
    decreases count,
{
    if count <= 0 {
        shared
    } else {
        let before = shared_after(shared, domain, interfaces, points, boundary, count - 1);
        let interface = interfaces[count - 1];
        let target = other_side(interface, domain);
        let segments = segments_on(points, boundary, interface.hits@, boundary.len() as int);
        if has_target(before, target) || segments.len() == 0 {
            before
        } else {
            before.push(SharedView { source: domain, target, segments })
        }
    }
}

fn copy_segments(
    points: &SortedMap<PointKey, Point>,
    boundary: &Vec<BoundaryEdge>,
    hits: &Vec<bool>,
) -> (result: Vec<[Vector3; 2]>)
    requires
        points.wf(),
        hits@.len() == boundary@.len(),
        ends_are_known(points@, boundary@),
    ensures
        segment_ends(result@) == segments_on(points@, boundary@, hits@, boundary@.len() as int),
{
    let mut list: Vec<[Vector3; 2]> = Vec::new();
    let mut i: usize = 0;
    assert(segment_ends(list@) =~= Seq::<Seq<Vector3>>::empty());
    while i < boundary.len()
        invariant
            i <= boundary@.len(),
            points.wf(),
            hits@.len() == boundary@.len(),
            ends_are_known(points@, boundary@),
            segment_ends(list@) == segments_on(points@, boundary@, hits@, i as int),
        decreases boundary@.len() - i,
    {
        let ghost before = list@;
        assert(end_known(points@, boundary@[i as int]));
        if hits[i] {
            match (points.get(&boundary[i].points[0]), points.get(&boundary[i].points[1])) {
                (Some(a), Some(b)) => {
                    let segment = [a.world, b.world];
                    list.push(segment);
                    assert(segment@ =~= seq![a.world, b.world]);
                    assert(segment_ends(list@) =~= segment_ends(before).push(segment@));
                },
                _ => {},
            }
        }
        i = i + 1;
    }
    list
}

/// The ends of the edge are known.
pub open spec fn end_known(points: Map<PointKey, Point>, edge: BoundaryEdge) -> bool {
    points.dom().contains(edge.points[0]) && points.dom().contains(edge.points[1])
}

pub open spec fn ends_are_known(points: Map<PointKey, Point>, boundary: Seq<BoundaryEdge>) -> bool {
    forall|i: int| 0 <= i < boundary.len() ==> end_known(points, #[trigger] boundary[i])
}

fn knows_target(shared: &Vec<SharedInterface>, target: &str) -> (result: bool)
    ensures
        result == has_target(shared_views(shared@), target@),
{
    let mut i: usize = 0;
    while i < shared.len()
        invariant
            i <= shared@.len(),
            forall|k: int| 0 <= k < i ==> (#[trigger] shared_views(shared@)[k]).target != target@,
        decreases shared@.len() - i,
    {
        assert(shared_views(shared@)[i as int] == shared@[i as int]@);
        if same_text(shared[i].target.as_str(), target) {
            return true;
        }
        i = i + 1;
    }
    false
}

/// Keeps a domain's mesh of its interfaces for the domains on the other side.
pub fn capture_shared_interfaces(
    domain: &str,
    interfaces: &Vec<InterfaceHits>,
    points: &SortedMap<PointKey, Point>,
    boundary: &Vec<BoundaryEdge>,
    shared: &mut Vec<SharedInterface>,
)
    requires
        points.wf(),
        ends_are_known(points@, boundary@),
        forall|i: int|
            0 <= i < interfaces@.len() ==> (#[trigger] interfaces@[i]).hits@.len()
                == boundary@.len(),
    ensures
        shared_views(final(shared)@) == shared_after(
            shared_views(old(shared)@),
            domain@,
            interfaces@,
            points@,
            boundary@,
            interfaces@.len() as int,
        ),
{
    let ghost start = shared_views(shared@);
    let mut i: usize = 0;
    while i < interfaces.len()
        invariant
            i <= interfaces@.len(),
            start == shared_views(old(shared)@),
            points.wf(),
            ends_are_known(points@, boundary@),
            forall|k: int|
                0 <= k < interfaces@.len() ==> (#[trigger] interfaces@[k]).hits@.len()
                    == boundary@.len(),
            shared_views(shared@) == shared_after(
                start,
                domain@,
                interfaces@,
                points@,
                boundary@,
                i as int,
            ),
        decreases interfaces@.len() - i,
    {
        let ghost before = shared_views(shared@);
        let interface = &interfaces[i];
        let target = if same_text(interface.domain_a.as_str(), domain) {
            interface.domain_b.as_str()
        } else {
            interface.domain_a.as_str()
        };
        if !knows_target(shared, target) {
            let segments = copy_segments(points, boundary, &interface.hits);
            assert(segments@.len() == segment_ends(segments@).len());
            if segments.len() > 0 {
                let entry = SharedInterface {
                    source: domain.to_owned(),
                    target: target.to_owned(),
                    segments,
                };
                shared.push(entry);
                assert(shared_views(shared@) =~= before.push(entry@));
            }
        }
        i = i + 1;
    }
}

/// What a boundary edge is.
#[verifier::ext_equal]
pub struct BoundaryView {
    pub points: Seq<PointKey>,
    pub cell: usize,
    pub owner: Option<Seq<char>>,
}

pub open spec fn boundary_view(edge: BoundaryEdge) -> BoundaryView {
    BoundaryView { points: edge.points@, cell: edge.cell, owner: owner_view(edge.owner) }
}

pub open spec fn boundary_views(boundary: Seq<BoundaryEdge>) -> Seq<BoundaryView> {
    boundary.map_values(|edge: BoundaryEdge| boundary_view(edge))
}

/// The point lies on the interface: it is one of the flagged keys.
pub open spec fn on_interface(keys: Seq<PointKey>, flags: Seq<bool>, key: PointKey) -> bool {
    exists|i: int| 0 <= i < keys.len() && flags[i] && #[trigger] keys[i] == key
}

/// The edge leads away from the interface: exactly one of its ends is on it.
pub open spec fn leads_away(keys: Seq<PointKey>, flags: Seq<bool>, edge: BoundaryEdge) -> bool {
    on_interface(keys, flags, edge.points[0]) != on_interface(keys, flags, edge.points[1])
}

/// The point is an end of an edge that leads away from the interface.
pub open spec fn at_transition(
    keys: Seq<PointKey>,
    flags: Seq<bool>,
    boundary: Seq<BoundaryEdge>,
    key: PointKey,
) -> bool {
    exists|i: int|
        0 <= i < boundary.len() && leads_away(keys, flags, #[trigger] boundary[i]) && (
        boundary[i].points[0] == key || boundary[i].points[1] == key)
}

/// The point lies inside the interface.
pub open spec fn inside_interface(
    keys: Seq<PointKey>,
    flags: Seq<bool>,
    boundary: Seq<BoundaryEdge>,
    key: PointKey,
) -> bool {
    on_interface(keys, flags, key) && !at_transition(keys, flags, boundary, key)
}

/// The first edges that stay: those with known ends that are not on the
/// interface.
pub open spec fn edges_off(
    points: Map<PointKey, Point>,
    boundary: Seq<BoundaryEdge>,
    hits: Seq<bool>,
    count: int,
) -> Seq<BoundaryView>
    decreases count,
{
    if count <= 0 {
        Seq::empty()
    } else {
        let rest = edges_off(points, boundary, hits, count - 1);
        if end_known(points, boundary[count - 1]) && !hits[count - 1] {
            rest.push(boundary_view(boundary[count - 1]))
        } else {
            rest
        }
    }
}

fn flagged_keys(keys: &Vec<PointKey>, flags: &Vec<bool>) -> (result: SortedSet<PointKey>)
    requires
        flags@.len() == keys@.len(),
    ensures
        result.wf(),
        forall|key: PointKey| #[trigger]
            result@.contains(key) <==> on_interface(keys@, flags@, key),
{
    let mut set = SortedSet::<PointKey>::new();
    let mut i: usize = 0;
    while i < keys.len()
        invariant
            i <= keys@.len(),
            flags@.len() == keys@.len(),
            set.wf(),
            forall|key: PointKey| #[trigger]
                set@.contains(key) <==> exists|k: int|
                    0 <= k < i && flags@[k] && #[trigger] keys@[k] == key,
        decreases keys@.len() - i,
    {
        let ghost before = set@;
        if flags[i] {
            set.insert(keys[i]);
        }
        assert forall|key: PointKey| #[trigger] set@.contains(key) <==> exists|k: int|
            0 <= k < i + 1 && flags@[k] && #[trigger] keys@[k] == key by {
            assert(before.contains(key) <==> exists|k: int|
                0 <= k < i && flags@[k] && #[trigger] keys@[k] == key);
            if key == keys@[i as int] && flags@[i as int] {
                assert(set@.contains(key));
            }
        }
        i = i + 1;
    }
    set
}

fn transition_keys(
    touching: &SortedSet<PointKey>,
    boundary: &Vec<BoundaryEdge>,
    Ghost(keys): Ghost<Seq<PointKey>>,
    Ghost(flags): Ghost<Seq<bool>>,
) -> (result: SortedSet<PointKey>)
    requires
        touching.wf(),
        forall|key: PointKey| #[trigger]
            touching@.contains(key) <==> on_interface(keys, flags, key),
    ensures
        result.wf(),
        forall|key: PointKey| #[trigger]
            result@.contains(key) <==> at_transition(keys, flags, boundary@, key),
{
    let mut set = SortedSet::<PointKey>::new();
    let mut i: usize = 0;
    while i < boundary.len()
        invariant
            i <= boundary@.len(),
            touching.wf(),
            forall|key: PointKey| #[trigger]
                touching@.contains(key) <==> on_interface(keys, flags, key),
            set.wf(),
            forall|key: PointKey| #[trigger]
                set@.contains(key) <==> at_transition(keys, flags, boundary@.take(i as int), key),
        decreases boundary@.len() - i,
    {
        let ghost before = set@;
        let first = boundary[i].points[0];
        let second = boundary[i].points[1];
        let away = touching.contains(&first) != touching.contains(&second);
        assert(touching@.contains(first) <==> on_interface(keys, flags, first));
        assert(touching@.contains(second) <==> on_interface(keys, flags, second));
        assert(away == leads_away(keys, flags, boundary@[i as int]));
        if away {
            set.insert(first);
            set.insert(second);
        }
        assert forall|key: PointKey| #[trigger] set@.contains(key) <==> at_transition(
            keys,
            flags,
            boundary@.take(i + 1),
            key,
        ) by {
            let less = boundary@.take(i as int);
            let more = boundary@.take(i + 1);
            assert(more[i as int] == boundary@[i as int]);
            assert(before.contains(key) <==> at_transition(keys, flags, less, key));
            if at_transition(keys, flags, less, key) {
                let p = choose|p: int|
                    0 <= p < less.len() && leads_away(keys, flags, #[trigger] less[p]) && (
                    less[p].points[0] == key || less[p].points[1] == key);
                assert(leads_away(keys, flags, more[p]));
            }
            if at_transition(keys, flags, more, key) {
                let p = choose|p: int|
                    0 <= p < more.len() && leads_away(keys, flags, #[trigger] more[p]) && (
                    more[p].points[0] == key || more[p].points[1] == key);
                if p < i {
                    assert(leads_away(keys, flags, less[p]));
                }
            }
        }
        i = i + 1;
    }
    assert(boundary@.take(i as int) =~= boundary@);
    set
}

/// The keys that are not in one set, or in another as well.
fn keys_without(
    keys: &Vec<PointKey>,
    touching: &SortedSet<PointKey>,
    spared: &SortedSet<PointKey>,
) -> (result: SortedSet<PointKey>)
    requires
        touching.wf(),
        spared.wf(),
    ensures
        result.wf(),
        forall|key: PointKey| #[trigger]
            result@.contains(key) <==> keys@.contains(key) && !(touching@.contains(key)
                && !spared@.contains(key)),
{
    let mut set = SortedSet::<PointKey>::new();
    let mut i: usize = 0;
    while i < keys.len()
        invariant
            i <= keys@.len(),
            touching.wf(),
            spared.wf(),
            set.wf(),
            forall|key: PointKey| #[trigger]
                set@.contains(key) <==> (exists|k: int| 0 <= k < i && #[trigger] keys@[k] == key)
                    && !(touching@.contains(key) && !spared@.contains(key)),
        decreases keys@.len() - i,
    {
        let ghost before = set@;
        let key = keys[i];
        if !(touching.contains(&key) && !spared.contains(&key)) {
            set.insert(key);
        }
        assert forall|other: PointKey| #[trigger] set@.contains(other) <==> (exists|k: int|
            0 <= k < i + 1 && #[trigger] keys@[k] == other) && !(touching@.contains(other)
            && !spared@.contains(other)) by {
            assert(before.contains(other) <==> (exists|k: int|
                0 <= k < i && #[trigger] keys@[k] == other) && !(touching@.contains(other)
                && !spared@.contains(other)));
            if other == key {
                assert(keys@[i as int] == other);
            }
        }
        i = i + 1;
    }
    assert forall|key: PointKey| #[trigger] set@.contains(key) <==> keys@.contains(key) && !(
    touching@.contains(key) && !spared@.contains(key)) by {
        if keys@.contains(key) {
            let k = keys@.index_of(key);
            assert(keys@[k] == key);
        }
    }
    set
}

/// Clears an interface for the other domain's mesh of it: its inner points go,
/// and the edges on it. `flags` says of each point whether it lies on the
/// interface, `hits` of each edge.
pub fn clear_interface(
    points: &mut SortedMap<PointKey, Point>,
    vertices: &mut SortedSet<PointKey>,
    boundary: &mut Vec<BoundaryEdge>,
    flags: &Vec<bool>,
    hits: &Vec<bool>,
)
    requires
        old(points).wf(),
        old(vertices).wf(),
        flags@.len() == old(points).keys@.len(),
        hits@.len() == old(boundary)@.len(),
    ensures
        final(points).wf(),
        final(vertices).wf(),
        forall|key: PointKey| #[trigger]
            final(points)@.dom().contains(key) <==> old(points)@.dom().contains(key)
                && !inside_interface(old(points).keys@, flags@, old(boundary)@, key),
        forall|key: PointKey| #[trigger]
            final(points)@.dom().contains(key) ==> final(points)@[key] == old(points)@[key],
        forall|key: PointKey| #[trigger]
            final(vertices)@.contains(key) <==> old(vertices)@.contains(key)
                && !inside_interface(old(points).keys@, flags@, old(boundary)@, key),
        boundary_views(final(boundary)@) == edges_off(
            final(points)@,
            old(boundary)@,
            hits@,
            hits@.len() as int,
        ),
{
    let ghost keys = points.keys@;
    let touching = flagged_keys(&points.keys, flags);
    let spared = transition_keys(&touching, boundary, Ghost(keys), Ghost(flags@));
    assert forall|key: PointKey| (#[trigger] touching@.contains(key) && !spared@.contains(key))
        == inside_interface(keys, flags@, boundary@, key) by {
        assert(touching@.contains(key) <==> on_interface(keys, flags@, key));
        assert(spared@.contains(key) <==> at_transition(keys, flags@, boundary@, key));
    }
    let kept = keys_without(&points.keys, &touching, &spared);
    let ghost known = points@;
    points.restrict(&kept);
    assert forall|key: PointKey| #[trigger] points@.dom().contains(key) <==> known.dom().contains(
        key,
    ) && !inside_interface(keys, flags@, boundary@, key) by {
        assert(kept@.contains(key) <==> keys.contains(key) && !(touching@.contains(key)
            && !spared@.contains(key)));
    }
    let left = keys_without(&vertices.items, &touching, &spared);
    let ghost before = vertices@;
    *vertices = left;
    assert forall|key: PointKey| #[trigger] vertices@.contains(key) <==> before.contains(key)
        && !inside_interface(keys, flags@, boundary@, key) by {
        assert(touching@.contains(key) <==> on_interface(keys, flags@, key));
    }
    let mut list: Vec<BoundaryEdge> = Vec::new();
    let mut i: usize = 0;
    assert(boundary_views(list@) =~= Seq::<BoundaryView>::empty());
    while i < boundary.len()
        invariant
            i <= boundary@.len(),
            boundary@ == old(boundary)@,
            hits@.len() == boundary@.len(),
            points.wf(),
            boundary_views(list@) == edges_off(points@, boundary@, hits@, i as int),
        decreases boundary@.len() - i,
    {
        let edge = &boundary[i];
        if points.contains_key(&edge.points[0]) && points.contains_key(&edge.points[1]) && !hits[i] {
            let ghost so_far = list@;
            let copy = BoundaryEdge {
                points: edge.points,
                cell: edge.cell,
                owner: copy_owner(&edge.owner),
            };
            list.push(copy);
            assert(boundary_views(list@) =~= boundary_views(so_far).push(boundary_view(copy)));
        }
        i = i + 1;
    }
    *boundary = list;
}

/// A position in space, by the bits of its coordinates.
pub open spec fn world_bits(world: Vector3) -> (u64, (u64, u64)) {
    (world[0].bits, (world[1].bits, world[2].bits))
}

/// The ends of segments, one after the other.
pub open spec fn ends_of(segments: Seq<[Vector3; 2]>) -> Seq<Vector3> {
    Seq::new(2 * segments.len(), |i: int| segments[i / 2][i % 2])
}

/// No end before this place has the same position.
pub open spec fn new_end(ends: Seq<Vector3>, place: int) -> bool {
    forall|i: int| 0 <= i < place ==> world_bits(#[trigger] ends[i]) != world_bits(ends[place])
}

/// How many positions the first ends have.
pub open spec fn positions(ends: Seq<Vector3>, count: int) -> int
    decreases count,
{
    if count <= 0 {
        0
    } else if new_end(ends, count - 1) {
        positions(ends, count - 1) + 1
    } else {
        positions(ends, count - 1)
    }
}

/// The first place with the position of the end at a place.
pub open spec fn first_place(ends: Seq<Vector3>, place: int, from: int) -> int
    decreases place - from,
{
    if from >= place || world_bits(ends[from]) == world_bits(ends[place]) {
        from
    } else {
        first_place(ends, place, from + 1)
    }
}

/// The name of an end: positions are named in the order in which they come.
pub open spec fn end_name(next: u64, ends: Seq<Vector3>, place: int) -> PointKey {
    PointKey::Inserted((next + positions(ends, first_place(ends, place, 0))) as u64)
}

/// The points with those at the first ends put in place.
pub open spec fn with_ends(
    points: Map<PointKey, Point>,
    next: u64,
    ends: Seq<Vector3>,
    spots: Seq<[Real; 2]>,
    count: int,
) -> Map<PointKey, Point>
    decreases count,
{
    if count <= 0 {
        points
    } else {
        let rest = with_ends(points, next, ends, spots, count - 1);
        if new_end(ends, count - 1) {
            rest.insert(
                end_name(next, ends, count - 1),
                Point {
                    uv: spots[count - 1],
                    world: ends[count - 1],
                    boundary: true,
                    protected: true,
                },
            )
        } else {
            rest
        }
    }
}

proof fn first_place_is_first(ends: Seq<Vector3>, place: int, from: int)
    requires
        0 <= from <= place,
        forall|i: int|
            0 <= i < from ==> world_bits(#[trigger] ends[i]) != world_bits(ends[place]),
    ensures
        from <= first_place(ends, place, from) <= place,
        world_bits(ends[first_place(ends, place, from)]) == world_bits(ends[place]),
        new_end(ends, first_place(ends, place, from)),
    decreases place - from,
{
    if from < place && world_bits(ends[from]) != world_bits(ends[place]) {
        first_place_is_first(ends, place, from + 1);
    }
}

proof fn positions_are_few(ends: Seq<Vector3>, count: int)
    requires
        0 <= count,
    ensures
        0 <= positions(ends, count) <= count,
    decreases count,
{
    if count > 0 {
        positions_are_few(ends, count - 1);
    }
}

/// Two ends have the same name exactly where they have the same position.
pub proof fn names_tell_positions(next: u64, ends: Seq<Vector3>, i: int, j: int)
    requires
        0 <= i < ends.len(),
        0 <= j < ends.len(),
        next + ends.len() <= u64::MAX,
    ensures
        end_name(next, ends, i) == end_name(next, ends, j) <==> world_bits(ends[i]) == world_bits(
            ends[j],
        ),
{
    first_place_is_first(ends, i, 0);
    first_place_is_first(ends, j, 0);
    let p = first_place(ends, i, 0);
    let q = first_place(ends, j, 0);
    positions_are_few(ends, p);
    positions_are_few(ends, q);
    if p < q {
        positions_grow(ends, p, q);
    } else if q < p {
        positions_grow(ends, q, p);
    }
}

proof fn positions_grow(ends: Seq<Vector3>, p: int, q: int)
    requires
        0 <= p < q,
        new_end(ends, p),
    ensures
        positions(ends, p) < positions(ends, q),
    decreases q,
{
    if p + 1 < q {
        positions_grow(ends, p, q - 1);
    }
}

/// Gives each position of the ends a point with a fresh name.
fn name_ends(
    points: &mut SortedMap<PointKey, Point>,
    next: &mut u64,
    segments: &Vec<[Vector3; 2]>,
    spots: &Vec<[Real; 2]>,
) -> (result: Vec<PointKey>)
    requires
        old(points).wf(),
        2 * segments@.len() <= usize::MAX,
        *old(next) + 2 * segments@.len() <= u64::MAX,
        spots@.len() == 2 * segments@.len(),
    ensures
        final(points).wf(),
        ({
            let ends = ends_of(segments@);
            &&& final(points)@ == with_ends(
                old(points)@,
                *old(next),
                ends,
                spots@,
                ends.len() as int,
            )
            &&& *final(next) == *old(next) + positions(ends, ends.len() as int)
            &&& result@.len() == ends.len()
            &&& forall|p: int|
                0 <= p < ends.len() ==> #[trigger] result@[p] == end_name(*old(next), ends, p)
        }),
{
    let ghost ends = ends_of(segments@);
    let ghost start = points@;
    let ghost first = *next;
    let count: usize = 2 * segments.len();
    let mut names = SortedMap::<(u64, (u64, u64)), PointKey>::new();
    let mut list: Vec<PointKey> = Vec::new();
    let mut i: usize = 0;
    while i < count
        invariant
            i <= count,
            count == 2 * segments@.len(),
            ends == ends_of(segments@),
            spots@.len() == count,
            first + count <= u64::MAX,
            first == *old(next),
            start == old(points)@,
            points.wf(),
            names.wf(),
            points@ == with_ends(start, first, ends, spots@, i as int),
            *next == first + positions(ends, i as int),
            list@.len() == i,
            forall|p: int| 0 <= p < i ==> #[trigger] list@[p] == end_name(first, ends, p),
            forall|p: int|
                0 <= p < i ==> names@.dom().contains(world_bits(#[trigger] ends[p])),
            forall|bits: (u64, (u64, u64))| #[trigger]
                names@.dom().contains(bits) ==> names_end(names@, list@, ends, bits),
        decreases count - i,
    {
        let world = segments[i / 2][i % 2];
        let bits = (world[0].bits, (world[1].bits, world[2].bits));
        let ghost known = names@;
        let ghost so_far = list@;
        assert(world == ends[i as int]);
        proof {
            first_place_is_first(ends, i as int, 0);
            positions_are_few(ends, i as int);
        }
        let found = match names.get(&bits) {
            Some(name) => Some(*name),
            None => None,
        };
        match found {
            None => {
                proof {
                    assert forall|p: int| 0 <= p < i implies world_bits(#[trigger] ends[p])
                        != world_bits(ends[i as int]) by {
                        assert(known.dom().contains(world_bits(ends[p])));
                    }
                    assert(new_end(ends, i as int));
                    assert(first_place(ends, i as int, 0) == i);
                }
                let key = PointKey::Inserted(*next);
                *next = *next + 1;
                points.insert(key, Point { uv: spots[i], world, boundary: true, protected: true });
                names.insert(bits, key);
                list.push(key);
            },
            Some(key) => {
                proof {
                    assert(names_end(known, so_far, ends, bits));
                    let p = choose|p: int|
                        0 <= p < so_far.len() && world_bits(#[trigger] ends[p]) == bits
                            && known[bits] == so_far[p];
                    assert(!new_end(ends, i as int)) by {
                        assert(world_bits(ends[p]) == world_bits(ends[i as int]));
                    }
                    names_tell_positions(first, ends, p, i as int);
                    assert(so_far[p] == end_name(first, ends, p));
                }
                list.push(key);
            },
        }
        assert forall|b: (u64, (u64, u64))| #[trigger] names@.dom().contains(b) implies names_end(
            names@,
            list@,
            ends,
            b,
        ) by {
            if known.dom().contains(b) {
                assert(names_end(known, so_far, ends, b));
                let p = choose|p: int|
                    0 <= p < so_far.len() && world_bits(#[trigger] ends[p]) == b && known[b]
                        == so_far[p];
                assert(list@[p] == so_far[p]);
                assert(world_bits(ends[p]) == b);
            } else {
                assert(world_bits(ends[i as int]) == b);
                assert(list@[i as int] == names@[b]);
            }
        }
        i = i + 1;
    }
    list
}

/// The map names a position as the list does one of the ends there.
spec fn names_end(
    names: Map<(u64, (u64, u64)), PointKey>,
    list: Seq<PointKey>,
    ends: Seq<Vector3>,
    bits: (u64, (u64, u64)),
) -> bool {
    exists|p: int|
        0 <= p < list.len() && world_bits(#[trigger] ends[p]) == bits && names[bits] == list[p]
}

/// Puts another domain's mesh of an interface in place: a new point for each
/// position, and an edge for each segment. `spots[i]` is where the end at place
/// `i` lies in the plane.
pub fn install_segments(
    points: &mut SortedMap<PointKey, Point>,
    next: &mut u64,
    vertices: &mut SortedSet<PointKey>,
    boundary: &mut Vec<BoundaryEdge>,
    segments: &Vec<[Vector3; 2]>,
    spots: &Vec<[Real; 2]>,
)
    requires
        old(points).wf(),
        old(vertices).wf(),
        2 * segments@.len() <= usize::MAX,
        *old(next) + 2 * segments@.len() <= u64::MAX,
        spots@.len() == 2 * segments@.len(),
    ensures
        final(points).wf(),
        final(vertices).wf(),
        ({
            let ends = ends_of(segments@);
            &&& final(points)@ == with_ends(
                old(points)@,
                *old(next),
                ends,
                spots@,
                ends.len() as int,
            )
            &&& *final(next) == *old(next) + positions(ends, ends.len() as int)
            &&& forall|key: PointKey| #[trigger]
                final(vertices)@.contains(key) <==> old(vertices)@.contains(key) || exists|i: int|
                    0 <= i < ends.len() && #[trigger] end_name(*old(next), ends, i) == key
            &&& boundary_views(final(boundary)@) == boundary_views(old(boundary)@) + Seq::new(
                segments@.len(),
                |k: int|
                    BoundaryView {
                        points: seq![
                            end_name(*old(next), ends, 2 * k),
                            end_name(*old(next), ends, 2 * k + 1),
                        ],
                        cell: 0,
                        owner: None,
                    },
            )
        }),
{
    let ghost ends = ends_of(segments@);
    let ghost first = *next;
    let ghost seen_before = vertices@;
    let list = name_ends(points, next, segments, spots);
    let mut i: usize = 0;
    while i < list.len()
        invariant
            i <= list@.len(),
            list@.len() == ends.len(),
            seen_before == old(vertices)@,
            forall|p: int| 0 <= p < ends.len() ==> #[trigger] list@[p] == end_name(first, ends, p),
            vertices.wf(),
            forall|key: PointKey| #[trigger]
                vertices@.contains(key) <==> seen_before.contains(key) || exists|p: int|
                    0 <= p < i && #[trigger] end_name(first, ends, p) == key,
        decreases list@.len() - i,
    {
        let ghost seen = vertices@;
        vertices.insert(list[i]);
        assert(list@[i as int] == end_name(first, ends, i as int));
        assert forall|key: PointKey| #[trigger] vertices@.contains(key) <==> seen_before.contains(
            key,
        ) || exists|p: int| 0 <= p < i + 1 && #[trigger] end_name(first, ends, p) == key by {
            assert(seen.contains(key) <==> seen_before.contains(key) || exists|p: int|
                0 <= p < i && #[trigger] end_name(first, ends, p) == key);
        }
        i = i + 1;
    }
    let ghost held = boundary_views(boundary@);
    let ghost added = Seq::new(
        segments@.len(),
        |k: int|
            BoundaryView {
                points: seq![end_name(first, ends, 2 * k), end_name(first, ends, 2 * k + 1)],
                cell: 0,
                owner: None,
            },
    );
    assert(held =~= held + added.take(0));
    let mut s: usize = 0;
    while s < segments.len()
        invariant
            s <= segments@.len(),
            ends.len() == 2 * segments@.len(),
            2 * segments@.len() <= usize::MAX,
            list@.len() == ends.len(),
            forall|p: int| 0 <= p < ends.len() ==> #[trigger] list@[p] == end_name(first, ends, p),
            added == Seq::new(
                segments@.len(),
                |k: int|
                    BoundaryView {
                        points: seq![
                            end_name(first, ends, 2 * k),
                            end_name(first, ends, 2 * k + 1),
                        ],
                        cell: 0,
                        owner: None,
                    },
            ),
            boundary_views(boundary@) == held + added.take(s as int),
        decreases segments@.len() - s,
    {
        let ghost before = boundary@;
        let edge = BoundaryEdge { points: [list[2 * s], list[2 * s + 1]], cell: 0, owner: None };
        boundary.push(edge);
        assert(boundary_view(edge) =~= added[s as int]);
        assert(boundary_views(boundary@) =~= boundary_views(before).push(boundary_view(edge)));
        assert(boundary_views(boundary@) =~= held + added.take(s + 1));
        s = s + 1;
    }
    assert(added.take(s as int) =~= added);
}

/// The segments of an interface are the boundary edges on it, in order, by where their ends
/// stand.
pub proof fn segments_lie_on_interface(
    points: Map<PointKey, Point>,
    boundary: Seq<BoundaryEdge>,
    hits: Seq<bool>,
    count: int,
) -> (places: Seq<int>)
    requires
        0 <= count,
    ensures
        segments_on(points, boundary, hits, count).len() == places.len(),
        forall|i: int, j: int|
            0 <= i < j < places.len() ==> (#[trigger] places[i]) < (#[trigger] places[j]),
        forall|k: int| #[trigger] places.contains(k) <==> 0 <= k < count && hits[k],
        forall|i: int|
            0 <= i < places.len() ==> segments_on(points, boundary, hits, count)[i] == seq![points[boundary[(#[trigger] places[i])].points[0]].world, points[boundary[(#[trigger] places[i])].points[1]].world],
    decreases count,
{
    if count == 0 {
        Seq::empty()
    } else {
        let list = segments_lie_on_interface(points, boundary, hits, count - 1);
        let last = count - 1;
        let takes = hits[last];
        let places = if takes {
            list.push(last)
        } else {
            list
        };
        let rest = segments_on(points, boundary, hits, count - 1);
        let now = segments_on(points, boundary, hits, count);
        
        assert forall|i: int| 0 <= i < list.len() implies 0 <= (#[trigger] list[i]) < last by {
            assert(list.contains(list[i]));
        }
        assert forall|k: int| #[trigger] places.contains(k) <==> 0 <= k < count && hits[k] by {
            if places.contains(k) {
                let m = places.index_of(k);
                if m < list.len() {
                    assert(list[m] == k);
                    assert(list.contains(k));
                }
            }
            if list.contains(k) {
                let m = list.index_of(k);
                assert(places[m] == k);
            }
            if k == last && takes {
                assert(places[list.len() as int] == k);
            }
        }
        assert forall|i: int| 0 <= i < places.len() implies now[i] == seq![points[boundary[(#[trigger] places[i])].points[0]].world, points[boundary[(#[trigger] places[i])].points[1]].world] by {
            if i < list.len() {
                assert(places[i] == list[i]);
                assert(now[i] == rest[i]);
            }
        }
        places
    }
}

/// The edges that stay beside an interface are those off it whose ends are known, in order.
pub proof fn edges_off_interface_stay(
    points: Map<PointKey, Point>,
    boundary: Seq<BoundaryEdge>,
    hits: Seq<bool>,
    count: int,
) -> (places: Seq<int>)
    requires
        0 <= count,
    ensures
        edges_off(points, boundary, hits, count).len() == places.len(),
        forall|i: int, j: int|
            0 <= i < j < places.len() ==> (#[trigger] places[i]) < (#[trigger] places[j]),
        forall|k: int| #[trigger] places.contains(k) <==> 0 <= k < count && (!hits[k] && points.dom().contains(boundary[k].points[0]) && points.dom().contains(boundary[k].points[1])),
        forall|i: int|
            0 <= i < places.len() ==> edges_off(points, boundary, hits, count)[i] == boundary_view(boundary[(#[trigger] places[i])]),
    decreases count,
{
    if count == 0 {
        Seq::empty()
    } else {
        let list = edges_off_interface_stay(points, boundary, hits, count - 1);
        let last = count - 1;
        let takes = (!hits[last] && points.dom().contains(boundary[last].points[0]) && points.dom().contains(boundary[last].points[1]));
        let places = if takes {
            list.push(last)
        } else {
            list
        };
        let rest = edges_off(points, boundary, hits, count - 1);
        let now = edges_off(points, boundary, hits, count);
        
        assert forall|i: int| 0 <= i < list.len() implies 0 <= (#[trigger] list[i]) < last by {
            assert(list.contains(list[i]));
        }
        assert forall|k: int| #[trigger] places.contains(k) <==> 0 <= k < count && (!hits[k] && points.dom().contains(boundary[k].points[0]) && points.dom().contains(boundary[k].points[1])) by {
            if places.contains(k) {
                let m = places.index_of(k);
                if m < list.len() {
                    assert(list[m] == k);
                    assert(list.contains(k));
                }
            }
            if list.contains(k) {
                let m = list.index_of(k);
                assert(places[m] == k);
            }
            if k == last && takes {
                assert(places[list.len() as int] == k);
            }
        }
        assert forall|i: int| 0 <= i < places.len() implies now[i] == boundary_view(boundary[(#[trigger] places[i])]) by {
            if i < list.len() {
                assert(places[i] == list[i]);
                assert(now[i] == rest[i]);
            }
        }
        places
    }
}

/// Every end stands under its name at its own position, at the spot that was found for the
/// first end there, on the boundary and held in place. Points from before keep their places.
pub proof fn ends_stand_in_place(
    points: Map<PointKey, Point>,
    next: u64,
    ends: Seq<Vector3>,
    spots: Seq<[Real; 2]>,
    count: int,
    place: int,
)
    requires
        0 <= place < count <= ends.len(),
        next + ends.len() <= u64::MAX,
    ensures
        ({
            let after = with_ends(points, next, ends, spots, count);
            let name = end_name(next, ends, place);
            &&& after.dom().contains(name)
            &&& world_bits(after[name].world) == world_bits(ends[place])
            &&& after[name].boundary && after[name].protected
            &&& new_end(ends, place) ==> after[name].uv == spots[place]
            &&& forall|key: PointKey|
                !(key matches PointKey::Inserted(n) && next <= n) ==> (
                #[trigger] after.dom().contains(key)) == points.dom().contains(key) && after[key]
                    == points[key]
        }),
    decreases count,
{
    let after = with_ends(points, next, ends, spots, count);
    let last = count - 1;
    let rest = with_ends(points, next, ends, spots, last);
    let name = end_name(next, ends, place);
    names_tell_positions(next, ends, place, last);
    first_place_is_first(ends, last, 0);
    positions_are_few(ends, first_place(ends, last, 0));
    if place < last {
        ends_stand_in_place(points, next, ends, spots, last, place);
        if new_end(ends, last) {
            assert(world_bits(ends[place]) != world_bits(ends[last]));
        }
    } else {
        ends_keep_points(points, next, ends, spots, last);
        if !new_end(ends, last) {
            let first = first_place(ends, last, 0);
            assert(first < last);
            ends_stand_in_place(points, next, ends, spots, last, first);
            names_tell_positions(next, ends, first, last);
        }
    }
    assert forall|key: PointKey| !(key matches PointKey::Inserted(n) && next <= n) implies (
    #[trigger] after.dom().contains(key)) == points.dom().contains(key) && after[key]
        == points[key] by {
        ends_keep_points(points, next, ends, spots, count);
    }
}

proof fn ends_keep_points(
    points: Map<PointKey, Point>,
    next: u64,
    ends: Seq<Vector3>,
    spots: Seq<[Real; 2]>,
    count: int,
)
    requires
        0 <= count <= ends.len(),
        next + ends.len() <= u64::MAX,
    ensures
        forall|key: PointKey|
            !(key matches PointKey::Inserted(n) && next <= n) ==> (#[trigger] with_ends(
                points,
                next,
                ends,
                spots,
                count,
            ).dom().contains(key)) == points.dom().contains(key) && with_ends(
                points,
                next,
                ends,
                spots,
                count,
            )[key] == points[key],
    decreases count,
{
    if count > 0 {
        ends_keep_points(points, next, ends, spots, count - 1);
        first_place_is_first(ends, count - 1, 0);
        positions_are_few(ends, first_place(ends, count - 1, 0));
        let before = with_ends(points, next, ends, spots, count - 1);
        let after = with_ends(points, next, ends, spots, count);
        assert forall|key: PointKey| !(key matches PointKey::Inserted(n) && next <= n) implies (
        #[trigger] after.dom().contains(key)) == points.dom().contains(key) && after[key]
            == points[key] by {
            assert(before.dom().contains(key) == points.dom().contains(key));
        }
    }
}

/// Sharing keeps what was shared before, adds entries from the domain only, never a second one
/// for a target, and leaves no interface out on which some edge lies.
pub proof fn each_neighbor_gets_one_share(
    shared: Seq<SharedView>,
    domain: Seq<char>,
    interfaces: Seq<InterfaceHits>,
    points: Map<PointKey, Point>,
    boundary: Seq<BoundaryEdge>,
    count: int,
)
    requires
        0 <= count <= interfaces.len(),
    ensures
        ({
            let after = shared_after(shared, domain, interfaces, points, boundary, count);
            &&& shared.len() <= after.len()
            &&& forall|i: int| 0 <= i < shared.len() ==> #[trigger] after[i] == shared[i]
            &&& forall|i: int|
                shared.len() <= i < after.len() ==> (#[trigger] after[i]).source == domain
                    && after[i].segments.len() > 0
            &&& forall|i: int, j: int|
                0 <= i < j < after.len() && shared.len() <= j ==> (#[trigger] after[i]).target != (
                #[trigger] after[j]).target
            &&& forall|k: int|
                0 <= k < count && segments_on(
                    points,
                    boundary,
                    (#[trigger] interfaces[k]).hits@,
                    boundary.len() as int,
                ).len() > 0 ==> exists|i: int|
                    0 <= i < after.len() && (#[trigger] after[i]).target == (
                    if interfaces[k].domain_a@ == domain {
                        interfaces[k].domain_b@
                    } else {
                        interfaces[k].domain_a@
                    })
        }),
    decreases count,
{
    if count > 0 {
        each_neighbor_gets_one_share(shared, domain, interfaces, points, boundary, count - 1);
        let before = shared_after(shared, domain, interfaces, points, boundary, count - 1);
        let after = shared_after(shared, domain, interfaces, points, boundary, count);
        let last = interfaces[count - 1];
        let target = other_side(last, domain);
        assert forall|i: int| 0 <= i < before.len() implies #[trigger] after[i] == before[i] by {}
        assert forall|i: int| 0 <= i < shared.len() implies #[trigger] after[i] == shared[i] by {
            assert(before[i] == shared[i]);
        }
        assert forall|i: int| shared.len() <= i < after.len() implies (#[trigger] after[i]).source
            == domain && after[i].segments.len() > 0 by {
            if i < before.len() {
                assert(after[i] == before[i]);
            }
        }
        assert forall|i: int, j: int|
            0 <= i < j < after.len() && shared.len() <= j implies (#[trigger] after[i]).target != (
        #[trigger] after[j]).target by {
            assert(after[i] == before[i]);
            if j < before.len() {
                assert(after[j] == before[j]);
            } else {
                assert(before[i].target != target);
            }
        }
        assert forall|k: int|
            0 <= k < count && segments_on(
                points,
                boundary,
                (#[trigger] interfaces[k]).hits@,
                boundary.len() as int,
            ).len() > 0 implies exists|i: int|
            0 <= i < after.len() && (#[trigger] after[i]).target == (
            if interfaces[k].domain_a@ == domain {
                interfaces[k].domain_b@
            } else {
                interfaces[k].domain_a@
            }) by {
            let wanted = if interfaces[k].domain_a@ == domain {
                interfaces[k].domain_b@
            } else {
                interfaces[k].domain_a@
            };
            if k < count - 1 || has_target(before, target) {
                let i = choose|i: int|
                    0 <= i < before.len() && (#[trigger] before[i]).target == wanted;
                assert(after[i].target == wanted);
            } else {
                assert(after[before.len() as int].target == wanted);
            }
        }
    }
}

/// Protecting flagged edges changes nothing but whether points stay: exactly the ends of
/// flagged edges are made to, and none is set free.
pub proof fn flagged_ends_stay(
    points: Map<PointKey, Point>,
    boundary: Seq<BoundaryEdge>,
    flags: Seq<bool>,
    count: int,
    key: PointKey,
)
    requires
        0 <= count <= boundary.len(),
        points.dom().contains(key),
    ensures
        ({
            let after = ends_protected(points, boundary, flags, count);
            &&& after.dom() == points.dom()
            &&& after[key].uv == points[key].uv
            &&& after[key].world == points[key].world
            &&& after[key].boundary == points[key].boundary
            &&& after[key].protected <==> points[key].protected || exists|i: int, k: int|
                0 <= i < count && 0 <= k < 2 && flags[i] && #[trigger] boundary[i].points@[k] == key
        }),
{
    let after = ends_protected(points, boundary, flags, count);
    assert(after.dom() =~= points.dom());
    if flagged_end(boundary, flags, count, key) {
        let i = choose|i: int|
            0 <= i < count && flags[i] && ((#[trigger] boundary[i]).points[0] == key
                || boundary[i].points[1] == key);
        assert(boundary[i].points@[0] == key || boundary[i].points@[1] == key);
    }
    if exists|i: int, k: int|
        0 <= i < count && 0 <= k < 2 && flags[i] && #[trigger] boundary[i].points@[k] == key {
        let (i, k) = choose|i: int, k: int|
            0 <= i < count && 0 <= k < 2 && flags[i] && #[trigger] boundary[i].points@[k] == key;
        assert(boundary[i].points[0] == key || boundary[i].points[1] == key);
    }
}

/// A point lies inside an interface exactly where it is on it and every boundary edge at it stays
/// on it: at a transition one of its edges leads away.
pub proof fn inside_edges_stay_on_interface(
    keys: Seq<PointKey>,
    flags: Seq<bool>,
    boundary: Seq<BoundaryEdge>,
    key: PointKey,
)
    ensures
        inside_interface(keys, flags, boundary, key) <==> on_interface(keys, flags, key) && forall|i: int|
            0 <= i < boundary.len() && ((#[trigger] boundary[i]).points[0] == key
                || boundary[i].points[1] == key) ==> on_interface(keys, flags, boundary[i].points[0])
                && on_interface(keys, flags, boundary[i].points[1]),
{
    if on_interface(keys, flags, key) {
        if at_transition(keys, flags, boundary, key) {
            let i = choose|i: int|
                0 <= i < boundary.len() && leads_away(keys, flags, #[trigger] boundary[i]) && (
                boundary[i].points[0] == key || boundary[i].points[1] == key);
            assert(boundary[i].points[0] == key || boundary[i].points[1] == key);
        } else {
            assert forall|i: int|
                0 <= i < boundary.len() && ((#[trigger] boundary[i]).points[0] == key
                    || boundary[i].points[1] == key) implies on_interface(
                keys,
                flags,
                boundary[i].points[0],
            ) && on_interface(keys, flags, boundary[i].points[1]) by {
                assert(!leads_away(keys, flags, boundary[i]));
            }
        }
    }
}

} // verus!
