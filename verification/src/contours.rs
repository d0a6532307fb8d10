//! Tracing boundary edges into closed contours, and the constraint graph made
//! of them.

use vstd::prelude::*;

use crate::grouping::Grouping;
#[allow(unused_imports)]
use crate::grouping::{places_are_exact, places_of};
use crate::sorted::{same_key, Key, SortedMap, SortedSet};

verus! {

/// Why boundary edges are not closed contours.
#[derive(Debug, Clone, Copy, PartialEq, Eq, Structural)]
pub enum ContourFault {
    Empty,
    Repeated,
    Ambiguous,
    Degenerate,
}

impl ContourFault {
    pub open spec fn text(self) -> Seq<char> {
        match self {
            ContourFault::Empty => "has no closed boundary constraints"@,
            ContourFault::Repeated => "contains a degenerate or duplicate boundary constraint"@,
            ContourFault::Ambiguous => "has ambiguous boundary incidence"@,
            ContourFault::Degenerate => "boundary contour is degenerate"@,
        }
    }

    pub fn as_str(self) -> (result: &'static str)
        ensures
            result@ == self.text(),
    {
        match self {
            ContourFault::Empty => "has no closed boundary constraints",
            ContourFault::Repeated => "contains a degenerate or duplicate boundary constraint",
            ContourFault::Ambiguous => "has ambiguous boundary incidence",
            ContourFault::Degenerate => "boundary contour is degenerate",
        }
    }
}

/// The two points in order.
pub open spec fn pair_of<K: Key>(a: K, b: K) -> (K, K) {
    if b.before(a) {
        (b, a)
    } else {
        (a, b)
    }
}

pub fn pair<K: Key + Copy>(a: K, b: K) -> (result: (K, K))
    ensures
        result == pair_of(a, b),
{
    if b.precedes(&a) {
        (b, a)
    } else {
        (a, b)
    }
}

/// The order of two points does not matter to their pair.
pub proof fn pair_is_symmetric<K: Key>(a: K, b: K)
    ensures
        pair_of(a, b) == pair_of(b, a),
{
    K::total(a, b);
    if a.before(b) && b.before(a) {
        K::transitive(a, b, a);
        K::irreflexive(a);
    }
}

/// The edge joins a point to itself, or an earlier edge joins the same points.
pub open spec fn repeats_edge<K: Key>(edges: Seq<(K, K)>, place: int) -> bool {
    edges[place].0 == edges[place].1 || exists|k: int|
        0 <= k < place && pair_of((#[trigger] edges[k]).0, edges[k].1) == pair_of(
            edges[place].0,
            edges[place].1,
        )
}

/// No edge repeats another or joins a point to itself.
pub open spec fn simple_edges<K: Key>(edges: Seq<(K, K)>) -> bool {
    forall|i: int| 0 <= i < edges.len() ==> !#[trigger] repeats_edge(edges, i)
}

/// The ends of all edges, two for each edge.
pub open spec fn ends_of<K>(edges: Seq<(K, K)>) -> Seq<K> {
    Seq::new(
        2 * edges.len(),
        |i: int|
            if i % 2 == 0 {
                edges[i / 2].0
            } else {
                edges[i / 2].1
            },
    )
}

/// Every point lies on two edges.
pub open spec fn two_edges_each<K: Key>(edges: Seq<(K, K)>) -> bool {
    forall|point: K|
        (#[trigger] places_of(ends_of(edges), point)).len() > 0 ==> places_of(
            ends_of(edges),
            point,
        ).len() == 2
}

/// A closed walk along edges: the points it meets, and the edges between them.
#[derive(Debug)]
pub struct Contour<K> {
    pub points: Vec<K>,
    pub edges: Vec<usize>,
}

/// The edge joins the two points.
pub open spec fn joins<K>(edge: (K, K), a: K, b: K) -> bool {
    (edge.0 == a && edge.1 == b) || (edge.0 == b && edge.1 == a)
}

/// The points follow one another along the edges.
pub open spec fn follows<K>(edges: Seq<(K, K)>, points: Seq<K>, walk: Seq<usize>) -> bool {
    &&& points.len() == walk.len() + 1
    &&& forall|i: int|
        0 <= i < walk.len() ==> (#[trigger] walk[i]) < edges.len() && joins(
            edges[walk[i] as int],
            points[i],
            points[i + 1],
        )
}

/// The walk runs along its edges and ends where it began.
pub open spec fn closed_walk<K>(edges: Seq<(K, K)>, contour: Contour<K>) -> bool {
    &&& follows(edges, contour.points@, contour.edges@)
    &&& contour.edges@.len() > 0
    &&& contour.points@[0] == contour.points@.last()
    &&& contour.points@[0] == edges[contour.edges@[0] as int].0
    &&& contour.points@[1] == edges[contour.edges@[0] as int].1
}

/// How often an edge is walked along in the first contours.
pub open spec fn uses<K>(contours: Seq<Contour<K>>, edge: usize) -> nat
    decreases contours.len(),
{
    if contours.len() == 0 {
        0
    } else {
        uses(contours.drop_last(), edge) + places_of(contours.last().edges@, edge).len()
    }
}

/// How many edges are not used.
pub open spec fn idle(used: Seq<bool>) -> nat
    decreases used.len(),
{
    if used.len() == 0 {
        0
    } else {
        idle(used.drop_last()) + if used.last() {
            0nat
        } else {
            1nat
        }
    }
}

proof fn using_leaves_less(used: Seq<bool>, place: int)
    requires
        0 <= place < used.len(),
        !used[place],
    ensures
        idle(used.update(place, true)) + 1 == idle(used),
    decreases used.len(),
{
    let after = used.update(place, true);
    if place == used.len() - 1 {
        assert(after.drop_last() =~= used.drop_last());
    } else {
        using_leaves_less(used.drop_last(), place);
        assert(after.drop_last() =~= used.drop_last().update(place, true));
    }
}

/// The edge that the end at a place belongs to.
pub open spec fn edge_at(place: usize) -> int {
    place as int / 2
}

/// Both edges of the point are used, or neither.
pub open spec fn settled<K>(edges: Seq<(K, K)>, used: Seq<bool>, point: K) -> bool {
    let places = places_of(ends_of(edges), point);
    used[edge_at(places[0])] == used[edge_at(places[1])]
}

/// The point lies on an edge.
pub open spec fn on_edge<K>(edges: Seq<(K, K)>, point: K) -> bool {
    places_of(ends_of(edges), point).len() > 0
}

/// Exactly the two ends of an open walk lie on one used and one unused edge.
pub open spec fn balanced<K>(edges: Seq<(K, K)>, used: Seq<bool>, start: K, point: K) -> bool {
    forall|other: K| #[trigger]
        on_edge(edges, other) ==> (settled(edges, used, other) <==> start == point || (other != start
            && other != point))
}

proof fn edges_of_point<K: Key>(edges: Seq<(K, K)>, point: K, edge: int)
    requires
        2 * edges.len() <= usize::MAX,
        simple_edges(edges),
        two_edges_each(edges),
        on_edge(edges, point),
        0 <= edge < edges.len(),
    ensures
        ({
            let places = places_of(ends_of(edges), point);
            &&& places.len() == 2
            &&& 0 <= edge_at(places[0]) < edges.len()
            &&& 0 <= edge_at(places[1]) < edges.len()
            &&& edge_at(places[0]) != edge_at(places[1])
            &&& (edges[edge].0 == point || edges[edge].1 == point) <==> (edge == edge_at(places[0])
                || edge == edge_at(places[1]))
            &&& places[0] % 2 == 0 <==> edges[edge_at(places[0])].0 == point
            &&& places[1] % 2 == 0 <==> edges[edge_at(places[1])].0 == point
        }),
{
    let ends = ends_of(edges);
    let places = places_of(ends, point);
    places_are_exact(ends, point);
    assert(places.len() == 2);
    let p = places[0] as int;
    let q = places[1] as int;
    assert(p < q);
    assert(ends[p] == point && ends[q] == point);
    assert(!repeats_edge(edges, p / 2));
    assert(!repeats_edge(edges, q / 2));
    if p / 2 == q / 2 {
        assert(edges[p / 2].0 == edges[p / 2].1);
    }
    if edges[edge].0 == point {
        assert(ends[2 * edge] == point);
        assert(places.contains((2 * edge) as usize));
        let k = places.index_of((2 * edge) as usize);
        assert(places[k] == 2 * edge);
    }
    if edges[edge].1 == point {
        assert(ends[2 * edge + 1] == point);
        assert(places.contains((2 * edge + 1) as usize));
        let k = places.index_of((2 * edge + 1) as usize);
        assert(places[k] == 2 * edge + 1);
    }
}

proof fn edge_ends_lie_on_edges<K>(edges: Seq<(K, K)>, edge: int)
    requires
        2 * edges.len() <= usize::MAX,
        0 <= edge < edges.len(),
    ensures
        on_edge(edges, edges[edge].0),
        on_edge(edges, edges[edge].1),
{
    let ends = ends_of(edges);
    places_are_exact(ends, edges[edge].0);
    places_are_exact(ends, edges[edge].1);
    assert(ends[2 * edge] == edges[edge].0);
    assert(ends[2 * edge + 1] == edges[edge].1);
}

/// Walking along an unused edge from the end of an open walk, or as the first
/// step of a new one, keeps the balance.
proof fn step_keeps_balance<K: Key>(
    edges: Seq<(K, K)>,
    used: Seq<bool>,
    start: K,
    point: K,
    edge: int,
    next: K,
)
    requires
        2 * edges.len() <= usize::MAX,
        used.len() == edges.len(),
        simple_edges(edges),
        two_edges_each(edges),
        balanced(edges, used, start, point),
        0 <= edge < edges.len(),
        !used[edge],
        joins(edges[edge], point, next),
    ensures
        balanced(edges, used.update(edge, true), start, next),
{
    let after = used.update(edge, true);
    edge_ends_lie_on_edges(edges, edge);
    assert(!repeats_edge(edges, edge));
    assert(point != next);
    assert forall|other: K| #[trigger] on_edge(edges, other) implies (settled(edges, after, other)
        <==> start == next || (other != start && other != next)) by {
        edges_of_point(edges, other, edge);
        let places = places_of(ends_of(edges), other);
        assert(settled(edges, used, other) <==> start == point || (other != start && other
            != point));
    }
}

/// Every edge is either used and walked along once, or unused and not walked
/// along.
pub open spec fn walked_once<K>(contours: Seq<Contour<K>>, used: Seq<bool>) -> bool {
    forall|edge: int|
        0 <= edge < used.len() ==> uses(contours, edge as usize) == if #[trigger] used[edge] {
            1nat
        } else {
            0nat
        }
}

/// The walk runs along the edge once where it became used, and otherwise not.
pub open spec fn edge_used(walk: Seq<usize>, before: bool, after: bool, edge: usize) -> bool {
    &&& before ==> after
    &&& places_of(walk, edge).len() == if after && !before {
        1nat
    } else {
        0nat
    }
}

/// The walk has used exactly the edges that became used.
pub open spec fn walk_used(walk: Seq<usize>, before: Seq<bool>, after: Seq<bool>) -> bool {
    &&& before.len() == after.len()
    &&& forall|edge: int|
        0 <= edge < before.len() ==> #[trigger] edge_used(
            walk,
            before[edge],
            after[edge],
            edge as usize,
        )
}

proof fn walk_grows(walk: Seq<usize>, before: Seq<bool>, after: Seq<bool>, edge: usize)
    requires
        walk_used(walk, before, after),
        edge < after.len(),
        !after[edge as int],
        before.len() <= usize::MAX,
    ensures
        walk_used(walk.push(edge), before, after.update(edge as int, true)),
{
    let longer = walk.push(edge);
    let now = after.update(edge as int, true);
    assert(longer.drop_last() =~= walk);
    assert forall|other: int| 0 <= other < before.len() implies #[trigger] edge_used(
        longer,
        before[other],
        now[other],
        other as usize,
    ) by {
        assert(edge_used(walk, before[other], after[other], other as usize));
    }
}

/// The unused edge of the two on a point, and the point at its other end.
fn step_from<K: Key + Copy>(
    edges: &Vec<(K, K)>,
    places: &Vec<usize>,
    used: &Vec<bool>,
    Ghost(start): Ghost<K>,
    point: K,
) -> (result: (usize, K))
    requires
        2 * edges@.len() <= usize::MAX,
        used@.len() == edges@.len(),
        simple_edges(edges@),
        two_edges_each(edges@),
        on_edge(edges@, point),
        places@ == places_of(ends_of(edges@), point),
        balanced(edges@, used@, start, point),
        start != point,
    ensures
        result.0 < edges@.len(),
        !used@[result.0 as int],
        joins(edges@[result.0 as int], point, result.1),
{
    proof {
        edges_of_point(edges@, point, 0);
        places_are_exact(ends_of(edges@), point);
        assert(!settled(edges@, used@, point));
    }
    let first: usize = places[0] / 2;
    let place: usize = if !used[first] {
        places[0]
    } else {
        places[1]
    };
    let edge: usize = place / 2;
    assert(edge == edge_at(place));
    let next = if place % 2 == 0 {
        edges[edge].1
    } else {
        edges[edge].0
    };
    (edge, next)
}

/// Walks from the start of an unused edge along unused edges until it is back.
fn walk_contour<K: Key + Copy>(
    edges: &Vec<(K, K)>,
    ends: &Grouping<K>,
    used: &mut Vec<bool>,
    first: usize,
) -> (result: Contour<K>)
    requires
        2 * edges@.len() <= usize::MAX,
        old(used)@.len() == edges@.len(),
        simple_edges(edges@),
        two_edges_each(edges@),
        ends.gathers(ends_of(edges@)),
        first < edges@.len(),
        !old(used)@[first as int],
        forall|point: K| #[trigger]
            on_edge(edges@, point) ==> settled(edges@, old(used)@, point),
    ensures
        closed_walk(edges@, result),
        result.edges@[0] == first,
        walk_used(result.edges@, old(used)@, final(used)@),
        idle(final(used)@) < idle(old(used)@),
        final(used)@[first as int],
        forall|point: K| #[trigger]
            on_edge(edges@, point) ==> settled(edges@, final(used)@, point),
{
    let ghost before = used@;
    let start = edges[first].0;
    let mut point = edges[first].1;
    let mut points: Vec<K> = Vec::new();
    let mut walk: Vec<usize> = Vec::new();
    proof {
        assert(walk_used(walk@, before, before));
        assert(balanced(edges@, before, start, start));
        walk_grows(walk@, before, before, first);
        step_keeps_balance(edges@, before, start, start, first as int, point);
        using_leaves_less(before, first as int);
        edge_ends_lie_on_edges(edges@, first as int);
    }
    points.push(start);
    points.push(point);
    walk.push(first);
    used.set(first, true);
    assert(used@ =~= before.update(first as int, true));
    while !same_key(&point, &start)
        invariant
            2 * edges@.len() <= usize::MAX,
            used@.len() == edges@.len(),
            before.len() == edges@.len(),
            simple_edges(edges@),
            two_edges_each(edges@),
            ends.gathers(ends_of(edges@)),
            on_edge(edges@, point),
            balanced(edges@, used@, start, point),
            walk_used(walk@, before, used@),
            idle(used@) < idle(before),
            used@[first as int],
            first < edges@.len(),
            follows(edges@, points@, walk@),
            walk@.len() > 0,
            walk@[0] == first,
            points@[0] == start,
            points@[1] == edges@[first as int].1,
            start == edges@[first as int].0,
            points@.last() == point,
        decreases idle(used@),
    {
        let ghost so_far = used@;
        if let Some(places) = ends.groups.get(&point) {
            let (edge, next) = step_from(edges, places, used, Ghost(start), point);
            proof {
                step_keeps_balance(edges@, so_far, start, point, edge as int, next);
                using_leaves_less(so_far, edge as int);
                walk_grows(walk@, before, so_far, edge);
                edge_ends_lie_on_edges(edges@, edge as int);
            }
            used.set(edge, true);
            assert(used@ =~= so_far.update(edge as int, true));
            let ghost path = points@;
            let ghost trail = walk@;
            walk.push(edge);
            points.push(next);
            point = next;
            assert(follows(edges@, points@, walk@)) by {
                assert forall|i: int| 0 <= i < walk@.len() implies (#[trigger] walk@[i])
                    < edges@.len() && joins(edges@[walk@[i] as int], points@[i], points@[i + 1]) by {
                    if i < trail.len() {
                        assert(trail[i] == walk@[i]);
                        assert(path[i] == points@[i] && path[i + 1] == points@[i + 1]);
                    }
                }
            }
        }
    }
    Contour { points, edges: walk }
}

fn list_ends<K: Copy>(edges: &Vec<(K, K)>) -> (result: Vec<K>)
    requires
        2 * edges@.len() <= usize::MAX,
    ensures
        result@ == ends_of(edges@),
{
    let mut ends: Vec<K> = Vec::new();
    let mut i: usize = 0;
    while i < edges.len()
        invariant
            i <= edges.len(),
            2 * edges@.len() <= usize::MAX,
            ends@ == ends_of(edges@).take(2 * i),
        decreases edges.len() - i,
    {
        ends.push(edges[i].0);
        ends.push(edges[i].1);
        proof {
            let all = ends_of(edges@);
            assert(all[2 * i] == edges@[i as int].0);
            assert(all[2 * i + 1] == edges@[i as int].1);
            assert(ends@ =~= all.take(2 * (i + 1)));
        }
        i += 1;
    }
    assert(ends@ =~= ends_of(edges@));
    ends
}

/// Whether no edge repeats another or joins a point to itself.
pub fn is_simple<K: Key + Copy>(edges: &Vec<(K, K)>) -> (result: bool)
    ensures
        result == simple_edges(edges@),
{
    let mut seen = SortedSet::<(K, K)>::new();
    let mut i: usize = 0;
    while i < edges.len()
        invariant
            i <= edges.len(),
            seen.wf(),
            forall|key: (K, K)| #[trigger]
                seen@.contains(key) <==> exists|k: int|
                    0 <= k < i && pair_of((#[trigger] edges@[k]).0, edges@[k].1) == key,
            forall|k: int| 0 <= k < i ==> !#[trigger] repeats_edge(edges@, k),
        decreases edges.len() - i,
    {
        let ghost before = seen@;
        let key = pair(edges[i].0, edges[i].1);
        let loops = same_key(&edges[i].0, &edges[i].1);
        let fresh = seen.insert(key);
        assert(repeats_edge(edges@, i as int) == (loops || !fresh));
        if loops || !fresh {
            return false;
        }
        assert forall|other: (K, K)| #[trigger] seen@.contains(other) <==> exists|k: int|
            0 <= k < i + 1 && pair_of((#[trigger] edges@[k]).0, edges@[k].1) == other by {
            if before.contains(other) {
                let k = choose|k: int|
                    0 <= k < i && pair_of((#[trigger] edges@[k]).0, edges@[k].1) == other;
                assert(pair_of(edges@[k].0, edges@[k].1) == other);
            }
            if other == key {
                assert(pair_of(edges@[i as int].0, edges@[i as int].1) == other);
            }
            if exists|k: int|
                0 <= k < i + 1 && pair_of((#[trigger] edges@[k]).0, edges@[k].1) == other {
                let k = choose|k: int|
                    0 <= k < i + 1 && pair_of((#[trigger] edges@[k]).0, edges@[k].1) == other;
                if k < i {
                    assert(before.contains(other));
                }
            }
        }
        i += 1;
    }
    true
}

fn meet_in_pairs<K: Key + Copy>(ends: &Grouping<K>, Ghost(edges): Ghost<Seq<(K, K)>>) -> (result:
    bool)
    requires
        ends.gathers(ends_of(edges)),
    ensures
        result == two_edges_each(edges),
{
    let mut i: usize = 0;
    while i < ends.groups.keys.len()
        invariant
            i <= ends.groups.keys.len(),
            ends.gathers(ends_of(edges)),
            forall|k: int| 0 <= k < i ==> (#[trigger] ends.groups.values@[k])@.len() == 2,
        decreases ends.groups.keys.len() - i,
    {
        proof {
            ends.group_at(ends_of(edges), i as int);
        }
        if ends.groups.values[i].len() != 2 {
            return false;
        }
        i += 1;
    }
    proof {
        assert forall|point: K| (#[trigger] places_of(ends_of(edges), point)).len() > 0 implies
            places_of(ends_of(edges), point).len() == 2 by {
            assert(ends.groups@.dom().contains(point));
            let k = ends.groups.keys@.index_of(point);
            assert(ends.groups.keys@.contains(point));
            ends.group_at(ends_of(edges), k);
            assert(ends.groups.values@[k]@.len() == 2);
        }
    }
    true
}

/// The contours are closed, and together walk along every edge exactly once.
pub open spec fn traces<K>(edges: Seq<(K, K)>, contours: Seq<Contour<K>>) -> bool {
    &&& forall|i: int| 0 <= i < contours.len() ==> closed_walk(edges, #[trigger] contours[i])
    &&& forall|edge: int|
        0 <= edge < edges.len() ==> #[trigger] uses(contours, edge as usize) == 1
}

/// Each contour starts with the first edge that no earlier contour uses.
pub open spec fn starts_in_order<K>(contours: Seq<Contour<K>>) -> bool {
    forall|i: int, edge: int|
        0 <= i < contours.len() && 0 <= edge < contours[i].edges@[0] ==> #[trigger] uses(
            contours.take(i),
            edge as usize,
        ) == 1
}

/// Traces edges into closed contours. Each starts with the first edge not yet
/// used, in its direction.
pub fn trace_contours<K: Key + Copy>(edges: &Vec<(K, K)>) -> (result: Result<
    Vec<Contour<K>>,
    ContourFault,
>)
    requires
        2 * edges@.len() <= usize::MAX,
    ensures
        match result {
            Ok(contours) => edges@.len() > 0 && simple_edges(edges@) && two_edges_each(edges@)
                && traces(edges@, contours@) && starts_in_order(contours@),
            Err(ContourFault::Empty) => edges@.len() == 0,
            Err(ContourFault::Repeated) => edges@.len() > 0 && !simple_edges(edges@),
            Err(ContourFault::Ambiguous) => edges@.len() > 0 && simple_edges(edges@)
                && !two_edges_each(edges@),
            Err(ContourFault::Degenerate) => false,
        },
{
    if edges.len() == 0 {
        return Err(ContourFault::Empty);
    }
    if !is_simple(edges) {
        return Err(ContourFault::Repeated);
    }
    let list = list_ends(edges);
    let ends = Grouping::gather(&list);
    if !meet_in_pairs(&ends, Ghost(edges@)) {
        return Err(ContourFault::Ambiguous);
    }
    let mut used: Vec<bool> = Vec::new();
    while used.len() < edges.len()
        invariant
            used.len() <= edges.len(),
            forall|k: int| 0 <= k < used.len() ==> !#[trigger] used@[k],
        decreases edges.len() - used.len(),
    {
        used.push(false);
    }
    let mut contours: Vec<Contour<K>> = Vec::new();
    let mut next: usize = 0;
    proof {
        assert forall|point: K| #[trigger] on_edge(edges@, point) implies settled(
            edges@,
            used@,
            point,
        ) by {
            edges_of_point(edges@, point, 0);
        }
    }
    while next < edges.len()
        invariant
            next <= edges.len(),
            2 * edges@.len() <= usize::MAX,
            simple_edges(edges@),
            two_edges_each(edges@),
            ends.gathers(ends_of(edges@)),
            used@.len() == edges@.len(),
            forall|k: int| 0 <= k < next ==> #[trigger] used@[k],
            forall|point: K| #[trigger]
                on_edge(edges@, point) ==> settled(edges@, used@, point),
            walked_once(contours@, used@),
            forall|i: int|
                0 <= i < contours@.len() ==> closed_walk(edges@, #[trigger] contours@[i]),
            starts_in_order(contours@),
        decreases edges.len() - next,
    {
        if !used[next] {
            let ghost before = used@;
            let ghost done = contours@;
            let contour = walk_contour(edges, &ends, &mut used, next);
            contours.push(contour);
            proof {
                assert(contours@.drop_last() =~= done);
                assert forall|edge: int| 0 <= edge < used@.len() implies uses(
                    contours@,
                    edge as usize,
                ) == if #[trigger] used@[edge] {
                    1nat
                } else {
                    0nat
                } by {
                    assert(uses(done, edge as usize) == if before[edge] {
                        1nat
                    } else {
                        0nat
                    });
                    assert(edge_used(contour.edges@, before[edge], used@[edge], edge as usize));
                }
                assert forall|i: int, edge: int|
                    0 <= i < contours@.len() && 0 <= edge
                        < contours@[i].edges@[0] implies #[trigger] uses(
                    contours@.take(i),
                    edge as usize,
                ) == 1 by {
                    if i < done.len() {
                        assert(contours@.take(i) =~= done.take(i));
                        assert(done[i] == contours@[i]);
                    } else {
                        assert(contours@.take(i) =~= done);
                        assert(before[edge]);
                    }
                }
                assert forall|k: int| 0 <= k < next implies #[trigger] used@[k] by {
                    assert(before[k]);
                    assert(edge_used(contour.edges@, before[k], used@[k], k as usize));
                }
            }
        }
        next += 1;
    }
    proof {
        assert forall|edge: int| 0 <= edge < edges@.len() implies #[trigger] uses(
            contours@,
            edge as usize,
        ) == 1 by {
            assert(used@[edge]);
        }
    }
    Ok(contours)
}

/// No two edges start at the same point, and no two end at the same point.
pub open spec fn oriented_paths<K>(edges: Seq<(K, K)>) -> bool {
    forall|i: int, j: int|
        0 <= i < j < edges.len() ==> (#[trigger] edges[i]).0 != (#[trigger] edges[j]).0 && edges[i].1
            != edges[j].1
}

/// Some edge ends at the point.
pub open spec fn is_entered<K>(edges: Seq<(K, K)>, point: K) -> bool {
    exists|i: int| 0 <= i < edges.len() && (#[trigger] edges[i]).1 == point
}

/// The points follow one another along the edges in their direction.
pub open spec fn runs_along<K>(edges: Seq<(K, K)>, points: Seq<K>, walk: Seq<usize>) -> bool {
    &&& points.len() == walk.len() + 1
    &&& forall|i: int|
        0 <= i < walk.len() ==> (#[trigger] walk[i]) < edges.len() && edges[walk[i] as int].0
            == points[i] && edges[walk[i] as int].1 == points[i + 1]
}

/// The edge is the one to start a path with: the first unused edge that no
/// edge leads to, or, where there is none such, the first unused edge.
pub open spec fn starts_path<K>(edges: Seq<(K, K)>, used: Seq<bool>, first: int) -> bool {
    &&& 0 <= first < edges.len()
    &&& !used[first]
    &&& if is_entered(edges, edges[first].0) {
        forall|i: int|
            0 <= i < edges.len() && !(#[trigger] used[i]) ==> first <= i && is_entered(
                edges,
                edges[i].0,
            )
    } else {
        forall|i: int| 0 <= i < first && !(#[trigger] used[i]) ==> is_entered(edges, edges[i].0)
    }
}

/// The path is back at its start, or every edge that leaves its end is used.
pub open spec fn path_ends<K>(edges: Seq<(K, K)>, used: Seq<bool>, points: Seq<K>) -> bool {
    points.last() == points[0] || forall|i: int|
        0 <= i < edges.len() && (#[trigger] edges[i]).0 == points.last() ==> used[i]
}

/// The edges that the first paths use.
pub open spec fn used_by<K>(paths: Seq<Contour<K>>, edges: nat) -> Seq<bool> {
    Seq::new(edges, |edge: int| uses(paths, edge as usize) > 0)
}

/// The paths run along every edge exactly once, each from the edge to start with
/// until it is back or cannot go on.
pub open spec fn path_list<K>(edges: Seq<(K, K)>, paths: Seq<Contour<K>>) -> bool {
    forall|i: int|
        0 <= i < paths.len() ==> {
            &&& runs_along(edges, (#[trigger] paths[i]).points@, paths[i].edges@)
            &&& paths[i].edges@.len() > 0
            &&& starts_path(edges, used_by(paths.take(i), edges.len()), paths[i].edges@[0] as int)
            &&& path_ends(edges, used_by(paths.take(i + 1), edges.len()), paths[i].points@)
        }
}

fn find_path_start<K: Key + Copy>(
    edges: &Vec<(K, K)>,
    incoming: &SortedSet<K>,
    used: &Vec<bool>,
) -> (result: Option<usize>)
    requires
        incoming.wf(),
        used@.len() == edges@.len(),
        forall|point: K| #[trigger] incoming@.contains(point) <==> is_entered(edges@, point),
    ensures
        match result {
            Some(first) => starts_path(edges@, used@, first as int),
            None => forall|i: int| 0 <= i < edges@.len() ==> #[trigger] used@[i],
        },
{
    let mut fallback: Option<usize> = None;
    let mut i: usize = 0;
    while i < edges.len()
        invariant
            i <= edges.len(),
            incoming.wf(),
            used@.len() == edges@.len(),
            forall|point: K| #[trigger] incoming@.contains(point) <==> is_entered(edges@, point),
            forall|k: int|
                0 <= k < i && !(#[trigger] used@[k]) ==> is_entered(edges@, edges@[k].0),
            match fallback {
                Some(first) => first < i && !used@[first as int] && forall|k: int|
                    0 <= k < first ==> #[trigger] used@[k],
                None => forall|k: int| 0 <= k < i ==> #[trigger] used@[k],
            },
        decreases edges.len() - i,
    {
        if !used[i] {
            if !incoming.contains(&edges[i].0) {
                assert(starts_path(edges@, used@, i as int));
                return Some(i);
            }
            if fallback.is_none() {
                fallback = Some(i);
            }
        }
        i += 1;
    }
    fallback
}

/// Orders directed edges into paths, or finds that they are not paths: that two
/// leave or two enter the same point.
pub fn ordered_paths<K: Key + Copy>(edges: &Vec<(K, K)>) -> (result: Option<Vec<Contour<K>>>)
    ensures
        match result {
            Some(paths) => oriented_paths(edges@) && path_list(edges@, paths@) && forall|edge: int|
                0 <= edge < edges@.len() ==> #[trigger] uses(paths@, edge as usize) == 1,
            None => !oriented_paths(edges@),
        },
{
    let mut outgoing = SortedMap::<K, usize>::new();
    let mut incoming = SortedSet::<K>::new();
    let mut used: Vec<bool> = Vec::new();
    let mut i: usize = 0;
    while i < edges.len()
        invariant
            i <= edges.len(),
            outgoing.wf(),
            incoming.wf(),
            used@.len() == i,
            forall|k: int| 0 <= k < i ==> !#[trigger] used@[k],
            oriented_paths(edges@.take(i as int)),
            forall|point: K| #[trigger]
                incoming@.contains(point) <==> is_entered(edges@.take(i as int), point),
            forall|k: int|
                0 <= k < i ==> outgoing@.dom().contains((#[trigger] edges@[k]).0)
                    && outgoing@[edges@[k].0] == k,
            forall|point: K| #[trigger]
                outgoing@.dom().contains(point) ==> outgoing@[point] < i
                    && edges@[outgoing@[point] as int].0 == point,
        decreases edges.len() - i,
    {
        let ghost before = edges@.take(i as int);
        let ghost after = edges@.take(i + 1);
        let ghost known = outgoing@;
        let ghost entered = incoming@;
        let fresh_out = outgoing.insert(edges[i].0, i);
        let fresh_in = incoming.insert(edges[i].1);
        if !fresh_out || !fresh_in {
            proof {
                if !fresh_out {
                    let k = known[edges@[i as int].0] as int;
                    assert(edges@[k].0 == edges@[i as int].0);
                } else {
                    assert(is_entered(before, edges@[i as int].1));
                    let k = choose|k: int|
                        0 <= k < before.len() && (#[trigger] before[k]).1 == edges@[i as int].1;
                    assert(edges@[k].1 == edges@[i as int].1);
                }
            }
            return None;
        }
        proof {
            assert forall|a: int, b: int| 0 <= a < b < after.len() implies (#[trigger] after[a]).0 != (
            #[trigger] after[b]).0 && after[a].1 != after[b].1 by {
                if b < i {
                    assert(before[a] == after[a] && before[b] == after[b]);
                } else {
                    assert(known.dom().contains(edges@[a].0));
                    assert(before[a] == after[a]);
                    assert(is_entered(before, after[a].1));
                    assert(entered.contains(after[a].1));
                }
            }
            assert forall|point: K| #[trigger] incoming@.contains(point) <==> is_entered(
                after,
                point,
            ) by {
                if entered.contains(point) {
                    let k = choose|k: int| 0 <= k < before.len() && (#[trigger] before[k]).1 == point;
                    assert(after[k].1 == point);
                }
                if point == edges@[i as int].1 {
                    assert(after[i as int].1 == point);
                }
                if is_entered(after, point) {
                    let k = choose|k: int| 0 <= k < after.len() && (#[trigger] after[k]).1 == point;
                    if k < i {
                        assert(before[k].1 == point);
                    }
                }
            }
        }
        used.push(false);
        i += 1;
    }
    assert(edges@.take(i as int) =~= edges@);
    let mut paths: Vec<Contour<K>> = Vec::new();
    loop
        invariant
            outgoing.wf(),
            incoming.wf(),
            used@.len() == edges@.len(),
            edges@.len() <= usize::MAX,
            oriented_paths(edges@),
            forall|point: K| #[trigger] incoming@.contains(point) <==> is_entered(edges@, point),
            forall|k: int|
                0 <= k < edges@.len() ==> outgoing@.dom().contains((#[trigger] edges@[k]).0)
                    && outgoing@[edges@[k].0] == k,
            forall|point: K| #[trigger]
                outgoing@.dom().contains(point) ==> outgoing@[point] < edges@.len()
                    && edges@[outgoing@[point] as int].0 == point,
            walked_once(paths@, used@),
            path_list(edges@, paths@),
        decreases idle(used@),
    {
        let first = match find_path_start(edges, &incoming, &used) {
            Some(first) => first,
            None => {
                proof {
                    assert forall|edge: int| 0 <= edge < edges@.len() implies #[trigger] uses(
                        paths@,
                        edge as usize,
                    ) == 1 by {
                        assert(used@[edge]);
                    }
                }
                return Some(paths);
            },
        };
        let ghost before = used@;
        let ghost done = paths@;
        let path = walk_path(edges, &outgoing, &mut used, first);
        paths.push(path);
        proof {
            assert(paths@.drop_last() =~= done);
            assert forall|edge: int| 0 <= edge < used@.len() implies uses(paths@, edge as usize)
                == if #[trigger] used@[edge] {
                1nat
            } else {
                0nat
            } by {
                assert(uses(done, edge as usize) == if before[edge] {
                    1nat
                } else {
                    0nat
                });
                assert(edge_used(path.edges@, before[edge], used@[edge], edge as usize));
            }
            assert(used_by(done, edges@.len()) =~= before) by {
                assert forall|edge: int| 0 <= edge < before.len() implies used_by(
                    done,
                    edges@.len(),
                )[edge] == before[edge] by {
                    assert(uses(done, edge as usize) == if before[edge] {
                        1nat
                    } else {
                        0nat
                    });
                }
            }
            assert(used_by(paths@, edges@.len()) =~= used@) by {
                assert forall|edge: int| 0 <= edge < used@.len() implies used_by(
                    paths@,
                    edges@.len(),
                )[edge] == used@[edge] by {
                    assert(uses(paths@, edge as usize) == if used@[edge] {
                        1nat
                    } else {
                        0nat
                    });
                }
            }
            assert forall|k: int| 0 <= k < paths@.len() implies {
                &&& runs_along(edges@, (#[trigger] paths@[k]).points@, paths@[k].edges@)
                &&& paths@[k].edges@.len() > 0
                &&& starts_path(
                    edges@,
                    used_by(paths@.take(k), edges@.len()),
                    paths@[k].edges@[0] as int,
                )
                &&& path_ends(edges@, used_by(paths@.take(k + 1), edges@.len()), paths@[k].points@)
            } by {
                if k < done.len() {
                    assert(paths@[k] == done[k]);
                    assert(paths@.take(k) =~= done.take(k));
                    assert(paths@.take(k + 1) =~= done.take(k + 1));
                } else {
                    assert(paths@.take(k) =~= done);
                    assert(paths@.take(k + 1) =~= paths@);
                }
            }
        }
    }
}

fn walk_path<K: Key + Copy>(
    edges: &Vec<(K, K)>,
    outgoing: &SortedMap<K, usize>,
    used: &mut Vec<bool>,
    first: usize,
) -> (result: Contour<K>)
    requires
        outgoing.wf(),
        old(used)@.len() == edges@.len(),
        edges@.len() <= usize::MAX,
        first < edges@.len(),
        !old(used)@[first as int],
        forall|k: int|
            0 <= k < edges@.len() ==> outgoing@.dom().contains((#[trigger] edges@[k]).0)
                && outgoing@[edges@[k].0] == k,
        forall|point: K| #[trigger]
            outgoing@.dom().contains(point) ==> outgoing@[point] < edges@.len()
                && edges@[outgoing@[point] as int].0 == point,
    ensures
        runs_along(edges@, result.points@, result.edges@),
        result.edges@.len() > 0,
        result.edges@[0] == first,
        walk_used(result.edges@, old(used)@, final(used)@),
        idle(final(used)@) < idle(old(used)@),
        path_ends(edges@, final(used)@, result.points@),
{
    let ghost before = used@;
    let start = edges[first].0;
    let mut point = edges[first].1;
    let mut points: Vec<K> = Vec::new();
    let mut walk: Vec<usize> = Vec::new();
    proof {
        assert(walk_used(walk@, before, before));
        walk_grows(walk@, before, before, first);
        using_leaves_less(before, first as int);
    }
    points.push(start);
    points.push(point);
    walk.push(first);
    used.set(first, true);
    assert(used@ =~= before.update(first as int, true));
    while !same_key(&point, &start)
        invariant
            outgoing.wf(),
            used@.len() == edges@.len(),
            before.len() == edges@.len(),
            before == old(used)@,
            edges@.len() <= usize::MAX,
            forall|k: int|
                0 <= k < edges@.len() ==> outgoing@.dom().contains((#[trigger] edges@[k]).0)
                    && outgoing@[edges@[k].0] == k,
            forall|other: K| #[trigger]
                outgoing@.dom().contains(other) ==> outgoing@[other] < edges@.len()
                    && edges@[outgoing@[other] as int].0 == other,
            walk_used(walk@, before, used@),
            idle(used@) < idle(before),
            runs_along(edges@, points@, walk@),
            walk@.len() > 0,
            walk@[0] == first,
            points@[0] == start,
            points@.last() == point,
        decreases idle(used@),
    {
        let edge: usize = match outgoing.get(&point) {
            Some(index) => {
                if used[*index] {
                    assert forall|k: int|
                        0 <= k < edges@.len() && (#[trigger] edges@[k]).0 == points@.last() implies
                        used@[k] by {}
                    return Contour { points, edges: walk };
                }
                *index
            },
            None => {
                assert forall|k: int|
                    0 <= k < edges@.len() && (#[trigger] edges@[k]).0 == points@.last() implies
                    used@[k] by {}
                return Contour { points, edges: walk };
            },
        };
        let ghost so_far = used@;
        let next = edges[edge].1;
        proof {
            using_leaves_less(so_far, edge as int);
            walk_grows(walk@, before, so_far, edge);
        }
        used.set(edge, true);
        assert(used@ =~= so_far.update(edge as int, true));
        let ghost path = points@;
        let ghost trail = walk@;
        walk.push(edge);
        points.push(next);
        point = next;
        assert(runs_along(edges@, points@, walk@)) by {
            assert forall|i: int| 0 <= i < walk@.len() implies (#[trigger] walk@[i]) < edges@.len()
                && edges@[walk@[i] as int].0 == points@[i] && edges@[walk@[i] as int].1
                == points@[i + 1] by {
                if i < trail.len() {
                    assert(trail[i] == walk@[i]);
                    assert(path[i] == points@[i] && path[i + 1] == points@[i + 1]);
                }
            }
        }
    }
    Contour { points, edges: walk }
}

/// Where contours run along every edge once, each edge stands in one of them, and at one place
/// of that only.
pub proof fn edge_stands_in_one_contour<K>(
    edges: Seq<(K, K)>,
    contours: Seq<Contour<K>>,
    edge: usize,
) -> (at: (int, int))
    requires
        traces(edges, contours),
        edge < edges.len(),
        forall|c: int|
            0 <= c < contours.len() ==> (#[trigger] contours[c]).edges@.len() <= usize::MAX,
    ensures
        0 <= at.0 < contours.len(),
        0 <= at.1 < contours[at.0].edges@.len(),
        contours[at.0].edges@[at.1] == edge,
        forall|c: int, i: int|
            0 <= c < contours.len() && 0 <= i < contours[c].edges@.len() && #[trigger] contours[c].edges@[i]
                == edge ==> (c, i) == at,
{
    assert(uses(contours, edge as int as usize) == 1);
    one_use_is_one_place(contours, edge)
}

proof fn one_use_is_one_place<K>(contours: Seq<Contour<K>>, edge: usize) -> (at: (int, int))
    requires
        uses(contours, edge) == 1,
        forall|c: int|
            0 <= c < contours.len() ==> (#[trigger] contours[c]).edges@.len() <= usize::MAX,
    ensures
        0 <= at.0 < contours.len(),
        0 <= at.1 < contours[at.0].edges@.len(),
        contours[at.0].edges@[at.1] == edge,
        forall|c: int, i: int|
            0 <= c < contours.len() && 0 <= i < contours[c].edges@.len() && #[trigger] contours[c].edges@[i]
                == edge ==> (c, i) == at,
    decreases contours.len(),
{
    let front = contours.drop_last();
    let last = contours.len() - 1;
    let walk = contours.last().edges@;
    let places = places_of(walk, edge);
    assert(contours[last] == contours.last());
    places_are_exact(walk, edge);
    assert forall|c: int| 0 <= c < front.len() implies (#[trigger] front[c]).edges@.len()
        <= usize::MAX by {
        assert(front[c] == contours[c]);
    }
    if places.len() == 0 {
        let at = one_use_is_one_place(front, edge);
        assert(front[at.0] == contours[at.0]);
        assert forall|c: int, i: int|
            0 <= c < contours.len() && 0 <= i < contours[c].edges@.len() && #[trigger] contours[c].edges@[i]
                == edge implies (c, i) == at by {
            if c == last {
                assert(walk[i] == edge);
                assert(places.contains(i as usize));
            } else {
                assert(front[c].edges@[i] == edge);
            }
        }
        at
    } else {
        let at = (last, places[0] as int);
        assert forall|c: int, i: int|
            0 <= c < contours.len() && 0 <= i < contours[c].edges@.len() && #[trigger] contours[c].edges@[i]
                == edge implies (c, i) == at by {
            if c == last {
                assert(walk[i] == edge);
                assert(places.contains(i as usize));
                let m = places.index_of(i as usize);
                assert(m == 0);
            } else {
                no_use_is_no_place(front, edge, c, i);
            }
        }
        at
    }
}

proof fn no_use_is_no_place<K>(contours: Seq<Contour<K>>, edge: usize, c: int, i: int)
    requires
        uses(contours, edge) == 0,
        0 <= c < contours.len(),
        0 <= i < contours[c].edges@.len() <= usize::MAX,
    ensures
        contours[c].edges@[i] != edge,
    decreases contours.len(),
{
    let last = contours.len() - 1;
    if c == last {
        let walk = contours.last().edges@;
        places_are_exact(walk, edge);
        if walk[i] == edge {
            assert(places_of(walk, edge).contains(i as usize));
        }
    } else {
        assert(contours.drop_last()[c] == contours[c]);
        no_use_is_no_place(contours.drop_last(), edge, c, i);
    }
}

} // verus!
