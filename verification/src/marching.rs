//! Cutting lattice triangles along the boundary of the domain.

use vstd::prelude::*;

use crate::edits::Site;
#[allow(unused_imports)]
use crate::edits::{point_at, quad_cut};
use crate::number::{Real, Vector3};
#[allow(unused_imports)]
use crate::outlines::{edges_walk_outline, walks_outline};
use crate::quadtree::{Lattice, Leaf};
use crate::sorted::{same_key, Key, SortedMap};
use crate::topology::{orient_triangle, Candidate, Cell, Point, PointKey};
#[allow(unused_imports)]
use crate::topology::{cell_known, turned, CellView};

verus! {

/// The part of an edge at its start within which a crossing moves onto the
/// end point: `0.06`.
pub const SNAP_LOW_BITS: u64 = 0x3fae_b851_eb85_1eb8;

/// The part of an edge from which on a crossing moves onto the far end point:
/// `1.0 - 0.06`.
pub const SNAP_HIGH_BITS: u64 = 0x3fee_147a_e147_ae14;

/// The distance field at a lattice point.
#[derive(Debug, Clone, Copy)]
pub struct Sample {
    pub key: Lattice,
    pub uv: [Real; 2],
    pub world: Vector3,
    pub sdf: Real,
}

impl Sample {
    /// The point is in the domain or on its boundary.
    pub open spec fn inside(self) -> bool {
        self.sdf.le(Real { bits: 0 })
    }

    pub open spec fn on_boundary(self) -> bool {
        self.sdf.same_value(Real { bits: 0 })
    }

    pub fn is_inside(&self) -> (result: bool)
        ensures
            result == self.inside(),
    {
        self.sdf.at_most(Real::zero())
    }

    pub fn is_on_boundary(&self) -> (result: bool)
        ensures
            result == self.on_boundary(),
    {
        self.sdf.equal(Real::zero())
    }

    pub open spec fn point(self) -> Point {
        Point { uv: self.uv, world: self.world, boundary: self.on_boundary(), protected: false }
    }
}

/// What one edge adds to the polygon inside the domain.
pub open spec fn edge_piece(a: Sample, b: Sample, crossing: PointKey) -> Seq<PointKey> {
    match (a.inside(), b.inside()) {
        (true, true) => seq![PointKey::Lattice(b.key)],
        (true, false) => seq![crossing],
        (false, true) => seq![crossing, PointKey::Lattice(b.key)],
        (false, false) => Seq::empty(),
    }
}

/// The part of the triangle inside the domain. `crossings[i]` is the crossing
/// on the edge from sample `i` to the next.
pub open spec fn inside_polygon(samples: Seq<Sample>, crossings: Seq<PointKey>) -> Seq<PointKey> {
    edge_piece(samples[0], samples[1], crossings[0]) + edge_piece(
        samples[1],
        samples[2],
        crossings[1],
    ) + edge_piece(samples[2], samples[0], crossings[2])
}

fn push_piece(polygon: &mut Vec<PointKey>, a: &Sample, b: &Sample, crossing: PointKey)
    ensures
        final(polygon)@ == old(polygon)@ + edge_piece(*a, *b, crossing),
{
    let from = a.is_inside();
    let to = b.is_inside();
    if from && to {
        polygon.push(PointKey::Lattice(b.key));
    } else if from {
        polygon.push(crossing);
    } else if to {
        polygon.push(crossing);
        polygon.push(PointKey::Lattice(b.key));
    }
    assert(polygon@ =~= old(polygon)@ + edge_piece(*a, *b, crossing));
}

pub fn clipped_polygon(samples: &[Sample; 3], crossings: [PointKey; 3]) -> (result: Vec<PointKey>)
    ensures
        result@ == inside_polygon(samples@, crossings@),
        walks_outline(sample_points(samples@), crossings@, sample_signs(samples@), result@),
{
    let mut polygon: Vec<PointKey> = Vec::new();
    push_piece(&mut polygon, &samples[0], &samples[1], crossings[0]);
    push_piece(&mut polygon, &samples[1], &samples[2], crossings[1]);
    push_piece(&mut polygon, &samples[2], &samples[0], crossings[2]);
    assert(polygon@ =~= inside_polygon(samples@, crossings@));
    proof {
        clipped_polygon_follows_outline(samples@, crossings@);
    }
    polygon
}

/// The lattice points that three samples were taken at.
pub open spec fn sample_points(samples: Seq<Sample>) -> Seq<PointKey> {
    seq![
        PointKey::Lattice(samples[0].key),
        PointKey::Lattice(samples[1].key),
        PointKey::Lattice(samples[2].key),
    ]
}

/// Of three samples, whether the distance is at most zero.
pub open spec fn sample_signs(samples: Seq<Sample>) -> Seq<bool> {
    seq![
        samples[0].sdf.le(Real { bits: 0 }),
        samples[1].sdf.le(Real { bits: 0 }),
        samples[2].sdf.le(Real { bits: 0 }),
    ]
}

/// The cut triangle follows the outline of the triangle: it holds exactly the
/// corners inside the domain and the crossings of the edges whose ends differ in
/// sign, each once, in the order in which they follow one another round the
/// triangle.
pub proof fn clipped_polygon_follows_outline(samples: Seq<Sample>, crossings: Seq<PointKey>)
    requires
        samples.len() == 3,
        crossings.len() == 3,
    ensures
        walks_outline(
            sample_points(samples),
            crossings,
            sample_signs(samples),
            inside_polygon(samples, crossings),
        ),
{
    edges_walk_outline(
        sample_points(samples),
        crossings,
        sample_signs(samples),
        edge_piece(samples[0], samples[1], crossings[0]),
        edge_piece(samples[1], samples[2], crossings[1]),
        edge_piece(samples[2], samples[0], crossings[2]),
    );
}

pub open spec fn inside_count(samples: Seq<Sample>) -> int {
    (if samples[0].inside() {
        1int
    } else {
        0
    }) + (if samples[1].inside() {
        1int
    } else {
        0
    }) + (if samples[2].inside() {
        1int
    } else {
        0
    })
}

/// The cut triangle has a point for every corner inside and, unless all or
/// none are inside, two crossings.
pub proof fn polygon_size(samples: Seq<Sample>, crossings: Seq<PointKey>)
    ensures
        inside_polygon(samples, crossings).len() == inside_count(samples) + (if 0 < inside_count(
            samples,
        ) < 3 {
            2int
        } else {
            0int
        }),
{
}

/// The sequence without points that repeat their predecessor.
pub open spec fn without_repeats<K>(points: Seq<K>) -> Seq<K>
    decreases points.len(),
{
    if points.len() == 0 {
        Seq::empty()
    } else {
        let rest = without_repeats(points.drop_last());
        if rest.len() > 0 && rest.last() == points.last() {
            rest
        } else {
            rest.push(points.last())
        }
    }
}

/// The ring without points that repeat their predecessor, the first one's
/// predecessor being the last.
pub open spec fn ring_without_repeats<K>(points: Seq<K>) -> Seq<K> {
    let list = without_repeats(points);
    if list.len() > 1 && list[0] == list.last() {
        list.drop_last()
    } else {
        list
    }
}

/// The list without points that repeat their predecessor.
pub fn drop_repeats<K: Key + Copy>(points: &Vec<K>) -> (result: Vec<K>)
    ensures
        result@ == without_repeats(points@),
{
    let mut list: Vec<K> = Vec::new();
    let mut i: usize = 0;
    while i < points.len()
        invariant
            i <= points.len(),
            list@ == without_repeats(points@.take(i as int)),
        decreases points.len() - i,
    {
        assert(points@.take(i as int + 1).drop_last() =~= points@.take(i as int));
        let count: usize = list.len();
        if count == 0 || !same_key(&list[count - 1], &points[i]) {
            list.push(points[i]);
        }
        i = i + 1;
    }
    assert(points@.take(i as int) =~= points@);
    list
}

pub fn dedup_polygon<K: Key + Copy>(points: &Vec<K>) -> (result: Vec<K>)
    ensures
        result@ == ring_without_repeats(points@),
{
    let mut list = drop_repeats(points);
    let count: usize = list.len();
    if count > 1 && same_key(&list[0], &list[count - 1]) {
        list.pop();
        assert(list@ =~= without_repeats(points@).drop_last());
    }
    list
}

/// No point of the ring repeats its predecessor.
pub proof fn ring_has_no_repeats<K>(points: Seq<K>)
    ensures
        ({
            let ring = ring_without_repeats(points);
            &&& forall|i: int| 0 <= i < ring.len() - 1 ==> #[trigger] ring[i] != ring[i + 1]
            &&& ring.len() > 1 ==> ring[0] != ring.last()
        }),
{
    let list = without_repeats(points);
    let ring = ring_without_repeats(points);
    neighbors_differ(points);
    assert forall|i: int| 0 <= i < ring.len() - 1 implies #[trigger] ring[i] != ring[i + 1] by {
        assert(ring[i] == list[i]);
        assert(ring[i + 1] == list[i + 1]);
    }
    if list.len() > 1 && list[0] == list.last() && ring.len() > 1 {
        let n = list.len();
        assert(list[n - 2] != list[n - 2 + 1]);
    }
}

proof fn neighbors_differ<K>(points: Seq<K>)
    ensures
        forall|i: int|
            0 <= i < without_repeats(points).len() - 1 ==> #[trigger] without_repeats(points)[i]
                != without_repeats(points)[i + 1],
    decreases points.len(),
{
    if points.len() > 0 {
        neighbors_differ(points.drop_last());
        let rest = without_repeats(points.drop_last());
        let list = without_repeats(points);
        assert forall|i: int| 0 <= i < list.len() - 1 implies #[trigger] list[i] != list[i + 1] by {
            if i + 1 < rest.len() {
                assert(rest[i] != rest[i + 1]);
            }
        }
    }
}

pub type LatticeEdge = (Lattice, Lattice);

/// The ends of a lattice edge, the smaller one first.
pub open spec fn lattice_edge(a: Lattice, b: Lattice) -> LatticeEdge {
    if b.before(a) {
        (b, a)
    } else {
        (a, b)
    }
}

pub fn ordered_lattice(a: Lattice, b: Lattice) -> (result: LatticeEdge)
    ensures
        result == lattice_edge(a, b),
{
    if b.precedes(&a) {
        (b, a)
    } else {
        (a, b)
    }
}

/// Whether the point of an edge where the boundary crosses it is known.
#[derive(Debug, Clone, Copy, PartialEq, Eq, Structural)]
pub enum CrossingStart {
    /// It was found before, or lies on a sample.
    Settled(PointKey),
    /// It has to be searched for.
    Search,
}

/// The name of a crossing that needs no search.
pub open spec fn settled_crossing(
    crossings: Map<LatticeEdge, PointKey>,
    a: Sample,
    b: Sample,
) -> Option<PointKey> {
    let edge = lattice_edge(a.key, b.key);
    if crossings.dom().contains(edge) {
        Some(crossings[edge])
    } else if a.on_boundary() {
        Some(PointKey::Lattice(a.key))
    } else if b.on_boundary() {
        Some(PointKey::Lattice(b.key))
    } else {
        None
    }
}

/// Looks a crossing up. Where a sample lies on the boundary, that sample is
/// the crossing, and is noted as such.
pub fn start_crossing(
    a: &Sample,
    b: &Sample,
    points: &mut SortedMap<PointKey, Point>,
    crossings: &mut SortedMap<LatticeEdge, PointKey>,
) -> (result: CrossingStart)
    requires
        old(points).wf(),
        old(crossings).wf(),
    ensures
        final(points).wf(),
        final(crossings).wf(),
        match settled_crossing(old(crossings)@, *a, *b) {
            Some(key) => {
                let edge = lattice_edge(a.key, b.key);
                &&& result == CrossingStart::Settled(key)
                &&& final(crossings)@ == old(crossings)@.insert(edge, key)
                &&& final(points)@ == (if old(crossings)@.dom().contains(edge) {
                    old(points)@
                } else if a.on_boundary() {
                    old(points)@.insert(key, a.point())
                } else {
                    old(points)@.insert(key, b.point())
                })
            },
            None => result is Search && *final(points) == *old(points) && *final(crossings) == *old(crossings),
        },
{
    let edge = ordered_lattice(a.key, b.key);
    if let Some(key) = crossings.get(&edge) {
        assert(crossings@ =~= crossings@.insert(edge, *key));
        return CrossingStart::Settled(*key);
    }
    if a.is_on_boundary() {
        let key = PointKey::Lattice(a.key);
        points.insert(
            key,
            Point { uv: a.uv, world: a.world, boundary: true, protected: false },
        );
        crossings.insert(edge, key);
        return CrossingStart::Settled(key);
    }
    if b.is_on_boundary() {
        let key = PointKey::Lattice(b.key);
        points.insert(
            key,
            Point { uv: b.uv, world: b.world, boundary: true, protected: false },
        );
        crossings.insert(edge, key);
        return CrossingStart::Settled(key);
    }
    CrossingStart::Search
}

/// The name of a crossing found at part `t` of the way from `a` to `b`: close
/// to an end it is that end.
pub open spec fn crossing_key(a: Sample, b: Sample, t: Real) -> PointKey {
    let edge = lattice_edge(a.key, b.key);
    if t.le(Real { bits: SNAP_LOW_BITS }) {
        PointKey::Lattice(a.key)
    } else if (Real { bits: SNAP_HIGH_BITS }).le(t) {
        PointKey::Lattice(b.key)
    } else {
        PointKey::Crossing(edge.0, edge.1)
    }
}

/// Notes a crossing that was searched for. A point already on the boundary
/// stays where it is.
pub fn finish_crossing(
    a: &Sample,
    b: &Sample,
    t: Real,
    site: &Site,
    points: &mut SortedMap<PointKey, Point>,
    crossings: &mut SortedMap<LatticeEdge, PointKey>,
) -> (result: PointKey)
    requires
        old(points).wf(),
        old(crossings).wf(),
    ensures
        final(points).wf(),
        final(crossings).wf(),
        result == crossing_key(*a, *b, t),
        final(crossings)@ == old(crossings)@.insert(lattice_edge(a.key, b.key), result),
        final(points)@ == (if old(points)@.dom().contains(result) && old(points)@[result].boundary {
            old(points)@
        } else {
            old(points)@.insert(result, point_at(*site, true, false))
        }),
{
    let edge = ordered_lattice(a.key, b.key);
    let key = if t.at_most(Real { bits: SNAP_LOW_BITS }) {
        PointKey::Lattice(a.key)
    } else if (Real { bits: SNAP_HIGH_BITS }).at_most(t) {
        PointKey::Lattice(b.key)
    } else {
        PointKey::Crossing(edge.0, edge.1)
    };
    let settled = match points.get(&key) {
        Some(existing) => existing.boundary,
        None => false,
    };
    if !settled {
        points.insert(
            key,
            Point { uv: site.uv, world: site.world, boundary: true, protected: false },
        );
    }
    crossings.insert(edge, key);
    key
}

/// The points with a sample added, if it is inside and new.
pub open spec fn with_sample(points: Map<PointKey, Point>, sample: Sample) -> Map<PointKey, Point> {
    let key = PointKey::Lattice(sample.key);
    if sample.inside() && !points.dom().contains(key) {
        points.insert(key, sample.point())
    } else {
        points
    }
}

/// Adds a sample inside the domain to the points, unless it is there.
pub fn note_sample(points: &mut SortedMap<PointKey, Point>, sample: &Sample)
    requires
        old(points).wf(),
    ensures
        final(points).wf(),
        final(points)@ == with_sample(old(points)@, *sample),
{
    let key = PointKey::Lattice(sample.key);
    if sample.is_inside() && !points.contains_key(&key) {
        points.insert(
            key,
            Point {
                uv: sample.uv,
                world: sample.world,
                boundary: sample.is_on_boundary(),
                protected: false,
            },
        );
    }
}

/// What was measured of a triangle about to be placed.
#[derive(Debug, Clone, Copy, PartialEq, Eq, Structural)]
pub struct TriangleMeasure {
    pub clockwise: bool,
    /// Too little area remains once the triangle is turned the right way.
    pub degenerate: bool,
}

/// What becomes of the polygon inside the domain.
pub enum PolygonPlan {
    /// Nothing of the triangle is inside.
    Empty,
    /// The polygon has too many corners: the leaf must be refined.
    Refused,
    /// The polygon is one triangle.
    Triangle([PointKey; 3]),
    /// The polygon is a quad, to be cut the better way.
    Quad([PointKey; 4]),
}

pub fn plan_polygon(polygon: &Vec<PointKey>) -> (result: PolygonPlan)
    ensures
        match result {
            PolygonPlan::Empty => polygon@.len() < 3,
            PolygonPlan::Refused => polygon@.len() > 4,
            PolygonPlan::Triangle(points) => points@ == polygon@,
            PolygonPlan::Quad(points) => points@ == polygon@,
        },
        polygon@.len() == 3 ==> result is Triangle,
        polygon@.len() == 4 ==> result is Quad,
{
    if polygon.len() < 3 {
        PolygonPlan::Empty
    } else if polygon.len() > 4 {
        PolygonPlan::Refused
    } else if polygon.len() == 3 {
        let points = [polygon[0], polygon[1], polygon[2]];
        assert(points@ =~= polygon@);
        PolygonPlan::Triangle(points)
    } else {
        let points = [polygon[0], polygon[1], polygon[2], polygon[3]];
        assert(points@ =~= polygon@);
        PolygonPlan::Quad(points)
    }
}

/// The two triangles of a quad, cut the first way unless the second is better.
pub fn cut_quad(quad: [PointKey; 4], first_quality: Real, second_quality: Real) -> (result: [[PointKey;
    3]; 2])
    ensures
        result[0]@ == quad_cut(quad@, !second_quality.le(first_quality)).0,
        result[1]@ == quad_cut(quad@, !second_quality.le(first_quality)).1,
{
    let result = if second_quality.at_most(first_quality) {
        [[quad[0], quad[1], quad[2]], [quad[0], quad[2], quad[3]]]
    } else {
        [[quad[0], quad[1], quad[3]], [quad[1], quad[2], quad[3]]]
    };
    assert(result[0]@ =~= quad_cut(quad@, !second_quality.le(first_quality)).0);
    assert(result[1]@ =~= quad_cut(quad@, !second_quality.le(first_quality)).1);
    result
}

/// Adds a triangle of a leaf to the mesh; where it is degenerate the leaf is
/// noted as failed instead.
pub fn place_triangle(
    candidate: &mut Candidate,
    triangle: [PointKey; 3],
    leaf: Leaf,
    measure: TriangleMeasure,
)
    requires
        old(candidate).wf(),
        forall|i: int|
            0 <= i < 3 ==> old(candidate).points@.dom().contains(#[trigger] triangle[i]),
    ensures
        final(candidate).wf(),
        final(candidate).points == old(candidate).points,
        final(candidate).next_inserted == old(candidate).next_inserted,
        final(candidate).layer_edge_targets == old(candidate).layer_edge_targets,
        measure.degenerate ==> final(candidate).cells == old(candidate).cells && final(candidate).construction_failures@ == old(candidate).construction_failures@.insert(leaf),
        !measure.degenerate ==> final(candidate).construction_failures == old(candidate).construction_failures && final(candidate).cells_view() == old(candidate).cells_view().push(
            CellView {
                points: turned(triangle@, measure.clockwise),
                leaf,
                protected: false,
            },
        ),
{
    if measure.degenerate {
        candidate.construction_failures.insert(leaf);
        return;
    }
    let ghost before = candidate.cells_view();
    let cell = Cell::triangle(orient_triangle(triangle, measure.clockwise), leaf);
    proof {
        assert(candidate.points@.dom().contains(triangle[0]));
        assert(candidate.points@.dom().contains(triangle[1]));
        assert(candidate.points@.dom().contains(triangle[2]));
        assert(cell_known(cell@, candidate.points@));
    }
    candidate.cells.push(cell);
    assert(candidate.cells_view() =~= before.push(cell@));
}

/// Notes a leaf that could not be cut.
pub fn refuse_leaf(candidate: &mut Candidate, leaf: Leaf)
    requires
        old(candidate).wf(),
    ensures
        final(candidate).wf(),
        final(candidate).points == old(candidate).points,
        final(candidate).cells == old(candidate).cells,
        final(candidate).next_inserted == old(candidate).next_inserted,
        final(candidate).layer_edge_targets == old(candidate).layer_edge_targets,
        final(candidate).construction_failures@ == old(candidate).construction_failures@.insert(
            leaf,
        ),
{
    candidate.construction_failures.insert(leaf);
}

/// A crossing has one name from both ends of its edge. Within the snapping distance of an
/// end it is that end.
pub proof fn crossing_is_named_alike(a: Sample, b: Sample, t: Real, u: Real)
    requires
        a.key != b.key,
    ensures
        ({
            let low = Real { bits: SNAP_LOW_BITS };
            let high = Real { bits: SNAP_HIGH_BITS };
            &&& low.lt(high)
            &&& t.le(low) ==> crossing_key(a, b, t) == PointKey::Lattice(a.key)
            &&& high.le(t) ==> crossing_key(a, b, t) == PointKey::Lattice(b.key)
            &&& !t.le(low) && !high.le(t) && !u.le(low) && !high.le(u) ==> crossing_key(a, b, t)
                == crossing_key(b, a, u)
            &&& !t.le(low) && !high.le(t) ==> (crossing_key(a, b, t) matches PointKey::Crossing(x, y)
                && (x == a.key && y == b.key || x == b.key && y == a.key))
        }),
{
    Lattice::total(a.key, b.key);
    if a.key.before(b.key) && b.key.before(a.key) {
        Lattice::transitive(a.key, b.key, a.key);
        Lattice::irreflexive(a.key);
    }
}

/// A crossing that needs no search is found alike from both ends, unless both lie on the
/// boundary and its edge is new. A known crossing keeps its name, and an end on the
/// boundary is the crossing.
pub proof fn settled_crossing_is_alike(
    crossings: Map<LatticeEdge, PointKey>,
    a: Sample,
    b: Sample,
)
    requires
        a.key != b.key,
    ensures
        !(a.on_boundary() && b.on_boundary()) ==> settled_crossing(crossings, a, b)
            == settled_crossing(crossings, b, a),
        crossings.dom().contains((a.key, b.key)) && a.key.before(b.key) ==> settled_crossing(
            crossings,
            a,
            b,
        ) == Some(crossings[(a.key, b.key)]) && settled_crossing(crossings, b, a) == Some(
            crossings[(a.key, b.key)],
        ),
        settled_crossing(crossings, a, b) is None ==> !a.on_boundary() && !b.on_boundary(),
        settled_crossing(Map::empty(), a, b) is Some <==> a.on_boundary() || b.on_boundary(),
        a.on_boundary() ==> settled_crossing(Map::empty(), a, b) == Some(PointKey::Lattice(a.key)),
{
    Lattice::total(a.key, b.key);
    if a.key.before(b.key) && b.key.before(a.key) {
        Lattice::transitive(a.key, b.key, a.key);
        Lattice::irreflexive(a.key);
    }
}

/// A sample becomes a point exactly where it is inside and new; a point that is there
/// stays as it is.
pub proof fn inside_samples_become_points(points: Map<PointKey, Point>, sample: Sample, key: PointKey)
    ensures
        with_sample(points, sample).dom().contains(key) <==> points.dom().contains(key) || (key
            == PointKey::Lattice(sample.key) && sample.sdf.le(Real { bits: 0 })),
        points.dom().contains(key) ==> with_sample(points, sample)[key] == points[key],
        sample.sdf.le(Real { bits: 0 }) && !points.dom().contains(PointKey::Lattice(sample.key))
            ==> with_sample(points, sample)[PointKey::Lattice(sample.key)].world == sample.world
            && with_sample(points, sample)[PointKey::Lattice(sample.key)].boundary
            == sample.sdf.same_value(Real { bits: 0 }),
{
}

} // verus!
