//! The constraint graph of a planar mesh: its closed contours, the edges along
//! them with their owners, and what a final mesh must keep of them.

use vstd::prelude::*;
use vstd::string::StringExecFns;

use crate::actions::boundary_owners;
#[allow(unused_imports)]
use crate::actions::{named, owners_of};
#[allow(unused_imports)]
use crate::assess::owner_view;
use crate::assess::{copy_owner, BoundaryEdge};
use crate::error::MeshError;
use crate::incidence::{cell_sides, EdgeMap, Side};
#[allow(unused_imports)]
use crate::incidence::{all_sides, sides_on};
use crate::number::Real;
use crate::sorted::{SortedMap, SortedSet};
#[allow(unused_imports)]
use crate::text::debug_text;
use crate::text::{around, quoted};
#[allow(unused_imports)]
use crate::topology::{cell_views, edge_key, CellView};
use crate::topology::{ordered_pair, Cell, EdgeKey, PointKey};

verus! {

/// An edge of the graph, with the region that owns it.
#[derive(Debug)]
pub struct GraphEdge {
    pub points: [PointKey; 2],
    pub owner: Option<String>,
}

impl GraphEdge {
    pub open spec fn key(self) -> EdgeKey {
        edge_key(self.points[0], self.points[1])
    }
}

/// The closed contours of a mesh, and the edges along them.
#[derive(Debug)]
pub struct PlanarConstraintGraph {
    pub contours: Vec<Vec<PointKey>>,
    pub edges: Vec<GraphEdge>,
}

/// The steps of the first points of a contour.
pub open spec fn steps_of(contour: Seq<PointKey>, count: int) -> Seq<(PointKey, PointKey)> {
    Seq::new(count as nat, |i: int| (contour[i], contour[i + 1]))
}

/// How many steps a contour has.
pub open spec fn step_count(contour: Seq<PointKey>) -> int {
    if contour.len() == 0 {
        0
    } else {
        contour.len() - 1
    }
}

/// The steps of the first contours, in order.
pub open spec fn all_steps(contours: Seq<Vec<PointKey>>, count: int) -> Seq<(PointKey, PointKey)>
    decreases count,
{
    if count <= 0 {
        Seq::empty()
    } else {
        all_steps(contours, count - 1) + steps_of(
            contours[count - 1]@,
            step_count(contours[count - 1]@),
        )
    }
}

/// The owner of an edge, where the boundary gives it one.
pub open spec fn owner_of(
    owners: Map<EdgeKey, Option<Seq<char>>>,
    a: PointKey,
    b: PointKey,
) -> Option<Seq<char>> {
    if owners.dom().contains(edge_key(a, b)) {
        owners[edge_key(a, b)]
    } else {
        None
    }
}

/// The edge is a step with its owner.
pub open spec fn edge_of_step(
    edge: GraphEdge,
    step: (PointKey, PointKey),
    owners: Map<EdgeKey, Option<Seq<char>>>,
) -> bool {
    &&& edge.points[0] == step.0
    &&& edge.points[1] == step.1
    &&& owner_view(edge.owner) == owner_of(owners, step.0, step.1)
}

/// The edges are these steps with their owners.
pub open spec fn edges_of_steps(
    edges: Seq<GraphEdge>,
    steps: Seq<(PointKey, PointKey)>,
    owners: Map<EdgeKey, Option<Seq<char>>>,
) -> bool {
    &&& edges.len() == steps.len()
    &&& forall|i: int| 0 <= i < edges.len() ==> edge_of_step(#[trigger] edges[i], steps[i], owners)
}

/// The keys of all edges.
pub open spec fn keys_of(edges: Seq<GraphEdge>) -> Set<EdgeKey> {
    Set::new(|key: EdgeKey| exists|i: int| 0 <= i < edges.len() && (#[trigger] edges[i]).key() == key)
}

fn graph_edge(a: PointKey, b: PointKey, owners: &SortedMap<EdgeKey, Option<String>>) -> (result:
    GraphEdge)
    requires
        owners.wf(),
    ensures
        edge_of_step(result, (a, b), named(*owners)),
{
    let key = ordered_pair(a, b);
    let owner = match owners.get(&key) {
        Some(found) => copy_owner(found),
        None => None,
    };
    GraphEdge { points: [a, b], owner }
}

impl PlanarConstraintGraph {
    /// The graph of closed contours, its edges owned as the boundary says.
    pub fn build(contours: Vec<Vec<PointKey>>, boundary: &Vec<BoundaryEdge>) -> (result:
        PlanarConstraintGraph)
        ensures
            result.contours@ == contours@,
            edges_of_steps(
                result.edges@,
                all_steps(contours@, contours@.len() as int),
                owners_of(boundary@),
            ),
    {
        let owners = boundary_owners(boundary);
        let ghost map = owners_of(boundary@);
        let mut edges: Vec<GraphEdge> = Vec::new();
        let mut i: usize = 0;
        while i < contours.len()
            invariant
                i <= contours.len(),
                owners.wf(),
                named(owners) == map,
                edges_of_steps(edges@, all_steps(contours@, i as int), map),
            decreases contours.len() - i,
        {
            let contour = &contours[i];
            let ghost before = all_steps(contours@, i as int);
            let mut k: usize = 0;
            assert(before + steps_of(contour@, 0) =~= before);
            let steps: usize = if contour.len() == 0 {
                0
            } else {
                contour.len() - 1
            };
            while k < steps
                invariant
                    k <= steps,
                    steps == step_count(contour@),
                    owners.wf(),
                    named(owners) == map,
                    edges_of_steps(edges@, before + steps_of(contour@, k as int), map),
                decreases steps - k,
            {
                let ghost so_far = edges@;
                let edge = graph_edge(contour[k], contour[k + 1], &owners);
                edges.push(edge);
                proof {
                    let now = before + steps_of(contour@, k + 1);
                    assert forall|j: int| 0 <= j < edges@.len() implies edge_of_step(
                        #[trigger] edges@[j],
                        now[j],
                        map,
                    ) by {
                        if j < so_far.len() {
                            assert(edges@[j] == so_far[j]);
                            assert(now[j] == (before + steps_of(contour@, k as int))[j]);
                        }
                    }
                }
                k += 1;
            }
            i += 1;
        }
        PlanarConstraintGraph { contours, edges }
    }

    pub fn constraints(&self) -> (result: SortedSet<EdgeKey>)
        ensures
            result.wf(),
            result@ == keys_of(self.edges@),
    {
        let mut keys = SortedSet::<EdgeKey>::new();
        let mut i: usize = 0;
        assert(keys@ =~= keys_of(self.edges@.take(0)));
        while i < self.edges.len()
            invariant
                i <= self.edges.len(),
                keys.wf(),
                keys@ == keys_of(self.edges@.take(i as int)),
            decreases self.edges.len() - i,
        {
            let ghost before = self.edges@.take(i as int);
            let ghost after = self.edges@.take(i + 1);
            let edge = &self.edges[i];
            keys.insert(ordered_pair(edge.points[0], edge.points[1]));
            assert(keys@ =~= keys_of(after)) by {
                assert forall|key: EdgeKey| keys@.contains(key) <==> keys_of(after).contains(key) by {
                    if keys_of(before).contains(key) {
                        let k = choose|k: int|
                            0 <= k < before.len() && (#[trigger] before[k]).key() == key;
                        assert(after[k].key() == key);
                    }
                    if key == self.edges@[i as int].key() {
                        assert(after[i as int].key() == key);
                    }
                    if keys_of(after).contains(key) {
                        let k = choose|k: int|
                            0 <= k < after.len() && (#[trigger] after[k]).key() == key;
                        if k < i {
                            assert(before[k].key() == key);
                        }
                    }
                }
            }
            i += 1;
        }
        assert(self.edges@.take(i as int) =~= self.edges@);
        keys
    }

    pub fn contour_count(&self) -> (result: usize)
        ensures
            result == self.contours@.len(),
    {
        self.contours.len()
    }

    pub fn owned_edge_count(&self) -> (result: usize)
        ensures
            result == self.edges@.filter(|edge: GraphEdge| edge.owner is Some).len(),
    {
        let ghost keep = |edge: GraphEdge| edge.owner is Some;
        let mut count: usize = 0;
        let mut i: usize = 0;
        proof {
            reveal(Seq::filter);
        }
        while i < self.edges.len()
            invariant
                count <= i <= self.edges.len(),
                keep == (|edge: GraphEdge| edge.owner is Some),
                count == self.edges@.take(i as int).filter(keep).len(),
            decreases self.edges.len() - i,
        {
            assert(self.edges@.take(i + 1).drop_last() =~= self.edges@.take(i as int));
            proof {
                reveal(Seq::filter);
            }
            if self.edges[i].owner.is_some() {
                count += 1;
            }
            i += 1;
        }
        assert(self.edges@.take(i as int) =~= self.edges@);
        count
    }

    /// The pairs of edges without a common point, which must not cross.
    pub fn apart_pairs(&self) -> (result: Vec<(usize, usize)>)
        ensures
            forall|i: int|
                0 <= i < result@.len() ==> (#[trigger] result@[i]).0 < result@[i].1
                    && result@[i].1 < self.edges@.len() && apart(
                    self.edges@[result@[i].0 as int],
                    self.edges@[result@[i].1 as int],
                ),
            forall|a: usize, b: usize|
                a < b < self.edges@.len() && #[trigger] apart(
                    self.edges@[a as int],
                    self.edges@[b as int],
                ) ==> result@.contains((a, b)),
            forall|i: int, j: int|
                0 <= i < j < result@.len() ==> pair_before(
                    #[trigger] result@[i],
                    #[trigger] result@[j],
                ),
    {
        let mut pairs: Vec<(usize, usize)> = Vec::new();
        let count: usize = self.edges.len();
        let mut a: usize = 0;
        while a < count
            invariant
                a <= count,
                count == self.edges@.len(),
                forall|i: int|
                    0 <= i < pairs@.len() ==> (#[trigger] pairs@[i]).0 < pairs@[i].1 && pairs@[i].1
                        < count && pairs@[i].0 < a && apart(
                        self.edges@[pairs@[i].0 as int],
                        self.edges@[pairs@[i].1 as int],
                    ),
                forall|x: usize, y: usize|
                    x < a && x < y < count && #[trigger] apart(
                        self.edges@[x as int],
                        self.edges@[y as int],
                    ) ==> pairs@.contains((x, y)),
                forall|i: int, j: int|
                    0 <= i < j < pairs@.len() ==> pair_before(
                        #[trigger] pairs@[i],
                        #[trigger] pairs@[j],
                    ),
            decreases count - a,
        {
            let mut b: usize = a + 1;
            while b < count
                invariant
                    a < b <= count,
                    count == self.edges@.len(),
                    forall|i: int|
                        0 <= i < pairs@.len() ==> (#[trigger] pairs@[i]).0 < pairs@[i].1
                            && pairs@[i].1 < count && (pairs@[i].0 < a || (pairs@[i].0 == a
                            && pairs@[i].1 < b)) && apart(
                            self.edges@[pairs@[i].0 as int],
                            self.edges@[pairs@[i].1 as int],
                        ),
                    forall|x: usize, y: usize|
                        (x < a || (x == a && y < b)) && x < y < count && #[trigger] apart(
                            self.edges@[x as int],
                            self.edges@[y as int],
                        ) ==> pairs@.contains((x, y)),
                    forall|i: int, j: int|
                        0 <= i < j < pairs@.len() ==> pair_before(
                            #[trigger] pairs@[i],
                            #[trigger] pairs@[j],
                        ),
                decreases count - b,
            {
                let first = self.edges[a].points;
                let second = self.edges[b].points;
                let ghost before = pairs@;
                if first[0] != second[0] && first[0] != second[1] && first[1] != second[0]
                    && first[1] != second[1] {
                    pairs.push((a, b));
                    assert(pairs@[before.len() as int] == (a, b));
                }
                proof {
                    assert forall|x: usize, y: usize|
                        (x < a || (x == a && y < b + 1)) && x < y < count && #[trigger] apart(
                            self.edges@[x as int],
                            self.edges@[y as int],
                        ) implies pairs@.contains((x, y)) by {
                        if x == a && y == b {
                            assert(pairs@.contains((a, b)));
                        } else {
                            assert(before.contains((x, y)));
                            let k = before.index_of((x, y));
                            assert(pairs@[k] == (x, y));
                        }
                    }
                }
                b += 1;
            }
            a += 1;
        }
        pairs
    }
}

/// The edges have no point in common.
pub open spec fn apart(a: GraphEdge, b: GraphEdge) -> bool {
    a.points[0] != b.points[0] && a.points[0] != b.points[1] && a.points[1] != b.points[0]
        && a.points[1] != b.points[1]
}

/// The order of pairs of places.
pub open spec fn pair_before(a: (usize, usize), b: (usize, usize)) -> bool {
    a.0 < b.0 || (a.0 == b.0 && a.1 < b.1)
}

/// The vertex before a place of a ring.
pub open spec fn ring_before(ring: Seq<PointKey>, place: int) -> PointKey {
    if place == 0 {
        ring.last()
    } else {
        ring[place - 1]
    }
}

/// The vertex after a place of a ring.
pub open spec fn ring_after(ring: Seq<PointKey>, place: int) -> PointKey {
    if place == ring.len() - 1 {
        ring[0]
    } else {
        ring[place + 1]
    }
}

/// An edge at the vertex carries a layer, whose spacing must stay.
pub open spec fn in_layer(
    targets: Map<EdgeKey, Real>,
    ring: Seq<PointKey>,
    place: int,
) -> bool {
    targets.dom().contains(edge_key(ring_before(ring, place), ring[place])) || targets.dom().contains(
        edge_key(ring[place], ring_after(ring, place)),
    )
}

/// Three vertices in a row, of which the middle one may be left out.
#[derive(Debug, Clone, Copy, PartialEq, Eq, Structural)]
pub struct Corner {
    pub previous: PointKey,
    pub current: PointKey,
    pub next: PointKey,
}

/// Leaves vertices out of a contour one at a time: after each, it looks at the
/// contour from its beginning again.
#[derive(Debug)]
pub struct Simplifier {
    pub vertices: Vec<PointKey>,
    pub place: usize,
}

impl Simplifier {
    /// Starts with a closed contour, whose last point is its first.
    pub fn new(contour: &Vec<PointKey>) -> (result: Simplifier)
        requires
            contour@.len() > 0,
        ensures
            result.vertices@ == contour@.drop_last(),
            result.place == 0,
    {
        let mut vertices: Vec<PointKey> = Vec::new();
        let mut i: usize = 0;
        while i < contour.len() - 1
            invariant
                i < contour.len(),
                vertices@ == contour@.take(i as int),
            decreases contour.len() - i,
        {
            vertices.push(contour[i]);
            assert(vertices@ =~= contour@.take(i + 1));
            i += 1;
        }
        assert(contour@.take(i as int) =~= contour@.drop_last());
        Simplifier { vertices, place: 0 }
    }

    /// The next vertex to look at: the first from the current place on that no
    /// layer holds. None once three vertices are left, or none is left to look
    /// at.
    pub fn next(&mut self, targets: &SortedMap<EdgeKey, Real>) -> (result: Option<Corner>)
        requires
            targets.wf(),
        ensures
            final(self).vertices@ == old(self).vertices@,
            old(self).place <= final(self).place,
            match result {
                Some(corner) => {
                    let ring = old(self).vertices@;
                    let place = final(self).place as int;
                    &&& ring.len() > 3
                    &&& old(self).place <= place < ring.len()
                    &&& !in_layer(targets@, ring, place)
                    &&& forall|k: int|
                        old(self).place <= k < place ==> #[trigger] in_layer(targets@, ring, k)
                    &&& corner.previous == ring_before(ring, place)
                    &&& corner.current == ring[place]
                    &&& corner.next == ring_after(ring, place)
                },
                None => old(self).vertices@.len() <= 3 || forall|k: int|
                    old(self).place <= k < old(self).vertices@.len() ==> #[trigger] in_layer(
                        targets@,
                        old(self).vertices@,
                        k,
                    ),
            },
    {
        let count: usize = self.vertices.len();
        if count <= 3 {
            return None;
        }
        let ghost ring = self.vertices@;
        let ghost first = self.place;
        while self.place < count
            invariant
                self.vertices@ == ring,
                ring.len() == count,
                count > 3,
                targets.wf(),
                first <= self.place,
                first == old(self).place,
                ring == old(self).vertices@,
                forall|k: int| first <= k < self.place ==> #[trigger] in_layer(targets@, ring, k),
            decreases count - self.place,
        {
            let place: usize = self.place;
            let previous = if place == 0 {
                self.vertices[count - 1]
            } else {
                self.vertices[place - 1]
            };
            let current = self.vertices[place];
            let next = if place == count - 1 {
                self.vertices[0]
            } else {
                self.vertices[place + 1]
            };
            if !targets.contains_key(&ordered_pair(previous, current)) && !targets.contains_key(
                &ordered_pair(current, next),
            ) {
                return Some(Corner { previous, current, next });
            }
            assert(in_layer(targets@, ring, place as int));
            self.place = place + 1;
        }
        None
    }

    /// Leaves the current vertex out, or passes on to the next one.
    pub fn settle(&mut self, straight: bool)
        requires
            old(self).place < old(self).vertices@.len(),
        ensures
            straight ==> final(self).vertices@ == old(self).vertices@.remove(
                old(self).place as int,
            ) && final(self).place == 0,
            !straight ==> final(self).vertices@ == old(self).vertices@ && final(self).place
                == old(self).place + 1,
    {
        let count: usize = self.vertices.len();
        if straight {
            let gone = self.vertices.remove(self.place);
            self.place = 0;
        } else if self.place < count {
            self.place = self.place + 1;
        }
    }

    /// The contour that is left, closed again.
    pub fn finish(self) -> (result: Vec<PointKey>)
        requires
            self.vertices@.len() > 0,
        ensures
            result@ == self.vertices@.push(self.vertices@[0]),
    {
        let mut contour = self.vertices;
        let first = contour[0];
        contour.push(first);
        contour
    }
}

/// What is wrong with a final mesh.
#[derive(Debug, Clone, Copy, PartialEq, Eq, Structural)]
pub enum MeshFault {
    Invalid,
    Crossed,
    NonPositive,
    NonManifold,
    LostConstraint,
    OpenArea,
    Cycles,
}

/// The areas of a final mesh as a message shows them: of the cells, of the
/// boundary cycles, by how much they differ, and by how much they may.
#[derive(Debug)]
pub struct AreaTexts {
    pub cells: String,
    pub boundary: String,
    pub residual: String,
    pub tolerance: String,
}

impl AreaTexts {
    pub open spec fn text(self) -> Seq<char> {
        "(cells="@ + self.cells@ + ", boundary="@ + self.boundary@ + ", residual="@ + self.residual@
            + ", tolerance="@ + self.tolerance@ + ")"@
    }
}

impl MeshFault {
    pub open spec fn text(self, areas: AreaTexts) -> Seq<char> {
        match self {
            MeshFault::Invalid => "is not topology-valid"@,
            MeshFault::Crossed => "contains crossed cell edges"@,
            MeshFault::NonPositive => "contains a non-positive cell"@,
            MeshFault::NonManifold => "has non-manifold edge incidence"@,
            MeshFault::LostConstraint => "lost a protected constraint"@,
            MeshFault::OpenArea => "does not close to the area of its boundary cycles "@
                + areas.text(),
            MeshFault::Cycles => "does not match its classified PSLG cycles"@,
        }
    }

    fn reason(self, areas: &AreaTexts) -> (result: String)
        ensures
            result@ == self.text(*areas),
    {
        match self {
            MeshFault::Invalid => "is not topology-valid".to_owned(),
            MeshFault::Crossed => "contains crossed cell edges".to_owned(),
            MeshFault::NonPositive => "contains a non-positive cell".to_owned(),
            MeshFault::NonManifold => "has non-manifold edge incidence".to_owned(),
            MeshFault::LostConstraint => "lost a protected constraint".to_owned(),
            MeshFault::OpenArea => {
                let mut text = "does not close to the area of its boundary cycles ".to_owned();
                let ghost head = text@;
                text.append("(cells=");
                text.append(areas.cells.as_str());
                text.append(", boundary=");
                text.append(areas.boundary.as_str());
                text.append(", residual=");
                text.append(areas.residual.as_str());
                text.append(", tolerance=");
                text.append(areas.tolerance.as_str());
                text.append(")");
                assert(text@ =~= head + areas.text());
                text
            },
            MeshFault::Cycles => "does not match its classified PSLG cycles".to_owned(),
        }
    }

    /// The error with which a domain's final mesh is refused.
    pub fn error(self, domain: &str, areas: &AreaTexts) -> (result: MeshError)
        ensures
            result is InvalidInput,
            result.text() == "domain "@ + debug_text(domain@) + " final 2D mesh audit failed: "@
                + self.text(*areas),
    {
        let mut text = around(
            "domain ",
            quoted(domain).as_str(),
            " final 2D mesh audit failed: ",
        );
        text.append(self.reason(areas).as_str());
        MeshError::InvalidInput(text)
    }
}

/// What was measured of a final mesh.
#[derive(Debug)]
pub struct FinalMeasure {
    /// Some two cell edges cross.
    pub crossed: bool,
    /// The area of each cell, and the area that it must pass.
    pub areas: Vec<(Real, Real)>,
    /// By how much the cells' area differs from that of the boundary cycles.
    pub residual: Real,
    /// By how much it may differ.
    pub tolerance: Real,
}

/// Some cell does not pass its area.
pub open spec fn shrunken(areas: Seq<(Real, Real)>) -> bool {
    exists|i: int| 0 <= i < areas.len() && (#[trigger] areas[i]).0.le(areas[i].1)
}

/// More than two cells share the edge, or two that run along it in the same
/// direction.
pub open spec fn overused(sides: Seq<Side>) -> bool {
    sides.len() > 2 || (sides.len() == 2 && sides[0].from == sides[1].from && sides[0].to
        == sides[1].to)
}

/// Some edge is overused.
pub open spec fn non_manifold(cells: Seq<CellView>) -> bool {
    exists|edge: EdgeKey| overused(#[trigger] sides_on(all_sides(cells), edge))
}

/// Some constraint is no cell's edge.
pub open spec fn lost_constraint(cells: Seq<CellView>, constraints: Set<EdgeKey>) -> bool {
    exists|edge: EdgeKey| #[trigger]
        constraints.contains(edge) && sides_on(all_sides(cells), edge).len() == 0
}

/// The first thing wrong with a final mesh before its graph is looked at.
pub open spec fn mesh_fault(
    cells: Seq<CellView>,
    constraints: Set<EdgeKey>,
    sound: bool,
    measure: FinalMeasure,
) -> Option<MeshFault> {
    if cells.len() == 0 || !sound {
        Some(MeshFault::Invalid)
    } else if measure.crossed {
        Some(MeshFault::Crossed)
    } else if shrunken(measure.areas@) {
        Some(MeshFault::NonPositive)
    } else if non_manifold(cells) {
        Some(MeshFault::NonManifold)
    } else if lost_constraint(cells, constraints) {
        Some(MeshFault::LostConstraint)
    } else if measure.tolerance.lt(measure.residual) {
        Some(MeshFault::OpenArea)
    } else {
        None
    }
}

fn is_shrunken(areas: &Vec<(Real, Real)>) -> (result: bool)
    ensures
        result == shrunken(areas@),
{
    let mut i: usize = 0;
    while i < areas.len()
        invariant
            i <= areas.len(),
            forall|k: int| 0 <= k < i ==> !(#[trigger] areas@[k]).0.le(areas@[k].1),
        decreases areas.len() - i,
    {
        let pair = areas[i];
        if pair.0.at_most(pair.1) {
            assert(areas@[i as int].0.le(areas@[i as int].1));
            return true;
        }
        i += 1;
    }
    false
}

fn is_non_manifold(edges: &EdgeMap, Ghost(cells): Ghost<Seq<CellView>>) -> (result: bool)
    requires
        edges.gathers(all_sides(cells)),
    ensures
        result == non_manifold(cells),
{
    let mut i: usize = 0;
    while i < edges.groups.keys.len()
        invariant
            i <= edges.groups.keys.len(),
            edges.gathers(all_sides(cells)),
            forall|k: int| 0 <= k < i ==> !overused((#[trigger] edges.groups.values@[k])@),
        decreases edges.groups.keys.len() - i,
    {
        proof {
            edges.groups.entry_at(i as int);
        }
        let sides = &edges.groups.values[i];
        let twice = sides.len() == 2 && sides[0].from == sides[1].from && sides[0].to == sides[1].to;
        if sides.len() > 2 || twice {
            assert(overused(sides_on(all_sides(cells), edges.groups.keys@[i as int])));
            return true;
        }
        i += 1;
    }
    proof {
        assert forall|edge: EdgeKey| !overused(#[trigger] sides_on(all_sides(cells), edge)) by {
            if sides_on(all_sides(cells), edge).len() > 0 {
                assert(edges.groups@.dom().contains(edge));
                let k = edges.groups.keys@.index_of(edge);
                assert(edges.groups.keys@.contains(edge));
                edges.groups.entry_at(k);
                assert(!overused(edges.groups.values@[k]@));
            }
        }
    }
    false
}

fn has_lost_constraint(
    edges: &EdgeMap,
    constraints: &SortedSet<EdgeKey>,
    Ghost(cells): Ghost<Seq<CellView>>,
) -> (result: bool)
    requires
        edges.gathers(all_sides(cells)),
        constraints.wf(),
    ensures
        result == lost_constraint(cells, constraints@),
{
    let mut i: usize = 0;
    while i < constraints.items.len()
        invariant
            i <= constraints.items.len(),
            edges.gathers(all_sides(cells)),
            forall|k: int|
                0 <= k < i ==> sides_on(
                    all_sides(cells),
                    #[trigger] constraints.items@[k],
                ).len() > 0,
        decreases constraints.items.len() - i,
    {
        if !edges.groups.contains_key(&constraints.items[i]) {
            proof {
                let edge = constraints.items@[i as int];
                assert(constraints.items@.contains(edge));
                assert(constraints@.contains(edge));
                assert(!edges.groups@.dom().contains(edge));
            }
            return true;
        }
        assert(edges.groups@.dom().contains(constraints.items@[i as int]));
        i += 1;
    }
    proof {
        assert forall|edge: EdgeKey| #[trigger] constraints@.contains(edge) implies sides_on(
            all_sides(cells),
            edge,
        ).len() > 0 by {
            let k = constraints.items@.index_of(edge);
            assert(constraints.items@.contains(edge));
            assert(constraints.items@[k] == edge);
        }
    }
    false
}

/// Whether a final mesh is one: `sound` where its assessment found nothing
/// invalid.
pub fn validate_mesh(
    cells: &Vec<Cell>,
    constraints: &SortedSet<EdgeKey>,
    sound: bool,
    measure: &FinalMeasure,
) -> (result: Option<MeshFault>)
    requires
        constraints.wf(),
    ensures
        result == mesh_fault(cell_views(cells@), constraints@, sound, *measure),
{
    let ghost views = cell_views(cells@);
    if cells.len() == 0 || !sound {
        return Some(MeshFault::Invalid);
    }
    if measure.crossed {
        return Some(MeshFault::Crossed);
    }
    if is_shrunken(&measure.areas) {
        return Some(MeshFault::NonPositive);
    }
    let sides = cell_sides(cells);
    let edges = EdgeMap::gather(&sides);
    if is_non_manifold(&edges, Ghost(views)) {
        return Some(MeshFault::NonManifold);
    }
    if has_lost_constraint(&edges, constraints, Ghost(views)) {
        return Some(MeshFault::LostConstraint);
    }
    if measure.tolerance.less(measure.residual) {
        return Some(MeshFault::OpenArea);
    }
    None
}

/// Whether the graph of a final mesh has contours, and owned edges where the
/// domain has regions.
pub fn validate_graph(graph: &PlanarConstraintGraph, has_regions: bool) -> (result: Option<MeshFault>)
    ensures
        result == if graph.contours@.len() == 0 || (has_regions && graph.edges@.filter(
            |edge: GraphEdge| edge.owner is Some,
        ).len() == 0) {
            Some(MeshFault::Cycles)
        } else {
            None
        },
{
    if graph.contour_count() == 0 || (has_regions && graph.owned_edge_count() == 0) {
        Some(MeshFault::Cycles)
    } else {
        None
    }
}

/// The steps of the contours are exactly the pairs of points that follow one another in one
/// of them.
pub proof fn steps_are_all(contours: Seq<Vec<PointKey>>, count: int, step: (PointKey, PointKey))
    requires
        0 <= count <= contours.len(),
    ensures
        all_steps(contours, count).contains(step) <==> exists|c: int, i: int|
            0 <= c < count && 0 <= i && i + 1 < contours[c]@.len() && (#[trigger] contours[c]@[i])
                == step.0 && contours[c]@[i + 1] == step.1,
    decreases count,
{
    if count > 0 {
        steps_are_all(contours, count - 1, step);
        let rest = all_steps(contours, count - 1);
        let contour = contours[count - 1]@;
        let own = steps_of(contour, step_count(contour));
        let all = all_steps(contours, count);
        if all.contains(step) {
            let m = all.index_of(step);
            assert(all[m] == step);
            if m < rest.len() {
                assert(rest[m] == step);
                assert(rest.contains(step));
            } else {
                let i = m - rest.len();
                assert(own[i] == step);
                assert(contours[count - 1]@[i] == step.0);
            }
        }
        if rest.contains(step) {
            let m = rest.index_of(step);
            assert(all[m] == step);
        }
        if exists|i: int|
            0 <= i && i + 1 < contour.len() && (#[trigger] contour[i]) == step.0 && contour[i + 1]
                == step.1 {
            let i = choose|i: int|
                0 <= i && i + 1 < contour.len() && (#[trigger] contour[i]) == step.0
                    && contour[i + 1] == step.1;
            assert(own[i] == step);
            assert(all[rest.len() + i] == step);
        }
        if exists|c: int, i: int|
            0 <= c < count && 0 <= i && i + 1 < contours[c]@.len() && (#[trigger] contours[c]@[i])
                == step.0 && contours[c]@[i + 1] == step.1 {
            let (c, i) = choose|c: int, i: int|
                0 <= c < count && 0 <= i && i + 1 < contours[c]@.len() && (
                #[trigger] contours[c]@[i]) == step.0 && contours[c]@[i + 1] == step.1;
            if c == count - 1 {
                assert(contour[i] == step.0);
            }
        }
    }
}

/// Going on along a ring and back leads to the same vertex, from every place.
pub proof fn ring_neighbors_agree(ring: Seq<PointKey>, place: int)
    requires
        0 <= place < ring.len(),
    ensures
        ({
            let next = if place + 1 < ring.len() {
                place + 1
            } else {
                0
            };
            &&& ring_after(ring, place) == ring[next]
            &&& ring_before(ring, next) == ring[place]
        }),
{
}

/// A final mesh is accepted before its graph is looked at exactly where it is sound, has cells,
/// none crossed and each with more than its least area, no edge with more than two cells or
/// with two that run along it the same way, every constraint as an edge, and an area that
/// closes.
pub proof fn accepted_mesh_is_sound(
    cells: Seq<CellView>,
    constraints: Set<EdgeKey>,
    sound: bool,
    measure: FinalMeasure,
)
    ensures
        mesh_fault(cells, constraints, sound, measure) is None <==> {
            &&& cells.len() > 0
            &&& sound
            &&& !measure.crossed
            &&& forall|i: int|
                0 <= i < measure.areas@.len() ==> !(#[trigger] measure.areas@[i]).0.le(
                    measure.areas@[i].1,
                )
            &&& forall|edge: EdgeKey|
                (#[trigger] sides_on(all_sides(cells), edge)).len() <= 2 && (sides_on(
                    all_sides(cells),
                    edge,
                ).len() == 2 ==> {
                    let pair = sides_on(all_sides(cells), edge);
                    pair[0].from != pair[1].from || pair[0].to != pair[1].to
                })
            &&& forall|edge: EdgeKey| #[trigger]
                constraints.contains(edge) ==> sides_on(all_sides(cells), edge).len() > 0
            &&& !measure.tolerance.lt(measure.residual)
        },
{
    if non_manifold(cells) {
        let edge = choose|edge: EdgeKey| overused(#[trigger] sides_on(all_sides(cells), edge));
        assert(overused(sides_on(all_sides(cells), edge)));
    } else {
        assert forall|edge: EdgeKey| !overused(#[trigger] sides_on(all_sides(cells), edge)) by {}
    }
}

/// A vertex carries a layer exactly where a side of the ring that ends at it has a target: both
/// vertices of a side with a target carry one.
pub proof fn layered_side_has_both_ends(
    targets: Map<EdgeKey, Real>,
    ring: Seq<PointKey>,
    place: int,
)
    requires
        0 <= place < ring.len(),
    ensures
        ({
            let next = if place + 1 < ring.len() {
                place + 1
            } else {
                0
            };
            let before = if place > 0 {
                place - 1
            } else {
                ring.len() - 1
            };
            &&& targets.dom().contains(edge_key(ring[place], ring[next])) ==> in_layer(
                targets,
                ring,
                place,
            ) && in_layer(targets, ring, next)
            &&& !targets.dom().contains(edge_key(ring[place], ring[next])) && !targets.dom().contains(
                edge_key(ring[before], ring[place]),
            ) ==> !in_layer(targets, ring, place)
        }),
{
}

} // verus!
