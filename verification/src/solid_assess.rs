//! Judging a 3D mesh: which leaves must be refined, which cells are poor, and
//! what the boundary is.

use vstd::prelude::*;

use crate::faces::sort_pair;
#[allow(unused_imports)]
use crate::faces::sorted_pair;
use crate::filling::{list_face_keys, FaceKey};
#[allow(unused_imports)]
use crate::filling::face_keys;
use crate::grouping::Grouping;
#[allow(unused_imports)]
use crate::grouping::{places_are_exact, places_of};
use crate::number::Real;
#[allow(unused_imports)]
use crate::number::total_rank_injective;
use crate::octree::Leaf;
use crate::solid::{Cell, PointKey, QUALITY_FLOOR_BITS};
use crate::sorted::{Key, SortedSet};
use crate::tetrahedra::tet_faces;
#[allow(unused_imports)]
use crate::tetrahedra::tet_face;
use crate::topology::VALID_QUALITY_BITS;

verus! {

/// Two points, the smaller one first.
pub type EdgeKey = (PointKey, PointKey);

pub open spec fn tets_of(cells: Seq<Cell>) -> Seq<[PointKey; 4]> {
    cells.map_values(|cell: Cell| cell.points)
}

/// The points of a face of a cell, counterclockwise from outside. Faces count
/// four to a cell.
pub open spec fn oriented_face(cells: Seq<Cell>, side: int) -> Seq<PointKey> {
    let points = cells[side / 4].points@;
    let face = tet_face(side % 4);
    seq![points[face[0] as int], points[face[1] as int], points[face[2] as int]]
}

/// The faces, among the first keys, that belong to one cell only.
pub open spec fn lone_sides(sides: Seq<FaceKey>, keys: Seq<FaceKey>, count: int) -> Seq<usize>
    decreases count,
{
    if count <= 0 {
        Seq::empty()
    } else {
        let rest = lone_sides(sides, keys, count - 1);
        let places = places_of(sides, keys[count - 1]);
        if places.len() == 1 {
            rest.push(places[0])
        } else {
            rest
        }
    }
}

/// The edge of a boundary face; edges count three to a face.
pub open spec fn boundary_edge(cells: Seq<Cell>, boundary: Seq<usize>, place: int) -> EdgeKey {
    let points = oriented_face(cells, boundary[place / 3] as int);
    sorted_pair(points[place % 3], points[(place % 3 + 1) % 3])
}

pub open spec fn boundary_edge_list(cells: Seq<Cell>, boundary: Seq<usize>) -> Seq<EdgeKey> {
    Seq::new(3 * boundary.len(), |place: int| boundary_edge(cells, boundary, place))
}

/// The faces of the cells and the edges of the boundary, gathered.
#[derive(Debug)]
pub struct Skeleton {
    /// The faces of the cells, four to a cell.
    pub sides: Vec<FaceKey>,
    pub faces: Grouping<FaceKey>,
    /// The faces that belong to one cell only, in order of their names.
    pub boundary: Vec<usize>,
    /// The edges of the boundary faces, three to a face.
    pub edge_list: Vec<EdgeKey>,
    pub edges: Grouping<EdgeKey>,
}

impl Skeleton {
    pub open spec fn of_cells(self, cells: Seq<Cell>) -> bool {
        &&& self.sides@ == face_keys(tets_of(cells))
        &&& self.faces.gathers(self.sides@)
        &&& self.boundary@ == lone_sides(
            self.sides@,
            self.faces.groups.keys@,
            self.faces.groups.keys@.len() as int,
        )
        &&& self.edge_list@ == boundary_edge_list(cells, self.boundary@)
        &&& self.edges.gathers(self.edge_list@)
        &&& forall|i: int| 0 <= i < self.boundary@.len() ==> #[trigger] self.boundary@[i] < 4 * cells.len()
    }

    pub fn build(cells: &Vec<Cell>) -> (result: Skeleton)
        ensures
            result.of_cells(cells@),
    {
        let tets = list_tets(cells);
        let sides = list_face_keys(&tets);
        let faces = Grouping::gather(&sides);
        let boundary = find_boundary(&sides, &faces);
        let edge_list = list_boundary_edges(cells, &boundary);
        let edges = Grouping::gather(&edge_list);
        Skeleton { sides, faces, boundary, edge_list, edges }
    }
}

pub(crate) fn list_tets(cells: &Vec<Cell>) -> (result: Vec<[PointKey; 4]>)
    ensures
        result@ == tets_of(cells@),
{
    let mut tets: Vec<[PointKey; 4]> = Vec::new();
    let mut i: usize = 0;
    while i < cells.len()
        invariant
            i <= cells.len(),
            tets.len() == i,
            forall|k: int| 0 <= k < i ==> #[trigger] tets@[k] == cells@[k].points,
        decreases cells.len() - i,
    {
        tets.push(cells[i].points);
        i = i + 1;
    }
    assert(tets@ =~= tets_of(cells@));
    tets
}

fn find_boundary(sides: &Vec<FaceKey>, faces: &Grouping<FaceKey>) -> (result: Vec<usize>)
    requires
        faces.gathers(sides@),
    ensures
        result@ == lone_sides(sides@, faces.groups.keys@, faces.groups.keys@.len() as int),
        forall|i: int| 0 <= i < result.len() ==> #[trigger] result@[i] < sides@.len(),
{
    let mut list: Vec<usize> = Vec::new();
    let mut k: usize = 0;
    let count: usize = sides.len();
    while k < faces.groups.keys.len()
        invariant
            count == sides@.len(),
            k <= faces.groups.keys@.len(),
            faces.gathers(sides@),
            list@ == lone_sides(sides@, faces.groups.keys@, k as int),
            forall|i: int| 0 <= i < list.len() ==> #[trigger] list@[i] < sides@.len(),
        decreases faces.groups.keys@.len() - k,
    {
        proof {
            faces.group_at(sides@, k as int);
            places_are_exact(sides@, faces.groups.keys@[k as int]);
        }
        let places = &faces.groups.values[k];
        if places.len() == 1 {
            list.push(places[0]);
        }
        k = k + 1;
    }
    list
}

/// The points of a face of a cell.
pub fn face_points(cells: &Vec<Cell>, side: usize) -> (result: [PointKey; 3])
    requires
        side < 4 * cells@.len(),
    ensures
        result@ == oriented_face(cells@, side as int),
{
    let faces = tet_faces();
    let face = faces[side % 4];
    let points = cells[side / 4].points;
    proof {
        assert(face@ == tet_face(side as int % 4));
        assert(faces[(side % 4) as int][0] < 4);
        assert(faces[(side % 4) as int][1] < 4);
        assert(faces[(side % 4) as int][2] < 4);
    }
    let result = [points[face[0]], points[face[1]], points[face[2]]];
    assert(result@ =~= oriented_face(cells@, side as int));
    result
}

fn list_boundary_edges(cells: &Vec<Cell>, boundary: &Vec<usize>) -> (result: Vec<EdgeKey>)
    requires
        forall|i: int| 0 <= i < boundary@.len() ==> #[trigger] boundary@[i] < 4 * cells@.len(),
    ensures
        result@ == boundary_edge_list(cells@, boundary@),
{
    let mut list: Vec<EdgeKey> = Vec::new();
    let mut f: usize = 0;
    while f < boundary.len()
        invariant
            f <= boundary.len(),
            forall|i: int| 0 <= i < boundary@.len() ==> #[trigger] boundary@[i] < 4 * cells@.len(),
            list.len() == 3 * f,
            forall|p: int|
                0 <= p < 3 * f ==> #[trigger] list@[p] == boundary_edge(cells@, boundary@, p),
        decreases boundary.len() - f,
    {
        let points = face_points(cells, boundary[f]);
        let ghost before = list@;
        list.push(sort_pair(points[0], points[1]));
        list.push(sort_pair(points[1], points[2]));
        list.push(sort_pair(points[2], points[0]));
        proof {
            assert forall|p: int| 0 <= p < 3 * (f + 1) implies #[trigger] list@[p] == boundary_edge(
                cells@,
                boundary@,
                p,
            ) by {
                if p < 3 * f {
                    assert(list@[p] == before[p]);
                } else {
                    assert(p / 3 == f);
                    let face = oriented_face(cells@, boundary@[f as int] as int);
                    assert(points@ == face);
                    assert(points[0] == face[0] && points[1] == face[1] && points[2] == face[2]);
                    assert(p == 3 * f || p == 3 * f + 1 || p == 3 * f + 2);
                }
            }
        }
        f = f + 1;
    }
    assert(list@ =~= boundary_edge_list(cells@, boundary@));
    list
}

/// What was measured of a cell.
#[derive(Debug, Clone, Copy)]
pub struct CellMeasure {
    /// It has too little volume, or is turned the wrong way.
    pub flat: bool,
    pub quality: Real,
    /// All of its samples lie in the domain.
    pub contained: bool,
}

/// What was measured of a boundary face.
#[derive(Debug, Clone, Copy, PartialEq, Eq, Structural)]
pub struct FaceMeasure {
    /// Its centre lies close to the boundary of the domain.
    pub near_boundary: bool,
    /// Its centre was found on the boundary.
    pub on_boundary: bool,
}

/// Why a leaf must be refined.
#[derive(Debug, Clone, Copy, PartialEq, Eq, Structural)]
pub enum Reason {
    NotFilled,
    Degenerate,
    NotContained,
    CrowdedFace,
    NotOnBoundary,
    Unclassified,
    OpenEdge,
}

impl Reason {
    pub open spec fn text(self) -> Seq<char> {
        match self {
            Reason::NotFilled => "cut polyhedron produced a degenerate tetrahedron"@,
            Reason::Degenerate =>
                "tetrahedron is inverted, degenerate, or below the Scaled Jacobian validity floor"@,
            Reason::NotContained => "tetrahedron containment samples leave the negative SDF domain"@,
            Reason::CrowdedFace => "non-manifold tetrahedron face incidence"@,
            Reason::NotOnBoundary => "exposed tetrahedron face is not owned by the SDF boundary"@,
            Reason::Unclassified => "SDF boundary ownership classification failed"@,
            Reason::OpenEdge => "boundary triangle edges do not have manifold incidence two"@,
        }
    }

    pub fn message(self) -> (result: &'static str)
        ensures
            result@ == self.text(),
    {
        match self {
            Reason::NotFilled => "cut polyhedron produced a degenerate tetrahedron",
            Reason::Degenerate =>
                "tetrahedron is inverted, degenerate, or below the Scaled Jacobian validity floor",
            Reason::NotContained => "tetrahedron containment samples leave the negative SDF domain",
            Reason::CrowdedFace => "non-manifold tetrahedron face incidence",
            Reason::NotOnBoundary => "exposed tetrahedron face is not owned by the SDF boundary",
            Reason::Unclassified => "SDF boundary ownership classification failed",
            Reason::OpenEdge => "boundary triangle edges do not have manifold incidence two",
        }
    }
}

/// The cell, or the boundary face, whose centre is meant.
#[derive(Debug, Clone, Copy, PartialEq, Eq, Structural)]
pub enum Spot {
    Cell(usize),
    Face(usize),
}

#[derive(Debug, Clone, Copy, PartialEq, Eq, Structural)]
pub struct Finding {
    pub reason: Reason,
    pub leaf: Leaf,
    pub spot: Spot,
}

/// What is wrong with a cell.
pub open spec fn cell_fault(cell: Cell, measure: CellMeasure) -> Option<Reason> {
    if measure.flat || measure.quality.le(Real { bits: VALID_QUALITY_BITS }) {
        Some(Reason::Degenerate)
    } else if !cell.certified_interior && !measure.contained {
        Some(Reason::NotContained)
    } else {
        None
    }
}

/// What is wrong with the first cells.
pub open spec fn cell_findings(cells: Seq<Cell>, measures: Seq<CellMeasure>, count: int) -> Seq<Finding>
    decreases count,
{
    if count <= 0 {
        Seq::empty()
    } else {
        let rest = cell_findings(cells, measures, count - 1);
        match cell_fault(cells[count - 1], measures[count - 1]) {
            Some(reason) => rest.push(
                Finding {
                    reason,
                    leaf: cells[count - 1].leaf,
                    spot: Spot::Cell((count - 1) as usize),
                },
            ),
            None => rest,
        }
    }
}

/// The cells that share a face too many of them have.
pub open spec fn crowd(cells: Seq<Cell>, places: Seq<usize>) -> Seq<Finding> {
    Seq::new(
        places.len(),
        |i: int|
            Finding {
                reason: Reason::CrowdedFace,
                leaf: cells[places[i] as int / 4].leaf,
                spot: Spot::Cell((places[i] / 4) as usize),
            },
    )
}

pub open spec fn crowd_findings(
    cells: Seq<Cell>,
    sides: Seq<FaceKey>,
    keys: Seq<FaceKey>,
    count: int,
) -> Seq<Finding>
    decreases count,
{
    if count <= 0 {
        Seq::empty()
    } else {
        let rest = crowd_findings(cells, sides, keys, count - 1);
        let places = places_of(sides, keys[count - 1]);
        if places.len() > 2 {
            rest + crowd(cells, places)
        } else {
            rest
        }
    }
}

/// What is wrong with a boundary face.
pub open spec fn face_fault(measure: FaceMeasure) -> Option<Reason> {
    if !measure.near_boundary {
        Some(Reason::NotOnBoundary)
    } else if !measure.on_boundary {
        Some(Reason::Unclassified)
    } else {
        None
    }
}

pub open spec fn face_findings(
    cells: Seq<Cell>,
    boundary: Seq<usize>,
    measures: Seq<FaceMeasure>,
    count: int,
) -> Seq<Finding>
    decreases count,
{
    if count <= 0 {
        Seq::empty()
    } else {
        let rest = face_findings(cells, boundary, measures, count - 1);
        match face_fault(measures[count - 1]) {
            Some(reason) => rest.push(
                Finding {
                    reason,
                    leaf: cells[boundary[count - 1] as int / 4].leaf,
                    spot: Spot::Face((count - 1) as usize),
                },
            ),
            None => rest,
        }
    }
}

/// The boundary faces at an edge that not exactly two of them have.
pub open spec fn ragged(cells: Seq<Cell>, boundary: Seq<usize>, places: Seq<usize>) -> Seq<Finding> {
    Seq::new(
        places.len(),
        |i: int|
            Finding {
                reason: Reason::OpenEdge,
                leaf: cells[boundary[places[i] as int / 3] as int / 4].leaf,
                spot: Spot::Face((places[i] / 3) as usize),
            },
    )
}

pub open spec fn edge_findings(
    cells: Seq<Cell>,
    boundary: Seq<usize>,
    keys: Seq<EdgeKey>,
    count: int,
) -> Seq<Finding>
    decreases count,
{
    if count <= 0 {
        Seq::empty()
    } else {
        let rest = edge_findings(cells, boundary, keys, count - 1);
        let places = places_of(boundary_edge_list(cells, boundary), keys[count - 1]);
        if places.len() != 2 {
            rest + ragged(cells, boundary, places)
        } else {
            rest
        }
    }
}

/// Everything that is wrong: with cells, shared faces, boundary faces and
/// boundary edges, in this order.
pub open spec fn all_findings(
    cells: Seq<Cell>,
    skeleton: Skeleton,
    measures: Seq<CellMeasure>,
    faces: Seq<FaceMeasure>,
) -> Seq<Finding> {
    let sides = skeleton.sides@;
    let keys = skeleton.faces.groups.keys@;
    let boundary = skeleton.boundary@;
    let edges = skeleton.edges.groups.keys@;
    cell_findings(cells, measures, cells.len() as int) + crowd_findings(
        cells,
        sides,
        keys,
        keys.len() as int,
    ) + face_findings(cells, boundary, faces, boundary.len() as int) + edge_findings(
        cells,
        boundary,
        edges,
        edges.len() as int,
    )
}

fn audit_cells(cells: &Vec<Cell>, measures: &Vec<CellMeasure>, findings: &mut Vec<Finding>)
    requires
        measures@.len() == cells@.len(),
    ensures
        final(findings)@ == old(findings)@ + cell_findings(cells@, measures@, cells@.len() as int),
{
    let ghost start = findings@;
    let mut i: usize = 0;
    assert(findings@ =~= start + cell_findings(cells@, measures@, 0));
    while i < cells.len()
        invariant
            i <= cells.len(),
            measures@.len() == cells@.len(),
            findings@ == start + cell_findings(cells@, measures@, i as int),
        decreases cells.len() - i,
    {
        let cell = &cells[i];
        let measure = &measures[i];
        let ghost before = findings@;
        if measure.flat || measure.quality.at_most(Real { bits: VALID_QUALITY_BITS }) {
            findings.push(
                Finding { reason: Reason::Degenerate, leaf: cell.leaf, spot: Spot::Cell(i) },
            );
        } else if !cell.certified_interior && !measure.contained {
            findings.push(
                Finding { reason: Reason::NotContained, leaf: cell.leaf, spot: Spot::Cell(i) },
            );
        }
        assert(findings@ =~= start + cell_findings(cells@, measures@, i + 1));
        i = i + 1;
    }
}

fn push_crowd(cells: &Vec<Cell>, places: &Vec<usize>, findings: &mut Vec<Finding>)
    requires
        forall|i: int| 0 <= i < places@.len() ==> #[trigger] places@[i] < 4 * cells@.len(),
    ensures
        final(findings)@ == old(findings)@ + crowd(cells@, places@),
{
    let ghost start = findings@;
    let mut i: usize = 0;
    assert(findings@ =~= start + crowd(cells@, places@).take(0));
    while i < places.len()
        invariant
            i <= places.len(),
            forall|k: int| 0 <= k < places@.len() ==> #[trigger] places@[k] < 4 * cells@.len(),
            findings@ == start + crowd(cells@, places@).take(i as int),
        decreases places.len() - i,
    {
        let cell: usize = places[i] / 4;
        findings.push(
            Finding {
                reason: Reason::CrowdedFace,
                leaf: cells[cell].leaf,
                spot: Spot::Cell(cell),
            },
        );
        assert(findings@ =~= start + crowd(cells@, places@).take(i as int + 1));
        i = i + 1;
    }
    assert(crowd(cells@, places@).take(i as int) =~= crowd(cells@, places@));
}

fn audit_faces(cells: &Vec<Cell>, skeleton: &Skeleton, findings: &mut Vec<Finding>)
    requires
        skeleton.of_cells(cells@),
    ensures
        final(findings)@ == old(findings)@ + crowd_findings(
            cells@,
            skeleton.sides@,
            skeleton.faces.groups.keys@,
            skeleton.faces.groups.keys@.len() as int,
        ),
{
    let ghost start = findings@;
    let ghost sides = skeleton.sides@;
    let ghost keys = skeleton.faces.groups.keys@;
    let count: usize = skeleton.sides.len();
    let mut k: usize = 0;
    assert(findings@ =~= start + crowd_findings(cells@, sides, keys, 0));
    while k < skeleton.faces.groups.keys.len()
        invariant
            count == sides.len(),
            sides == skeleton.sides@,
            keys == skeleton.faces.groups.keys@,
            skeleton.of_cells(cells@),
            k <= keys.len(),
            findings@ == start + crowd_findings(cells@, sides, keys, k as int),
        decreases keys.len() - k,
    {
        proof {
            skeleton.faces.group_at(sides, k as int);
            places_are_exact(sides, keys[k as int]);
        }
        let places = &skeleton.faces.groups.values[k];
        if places.len() > 2 {
            push_crowd(cells, places, findings);
        }
        assert(findings@ =~= start + crowd_findings(cells@, sides, keys, k + 1));
        k = k + 1;
    }
}

fn audit_boundary(
    cells: &Vec<Cell>,
    skeleton: &Skeleton,
    measures: &Vec<FaceMeasure>,
    findings: &mut Vec<Finding>,
)
    requires
        skeleton.of_cells(cells@),
        measures@.len() == skeleton.boundary@.len(),
    ensures
        final(findings)@ == old(findings)@ + face_findings(
            cells@,
            skeleton.boundary@,
            measures@,
            skeleton.boundary@.len() as int,
        ),
{
    let ghost start = findings@;
    let ghost boundary = skeleton.boundary@;
    let mut f: usize = 0;
    assert(findings@ =~= start + face_findings(cells@, boundary, measures@, 0));
    while f < skeleton.boundary.len()
        invariant
            boundary == skeleton.boundary@,
            skeleton.of_cells(cells@),
            measures@.len() == boundary.len(),
            f <= boundary.len(),
            findings@ == start + face_findings(cells@, boundary, measures@, f as int),
        decreases boundary.len() - f,
    {
        let cell: usize = skeleton.boundary[f] / 4;
        let measure = measures[f];
        if !measure.near_boundary {
            findings.push(
                Finding {
                    reason: Reason::NotOnBoundary,
                    leaf: cells[cell].leaf,
                    spot: Spot::Face(f),
                },
            );
        } else if !measure.on_boundary {
            findings.push(
                Finding {
                    reason: Reason::Unclassified,
                    leaf: cells[cell].leaf,
                    spot: Spot::Face(f),
                },
            );
        }
        assert(findings@ =~= start + face_findings(cells@, boundary, measures@, f + 1));
        f = f + 1;
    }
}

fn push_ragged(cells: &Vec<Cell>, boundary: &Vec<usize>, places: &Vec<usize>, findings: &mut Vec<Finding>)
    requires
        forall|i: int| 0 <= i < boundary@.len() ==> #[trigger] boundary@[i] < 4 * cells@.len(),
        forall|i: int| 0 <= i < places@.len() ==> #[trigger] places@[i] < 3 * boundary@.len(),
    ensures
        final(findings)@ == old(findings)@ + ragged(cells@, boundary@, places@),
{
    let ghost start = findings@;
    let mut i: usize = 0;
    assert(findings@ =~= start + ragged(cells@, boundary@, places@).take(0));
    while i < places.len()
        invariant
            i <= places.len(),
            forall|k: int| 0 <= k < boundary@.len() ==> #[trigger] boundary@[k] < 4 * cells@.len(),
            forall|k: int| 0 <= k < places@.len() ==> #[trigger] places@[k] < 3 * boundary@.len(),
            findings@ == start + ragged(cells@, boundary@, places@).take(i as int),
        decreases places.len() - i,
    {
        let face: usize = places[i] / 3;
        let cell: usize = boundary[face] / 4;
        findings.push(
            Finding { reason: Reason::OpenEdge, leaf: cells[cell].leaf, spot: Spot::Face(face) },
        );
        assert(findings@ =~= start + ragged(cells@, boundary@, places@).take(i as int + 1));
        i = i + 1;
    }
    assert(ragged(cells@, boundary@, places@).take(i as int) =~= ragged(
        cells@,
        boundary@,
        places@,
    ));
}

fn audit_edges(cells: &Vec<Cell>, skeleton: &Skeleton, findings: &mut Vec<Finding>)
    requires
        skeleton.of_cells(cells@),
    ensures
        final(findings)@ == old(findings)@ + edge_findings(
            cells@,
            skeleton.boundary@,
            skeleton.edges.groups.keys@,
            skeleton.edges.groups.keys@.len() as int,
        ),
{
    let ghost start = findings@;
    let ghost boundary = skeleton.boundary@;
    let ghost list = boundary_edge_list(cells@, boundary);
    let ghost keys = skeleton.edges.groups.keys@;
    let count: usize = skeleton.edge_list.len();
    let mut k: usize = 0;
    assert(findings@ =~= start + edge_findings(cells@, boundary, keys, 0));
    while k < skeleton.edges.groups.keys.len()
        invariant
            boundary == skeleton.boundary@,
            list == boundary_edge_list(cells@, boundary),
            keys == skeleton.edges.groups.keys@,
            skeleton.of_cells(cells@),
            count == list.len(),
            k <= keys.len(),
            findings@ == start + edge_findings(cells@, boundary, keys, k as int),
        decreases keys.len() - k,
    {
        proof {
            skeleton.edges.group_at(list, k as int);
            places_are_exact(list, keys[k as int]);
        }
        let places = &skeleton.edges.groups.values[k];
        if places.len() != 2 {
            push_ragged(cells, &skeleton.boundary, places, findings);
        }
        assert(findings@ =~= start + edge_findings(cells@, boundary, keys, k + 1));
        k = k + 1;
    }
}

/// A cell below the quality floor. The worst comes first, of equals the one
/// with the smaller place.
#[derive(Debug, Clone, Copy, PartialEq, Eq, Structural)]
pub struct PoorCell {
    pub quality: Real,
    pub index: usize,
}

impl Key for PoorCell {
    open spec fn before(self, other: Self) -> bool {
        self.quality.total_rank() < other.quality.total_rank() || (self.quality == other.quality
            && self.index < other.index)
    }

    proof fn irreflexive(a: Self) {
    }

    proof fn transitive(a: Self, b: Self, c: Self) {
    }

    proof fn total(a: Self, b: Self) {
        total_rank_injective(a.quality, b.quality);
    }

    fn precedes(&self, other: &Self) -> (result: bool) {
        self.quality.total_less(other.quality) || (self.quality.bits == other.quality.bits
            && self.index < other.index)
    }
}

/// The cell is sound but below the quality floor.
pub open spec fn is_poor(cell: Cell, measure: CellMeasure) -> bool {
    cell_fault(cell, measure) is None && measure.quality.lt(Real { bits: QUALITY_FLOOR_BITS })
}

/// The poor ones of the first cells.
pub open spec fn poor_cells(cells: Seq<Cell>, measures: Seq<CellMeasure>, count: int) -> Set<PoorCell> {
    Set::new(
        |poor: PoorCell|
            poor.index < count && is_poor(cells[poor.index as int], measures[poor.index as int])
                && poor.quality == measures[poor.index as int].quality,
    )
}

/// The first poor one of the first cells.
pub open spec fn first_poor(cells: Seq<Cell>, measures: Seq<CellMeasure>, count: int) -> Option<usize>
    decreases count,
{
    if count <= 0 {
        None
    } else {
        match first_poor(cells, measures, count - 1) {
            Some(index) => Some(index),
            None => if is_poor(cells[count - 1], measures[count - 1]) {
                Some((count - 1) as usize)
            } else {
                None
            },
        }
    }
}

/// The worst of one and the first qualities.
pub open spec fn worst_quality(measures: Seq<CellMeasure>, count: int) -> Real
    decreases count,
{
    if count <= 0 {
        Real { bits: 0x3ff0_0000_0000_0000 }
    } else {
        let rest = worst_quality(measures, count - 1);
        if measures[count - 1].quality.lt(rest) {
            measures[count - 1].quality
        } else {
            rest
        }
    }
}

/// What was found out about a mesh.
#[derive(Debug)]
pub struct Assessment {
    pub boundary_vertices: SortedSet<PointKey>,
    pub poor: SortedSet<PoorCell>,
    pub refine: SortedSet<Leaf>,
    pub reason: Option<Reason>,
    pub location: Option<Spot>,
    pub worst_quality: Real,
}

/// The leaves that the findings name.
pub open spec fn named_leaves(findings: Seq<Finding>) -> Set<Leaf> {
    Set::new(|leaf: Leaf| exists|i: int| 0 <= i < findings.len() && (#[trigger] findings[i]).leaf == leaf)
}

/// The points of the boundary faces.
pub open spec fn on_boundary(cells: Seq<Cell>, boundary: Seq<usize>) -> Set<PointKey> {
    Set::new(
        |key: PointKey|
            exists|f: int|
                0 <= f < boundary.len() && #[trigger] oriented_face(
                    cells,
                    boundary[f] as int,
                ).contains(key),
    )
}

/// The reason that is reported: leaves that could not be filled go first.
pub open spec fn reported(failures: Set<Leaf>, findings: Seq<Finding>) -> Option<Reason> {
    if failures != Set::<Leaf>::empty() {
        Some(Reason::NotFilled)
    } else if findings.len() > 0 {
        Some(findings[0].reason)
    } else {
        None
    }
}

/// The place that is reported: that of the reported finding, else the first
/// poor cell.
pub open spec fn reported_spot(failures: Set<Leaf>, findings: Seq<Finding>, poor: Option<usize>) -> Option<
    Spot,
> {
    if failures == Set::<Leaf>::empty() && findings.len() > 0 {
        Some(findings[0].spot)
    } else {
        match poor {
            Some(index) => Some(Spot::Cell(index)),
            None => None,
        }
    }
}

fn gather_poor(cells: &Vec<Cell>, measures: &Vec<CellMeasure>) -> (result: (
    SortedSet<PoorCell>,
    Option<usize>,
    Real,
))
    requires
        measures@.len() == cells@.len(),
    ensures
        result.0.wf(),
        result.0@ == poor_cells(cells@, measures@, cells@.len() as int),
        result.1 == first_poor(cells@, measures@, cells@.len() as int),
        result.2 == worst_quality(measures@, cells@.len() as int),
{
    let mut poor: SortedSet<PoorCell> = SortedSet::new();
    let mut first: Option<usize> = None;
    let mut worst = Real { bits: 0x3ff0_0000_0000_0000 };
    let mut i: usize = 0;
    assert(poor@ =~= poor_cells(cells@, measures@, 0));
    while i < cells.len()
        invariant
            i <= cells.len(),
            measures@.len() == cells@.len(),
            poor.wf(),
            poor@ == poor_cells(cells@, measures@, i as int),
            first == first_poor(cells@, measures@, i as int),
            worst == worst_quality(measures@, i as int),
        decreases cells.len() - i,
    {
        let cell = &cells[i];
        let measure = &measures[i];
        let quality = measure.quality;
        if quality.less(worst) {
            worst = quality;
        }
        let faulty = measure.flat || quality.at_most(Real { bits: VALID_QUALITY_BITS }) || (
        !cell.certified_interior && !measure.contained);
        let ghost before = poor@;
        if !faulty && quality.less(Real { bits: QUALITY_FLOOR_BITS }) {
            poor.insert(PoorCell { quality, index: i });
            if first.is_none() {
                first = Some(i);
            }
        }
        assert(poor@ =~= poor_cells(cells@, measures@, i + 1));
        i = i + 1;
    }
    (poor, first, worst)
}

fn gather_boundary_points(cells: &Vec<Cell>, boundary: &Vec<usize>) -> (result: SortedSet<PointKey>)
    requires
        forall|i: int| 0 <= i < boundary@.len() ==> #[trigger] boundary@[i] < 4 * cells@.len(),
    ensures
        result.wf(),
        result@ == on_boundary(cells@, boundary@),
{
    let mut set: SortedSet<PointKey> = SortedSet::new();
    let mut f: usize = 0;
    assert(set@ =~= on_boundary(cells@, boundary@.take(0)));
    while f < boundary.len()
        invariant
            f <= boundary.len(),
            forall|i: int| 0 <= i < boundary@.len() ==> #[trigger] boundary@[i] < 4 * cells@.len(),
            set.wf(),
            set@ == on_boundary(cells@, boundary@.take(f as int)),
        decreases boundary.len() - f,
    {
        let points = face_points(cells, boundary[f]);
        let ghost before = set@;
        set.insert(points[0]);
        set.insert(points[1]);
        set.insert(points[2]);
        proof {
            let short = boundary@.take(f as int);
            let long = boundary@.take(f as int + 1);
            let face = oriented_face(cells@, boundary@[f as int] as int);
            assert(long =~= short.push(boundary@[f as int]));
            assert(points[0] == face[0] && points[1] == face[1] && points[2] == face[2]);
            assert forall|key: PointKey| #[trigger]
                set@.contains(key) <==> on_boundary(cells@, long).contains(key) by {
                if before.contains(key) {
                    let k = choose|k: int|
                        0 <= k < short.len() && #[trigger] oriented_face(
                            cells@,
                            short[k] as int,
                        ).contains(key);
                    assert(oriented_face(cells@, long[k] as int).contains(key));
                }
                if face.contains(key) {
                    assert(oriented_face(cells@, long[f as int] as int).contains(key));
                    let p = face.index_of(key);
                    assert(p == 0 || p == 1 || p == 2);
                }
                assert(face.contains(face[0]) && face.contains(face[1]) && face.contains(face[2]));
                if on_boundary(cells@, long).contains(key) {
                    let k = choose|k: int|
                        0 <= k < long.len() && #[trigger] oriented_face(
                            cells@,
                            long[k] as int,
                        ).contains(key);
                    if k < f {
                        assert(oriented_face(cells@, short[k] as int).contains(key));
                    }
                }
            }
            assert(set@ =~= on_boundary(cells@, long));
        }
        f = f + 1;
    }
    assert(boundary@.take(f as int) =~= boundary@);
    set
}

fn leaves_to_refine(failures: &SortedSet<Leaf>, findings: &Vec<Finding>) -> (result: SortedSet<Leaf>)
    requires
        failures.wf(),
    ensures
        result.wf(),
        result@ == failures@.union(named_leaves(findings@)),
{
    let mut set: SortedSet<Leaf> = SortedSet::new();
    let mut i: usize = 0;
    while i < failures.items.len()
        invariant
            i <= failures.items.len(),
            set.wf(),
            forall|leaf: Leaf| #[trigger]
                set@.contains(leaf) <==> failures.items@.take(i as int).contains(leaf),
        decreases failures.items.len() - i,
    {
        let leaf = failures.items[i];
        let ghost before = set@;
        set.insert(leaf);
        proof {
            let short = failures.items@.take(i as int);
            let long = failures.items@.take(i as int + 1);
            assert(long =~= short.push(leaf));
            assert forall|k: Leaf| #[trigger] set@.contains(k) <==> long.contains(k) by {
                assert(before.contains(k) <==> short.contains(k));
                assert(long[i as int] == leaf);
                if short.contains(k) {
                    assert(long[short.index_of(k)] == k);
                }
                if long.contains(k) && k != leaf {
                    assert(short[long.index_of(k)] == k);
                }
            }
        }
        i = i + 1;
    }
    proof {
        assert(failures.items@.take(i as int) =~= failures.items@);
        assert(set@ =~= failures@);
    }
    let mut j: usize = 0;
    assert(set@ =~= failures@.union(named_leaves(findings@.take(0))));
    while j < findings.len()
        invariant
            j <= findings.len(),
            set.wf(),
            set@ == failures@.union(named_leaves(findings@.take(j as int))),
        decreases findings.len() - j,
    {
        let leaf = findings[j].leaf;
        let ghost before = set@;
        set.insert(leaf);
        proof {
            let short = findings@.take(j as int);
            let long = findings@.take(j as int + 1);
            assert(long =~= short.push(findings@[j as int]));
            assert forall|k: Leaf| #[trigger] set@.contains(k) <==> failures@.union(
                named_leaves(long),
            ).contains(k) by {
                if named_leaves(short).contains(k) {
                    let p = choose|p: int| 0 <= p < short.len() && (#[trigger] short[p]).leaf == k;
                    assert(long[p].leaf == k);
                }
                assert(long[j as int].leaf == leaf);
                if named_leaves(long).contains(k) && k != leaf {
                    let p = choose|p: int| 0 <= p < long.len() && (#[trigger] long[p]).leaf == k;
                    assert(short[p].leaf == k);
                }
            }
            assert(set@ =~= failures@.union(named_leaves(long)));
        }
        j = j + 1;
    }
    assert(findings@.take(j as int) =~= findings@);
    set
}

/// Judges a mesh by what was measured of its cells and its boundary faces.
pub fn assess(
    cells: &Vec<Cell>,
    failures: &SortedSet<Leaf>,
    skeleton: &Skeleton,
    measures: &Vec<CellMeasure>,
    faces: &Vec<FaceMeasure>,
) -> (result: Assessment)
    requires
        failures.wf(),
        skeleton.of_cells(cells@),
        measures@.len() == cells@.len(),
        faces@.len() == skeleton.boundary@.len(),
    ensures
        ({
            let findings = all_findings(cells@, *skeleton, measures@, faces@);
            let count = cells@.len() as int;
            &&& result.refine.wf()
            &&& result.refine@ == failures@.union(named_leaves(findings))
            &&& result.reason == reported(failures@, findings)
            &&& result.location == reported_spot(
                failures@,
                findings,
                first_poor(cells@, measures@, count),
            )
            &&& result.poor.wf()
            &&& result.poor@ == poor_cells(cells@, measures@, count)
            &&& result.worst_quality == worst_quality(measures@, count)
            &&& result.boundary_vertices.wf()
            &&& result.boundary_vertices@ == on_boundary(cells@, skeleton.boundary@)
        }),
{
    let mut findings: Vec<Finding> = Vec::new();
    audit_cells(cells, measures, &mut findings);
    audit_faces(cells, skeleton, &mut findings);
    audit_boundary(cells, skeleton, faces, &mut findings);
    audit_edges(cells, skeleton, &mut findings);
    assert(findings@ =~= all_findings(cells@, *skeleton, measures@, faces@));
    let refine = leaves_to_refine(failures, &findings);
    let (poor, first, worst) = gather_poor(cells, measures);
    let boundary_vertices = gather_boundary_points(cells, &skeleton.boundary);
    proof {
        if failures.items@.len() == 0 {
            assert(failures@ =~= Set::<Leaf>::empty());
        } else {
            assert(failures@.contains(failures.items@[0]));
        }
    }
    let filled = failures.items.len() == 0;
    let reason = if !filled {
        Some(Reason::NotFilled)
    } else if findings.len() > 0 {
        Some(findings[0].reason)
    } else {
        None
    };
    let location = if filled && findings.len() > 0 {
        Some(findings[0].spot)
    } else {
        match first {
            Some(index) => Some(Spot::Cell(index)),
            None => None,
        }
    };
    Assessment { boundary_vertices, poor, refine, reason, location, worst_quality: worst }
}

proof fn quiet_faces(cells: Seq<Cell>, sides: Seq<FaceKey>, keys: Seq<FaceKey>, count: int)
    requires
        crowd_findings(cells, sides, keys, count).len() == 0,
        count <= keys.len(),
    ensures
        forall|k: int| 0 <= k < count ==> places_of(sides, #[trigger] keys[k]).len() <= 2,
    decreases count,
{
    if count > 0 {
        let places = places_of(sides, keys[count - 1]);
        let rest = crowd_findings(cells, sides, keys, count - 1);
        if places.len() > 2 {
            assert((rest + crowd(cells, places)).len() == rest.len() + places.len());
        }
        quiet_faces(cells, sides, keys, count - 1);
    }
}

proof fn quiet_edges(cells: Seq<Cell>, boundary: Seq<usize>, keys: Seq<EdgeKey>, count: int)
    requires
        edge_findings(cells, boundary, keys, count).len() == 0,
        count <= keys.len(),
        forall|k: int|
            0 <= k < count ==> places_of(
                boundary_edge_list(cells, boundary),
                #[trigger] keys[k],
            ).len() > 0,
    ensures
        forall|k: int|
            0 <= k < count ==> places_of(
                boundary_edge_list(cells, boundary),
                #[trigger] keys[k],
            ).len() == 2,
    decreases count,
{
    if count > 0 {
        let places = places_of(boundary_edge_list(cells, boundary), keys[count - 1]);
        let rest = edge_findings(cells, boundary, keys, count - 1);
        assert(places.len() > 0);
        if places.len() != 2 {
            assert((rest + ragged(cells, boundary, places)).len() == rest.len() + places.len());
        }
        quiet_edges(cells, boundary, keys, count - 1);
    }
}

/// Where no leaf must be refined, the mesh is a manifold: no face has more
/// than two cells, and every edge of the boundary has exactly two boundary
/// faces.
pub proof fn accepted_mesh_is_manifold(
    cells: Seq<Cell>,
    failures: Set<Leaf>,
    skeleton: Skeleton,
    measures: Seq<CellMeasure>,
    faces: Seq<FaceMeasure>,
)
    requires
        skeleton.of_cells(cells),
        failures.union(named_leaves(all_findings(cells, skeleton, measures, faces))) == Set::<
            Leaf,
        >::empty(),
    ensures
        forall|key: FaceKey| (#[trigger] places_of(face_keys(tets_of(cells)), key)).len() <= 2,
        forall|key: EdgeKey| {
            let count = (#[trigger] places_of(
                boundary_edge_list(cells, skeleton.boundary@),
                key,
            )).len();
            count == 0 || count == 2
        },
{
    let findings = all_findings(cells, skeleton, measures, faces);
    let sides = skeleton.sides@;
    let keys = skeleton.faces.groups.keys@;
    let edges = skeleton.edges.groups.keys@;
    let boundary = skeleton.boundary@;
    let list = boundary_edge_list(cells, boundary);
    if findings.len() > 0 {
        let leaf = findings[0].leaf;
        assert(named_leaves(findings).contains(leaf));
        assert(failures.union(named_leaves(findings)).contains(leaf));
    }
    quiet_faces(cells, sides, keys, keys.len() as int);
    assert forall|key: FaceKey| (#[trigger] places_of(sides, key)).len() <= 2 by {
        if places_of(sides, key).len() > 0 {
            assert(skeleton.faces.groups@.dom().contains(key));
            let k = keys.index_of(key);
            assert(keys[k] == key);
        }
    }
    assert forall|k: int| 0 <= k < edges.len() implies places_of(list, #[trigger] edges[k]).len()
        > 0 by {
        skeleton.edges.group_at(list, k);
    }
    quiet_edges(cells, boundary, edges, edges.len() as int);
    assert forall|key: EdgeKey| {
        let count = (#[trigger] places_of(list, key)).len();
        count == 0 || count == 2
    } by {
        if places_of(list, key).len() > 0 {
            assert(skeleton.edges.groups@.dom().contains(key));
            let k = edges.index_of(key);
            assert(edges[k] == key);
        }
    }
}

/// The boundary faces are those that one cell alone has, in order.
pub proof fn lone_sides_are_exact(
    sides: Seq<FaceKey>,
    keys: Seq<FaceKey>,
    count: int,
) -> (places: Seq<int>)
    requires
        0 <= count,
    ensures
        lone_sides(sides, keys, count).len() == places.len(),
        forall|i: int, j: int|
            0 <= i < j < places.len() ==> (#[trigger] places[i]) < (#[trigger] places[j]),
        forall|k: int| #[trigger] places.contains(k) <==> 0 <= k < count && places_of(sides, keys[k]).len() == 1,
        forall|i: int|
            0 <= i < places.len() ==> lone_sides(sides, keys, count)[i] == places_of(sides, keys[(#[trigger] places[i])])[0],
    decreases count,
{
    if count == 0 {
        Seq::empty()
    } else {
        let list = lone_sides_are_exact(sides, keys, count - 1);
        let last = count - 1;
        let takes = places_of(sides, keys[last]).len() == 1;
        let places = if takes {
            list.push(last)
        } else {
            list
        };
        let rest = lone_sides(sides, keys, count - 1);
        let now = lone_sides(sides, keys, count);
        
        assert forall|i: int| 0 <= i < list.len() implies 0 <= (#[trigger] list[i]) < last by {
            assert(list.contains(list[i]));
        }
        assert forall|k: int| #[trigger] places.contains(k) <==> 0 <= k < count && places_of(sides, keys[k]).len() == 1 by {
            if places.contains(k) {
                let m = places.index_of(k);
                if m < list.len() {
                    assert(list[m] == k);
                    assert(list.contains(k));
                }
            }
            if list.contains(k) {
                let m = list.index_of(k);
                assert(places[m] == k);
            }
            if k == last && takes {
                assert(places[list.len() as int] == k);
            }
        }
        assert forall|i: int| 0 <= i < places.len() implies now[i] == places_of(sides, keys[(#[trigger] places[i])])[0] by {
            if i < list.len() {
                assert(places[i] == list[i]);
                assert(now[i] == rest[i]);
            }
        }
        places
    }
}

/// The cells that are found faulty are those that are flat or of too low a quality, or that
/// leave the domain without being known to lie inside; in order, each with its leaf.
pub proof fn faulty_cells_are_found(
    cells: Seq<Cell>,
    measures: Seq<CellMeasure>,
    count: int,
) -> (places: Seq<int>)
    requires
        0 <= count <= usize::MAX,
    ensures
        cell_findings(cells, measures, count).len() == places.len(),
        forall|i: int, j: int|
            0 <= i < j < places.len() ==> (#[trigger] places[i]) < (#[trigger] places[j]),
        forall|k: int| #[trigger] places.contains(k) <==> 0 <= k < count && (measures[k].flat || measures[k].quality.le(Real { bits: VALID_QUALITY_BITS }) || !cells[k].certified_interior && !measures[k].contained),
        forall|i: int|
            0 <= i < places.len() ==> cell_findings(cells, measures, count)[i] == (Finding { reason: if measures[(#[trigger] places[i])].flat || measures[(#[trigger] places[i])].quality.le(Real { bits: VALID_QUALITY_BITS }) { Reason::Degenerate } else { Reason::NotContained }, leaf: cells[(#[trigger] places[i])].leaf, spot: Spot::Cell((#[trigger] places[i]) as usize) }),
    decreases count,
{
    if count == 0 {
        Seq::empty()
    } else {
        let list = faulty_cells_are_found(cells, measures, count - 1);
        let last = count - 1;
        let takes = (measures[last].flat || measures[last].quality.le(Real { bits: VALID_QUALITY_BITS }) || !cells[last].certified_interior && !measures[last].contained);
        let places = if takes {
            list.push(last)
        } else {
            list
        };
        let rest = cell_findings(cells, measures, count - 1);
        let now = cell_findings(cells, measures, count);
        
        assert forall|i: int| 0 <= i < list.len() implies 0 <= (#[trigger] list[i]) < last by {
            assert(list.contains(list[i]));
        }
        assert forall|k: int| #[trigger] places.contains(k) <==> 0 <= k < count && (measures[k].flat || measures[k].quality.le(Real { bits: VALID_QUALITY_BITS }) || !cells[k].certified_interior && !measures[k].contained) by {
            if places.contains(k) {
                let m = places.index_of(k);
                if m < list.len() {
                    assert(list[m] == k);
                    assert(list.contains(k));
                }
            }
            if list.contains(k) {
                let m = list.index_of(k);
                assert(places[m] == k);
            }
            if k == last && takes {
                assert(places[list.len() as int] == k);
            }
        }
        assert forall|i: int| 0 <= i < places.len() implies now[i] == (Finding { reason: if measures[(#[trigger] places[i])].flat || measures[(#[trigger] places[i])].quality.le(Real { bits: VALID_QUALITY_BITS }) { Reason::Degenerate } else { Reason::NotContained }, leaf: cells[(#[trigger] places[i])].leaf, spot: Spot::Cell((#[trigger] places[i]) as usize) }) by {
            if i < list.len() {
                assert(places[i] == list[i]);
                assert(now[i] == rest[i]);
            }
        }
        places
    }
}

/// The boundary faces that are found faulty are those off the boundary and those that no
/// region of it owns; in order, each with the leaf of its cell.
pub proof fn faulty_faces_are_found(
    cells: Seq<Cell>,
    boundary: Seq<usize>,
    measures: Seq<FaceMeasure>,
    count: int,
) -> (places: Seq<int>)
    requires
        0 <= count <= usize::MAX,
    ensures
        face_findings(cells, boundary, measures, count).len() == places.len(),
        forall|i: int, j: int|
            0 <= i < j < places.len() ==> (#[trigger] places[i]) < (#[trigger] places[j]),
        forall|k: int| #[trigger] places.contains(k) <==> 0 <= k < count && (!measures[k].near_boundary || !measures[k].on_boundary),
        forall|i: int|
            0 <= i < places.len() ==> face_findings(cells, boundary, measures, count)[i] == (Finding { reason: if !measures[(#[trigger] places[i])].near_boundary { Reason::NotOnBoundary } else { Reason::Unclassified }, leaf: cells[boundary[(#[trigger] places[i])] as int / 4].leaf, spot: Spot::Face((#[trigger] places[i]) as usize) }),
    decreases count,
{
    if count == 0 {
        Seq::empty()
    } else {
        let list = faulty_faces_are_found(cells, boundary, measures, count - 1);
        let last = count - 1;
        let takes = (!measures[last].near_boundary || !measures[last].on_boundary);
        let places = if takes {
            list.push(last)
        } else {
            list
        };
        let rest = face_findings(cells, boundary, measures, count - 1);
        let now = face_findings(cells, boundary, measures, count);
        
        assert forall|i: int| 0 <= i < list.len() implies 0 <= (#[trigger] list[i]) < last by {
            assert(list.contains(list[i]));
        }
        assert forall|k: int| #[trigger] places.contains(k) <==> 0 <= k < count && (!measures[k].near_boundary || !measures[k].on_boundary) by {
            if places.contains(k) {
                let m = places.index_of(k);
                if m < list.len() {
                    assert(list[m] == k);
                    assert(list.contains(k));
                }
            }
            if list.contains(k) {
                let m = list.index_of(k);
                assert(places[m] == k);
            }
            if k == last && takes {
                assert(places[list.len() as int] == k);
            }
        }
        assert forall|i: int| 0 <= i < places.len() implies now[i] == (Finding { reason: if !measures[(#[trigger] places[i])].near_boundary { Reason::NotOnBoundary } else { Reason::Unclassified }, leaf: cells[boundary[(#[trigger] places[i])] as int / 4].leaf, spot: Spot::Face((#[trigger] places[i]) as usize) }) by {
            if i < list.len() {
                assert(places[i] == list[i]);
                assert(now[i] == rest[i]);
            }
        }
        places
    }
}

/// The first poor cell is found: sound, but of a quality below the floor.
pub proof fn first_poor_is_first(cells: Seq<Cell>, measures: Seq<CellMeasure>, count: int)
    requires
        0 <= count <= usize::MAX,
    ensures
        match first_poor(cells, measures, count) {
            Some(index) => index < count && is_poor(cells[index as int], measures[index as int])
                && forall|i: int|
                0 <= i < index ==> !is_poor(#[trigger] cells[i], measures[i]),
            None => forall|i: int| 0 <= i < count ==> !is_poor(#[trigger] cells[i], measures[i]),
        },
    decreases count,
{
    if count > 0 {
        first_poor_is_first(cells, measures, count - 1);
    }
}

/// The worst quality is the lowest of all and of one.
pub proof fn worst_quality_is_lowest(measures: Seq<CellMeasure>, count: int)
    requires
        0 <= count <= measures.len(),
        forall|i: int| 0 <= i < measures.len() ==> !(#[trigger] measures[i]).quality.nan(),
    ensures
        !worst_quality(measures, count).nan(),
        !(Real { bits: 0x3ff0_0000_0000_0000 }).lt(worst_quality(measures, count)),
        forall|i: int|
            0 <= i < count ==> !(#[trigger] measures[i]).quality.lt(worst_quality(measures, count)),
        worst_quality(measures, count) == (Real { bits: 0x3ff0_0000_0000_0000 }) || exists|i: int|
            0 <= i < count && worst_quality(measures, count) == (#[trigger] measures[i]).quality,
    decreases count,
{
    assert(!(Real { bits: 0x3ff0_0000_0000_0000 }).nan());
    if count > 0 {
        worst_quality_is_lowest(measures, count - 1);
        assert(!measures[count - 1].quality.nan());
    }
}

/// A mesh without findings is reported sound; otherwise leaves that were not filled are
/// named before what was found first.
pub proof fn report_follows_findings(failures: Set<Leaf>, findings: Seq<Finding>)
    ensures
        reported(failures, findings) is None <==> failures == Set::<Leaf>::empty() && findings.len()
            == 0,
        failures != Set::<Leaf>::empty() ==> reported(failures, findings) == Some(
            Reason::NotFilled,
        ),
        failures == Set::<Leaf>::empty() && findings.len() > 0 ==> reported(failures, findings)
            == Some(findings[0].reason) && reported_spot(failures, findings, None) == Some(
            findings[0].spot,
        ),
{
}

} // verus!
