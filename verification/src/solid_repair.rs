//! Local repair of poor cells in a 3D mesh.

use vstd::prelude::*;

use crate::algorithm::JobControl;
use crate::error::MeshResult;
use crate::faces::sort_pair;
#[allow(unused_imports)]
use crate::faces::sorted_pair;
use crate::filling::{list_face_keys, sorted3, FaceKey};
#[allow(unused_imports)]
use crate::filling::{face_keys, tet_face_key};
use crate::grouping::Grouping;
#[allow(unused_imports)]
use crate::grouping::{places_are_exact, places_of};
use crate::number::{Real, Vector3};
use crate::octree::{Grid, Leaf};
use crate::solid::{improves, orient_tet, Candidate, Cell, Objective, Point, PointKey};
#[allow(unused_imports)]
use crate::solid::{better, righted, tet_known};
use crate::solid_assess::{list_tets, EdgeKey, PoorCell};
#[allow(unused_imports)]
use crate::solid_assess::tets_of;
use crate::sorted::{same_key, SortedSet};
#[allow(unused_imports)]
use crate::sorted::{increasing_has_no_duplicates, Key};
use crate::tetrahedra::tet_faces;
#[allow(unused_imports)]
use crate::tetrahedra::{tet_edges, tet_face};

verus! {

/// The corners of the cells, four to a cell.
pub open spec fn corner_list(cells: Seq<Cell>) -> Seq<PointKey> {
    Seq::new(4 * cells.len(), |i: int| cells[i / 4].points@[i % 4])
}

/// The pair is an edge of some cell.
pub open spec fn cell_edge(cells: Seq<Cell>, edge: EdgeKey) -> bool {
    exists|c: int, e: int|
        0 <= c < cells.len() && 0 <= e < 6 && #[trigger] edge_of_cell(cells[c], e) == edge
}

pub open spec fn edge_of_cell(cell: Cell, edge: int) -> EdgeKey {
    sorted_pair(cell.points@[tet_edges()[edge].0 as int], cell.points@[tet_edges()[edge].1 as int])
}

/// Which cells meet at which faces, edges and points.
#[derive(Debug)]
pub struct RepairTopology {
    pub sides: Vec<FaceKey>,
    pub corners: Vec<PointKey>,
    pub faces: Grouping<FaceKey>,
    pub edges: SortedSet<EdgeKey>,
    pub vertices: Grouping<PointKey>,
}

impl RepairTopology {
    pub open spec fn of_cells(self, cells: Seq<Cell>) -> bool {
        &&& self.sides@ == face_keys(tets_of(cells))
        &&& self.corners@ == corner_list(cells)
        &&& self.faces.gathers(self.sides@)
        &&& self.vertices.gathers(self.corners@)
        &&& self.edges.wf()
        &&& forall|edge: EdgeKey| #[trigger] self.edges@.contains(edge) <==> cell_edge(cells, edge)
    }

    /// Gathers the faces, edges and points of the cells, unless the job is
    /// cancelled.
    pub fn build(control: &JobControl, cells: &Vec<Cell>) -> (result: MeshResult<RepairTopology>)
        ensures
            match result {
                Ok(topology) => topology.of_cells(cells@),
                Err(error) => error is Cancelled,
            },
    {
        let mut corners: Vec<PointKey> = Vec::new();
        let mut edges: SortedSet<EdgeKey> = SortedSet::new();
        let mut c: usize = 0;
        while c < cells.len()
            invariant
                c <= cells.len(),
                corners@ == corner_list(cells@.take(c as int)),
                edges.wf(),
                forall|edge: EdgeKey| #[trigger]
                    edges@.contains(edge) <==> cell_edge(cells@.take(c as int), edge),
            decreases cells.len() - c,
        {
            if c % 512 == 0 {
                control.check()?;
            }
            let cell = cells[c];
            let points = cell.points;
            let ghost short = cells@.take(c as int);
            let ghost long = cells@.take(c as int + 1);
            let ghost before = corners@;
            corners.push(points[0]);
            corners.push(points[1]);
            corners.push(points[2]);
            corners.push(points[3]);
            proof {
                assert forall|i: int| 0 <= i < corners@.len() implies corners@[i]
                    == #[trigger] corner_list(long)[i] by {
                    if i < 4 * c {
                        assert(before[i] == corner_list(short)[i]);
                        assert(i / 4 < c);
                    } else {
                        assert(i / 4 == c);
                        assert(i == 4 * c || i == 4 * c + 1 || i == 4 * c + 2 || i == 4 * c + 3);
                    }
                }
                assert(corners@ =~= corner_list(long));
            }
            let ghost held = edges@;
            edges.insert(sort_pair(points[0], points[1]));
            edges.insert(sort_pair(points[0], points[2]));
            edges.insert(sort_pair(points[0], points[3]));
            edges.insert(sort_pair(points[1], points[2]));
            edges.insert(sort_pair(points[1], points[3]));
            edges.insert(sort_pair(points[2], points[3]));
            proof {
                assert forall|edge: EdgeKey| #[trigger]
                    edges@.contains(edge) <==> cell_edge(long, edge) by {
                    assert(held.contains(edge) <==> cell_edge(short, edge));
                    assert(long[c as int] == cell);
                    assert(edge_of_cell(cell, 0) == sorted_pair(points[0], points[1]));
                    assert(edge_of_cell(cell, 1) == sorted_pair(points[0], points[2]));
                    assert(edge_of_cell(cell, 2) == sorted_pair(points[0], points[3]));
                    assert(edge_of_cell(cell, 3) == sorted_pair(points[1], points[2]));
                    assert(edge_of_cell(cell, 4) == sorted_pair(points[1], points[3]));
                    assert(edge_of_cell(cell, 5) == sorted_pair(points[2], points[3]));
                    if cell_edge(short, edge) {
                        let (k, e) = choose|k: int, e: int|
                            0 <= k < short.len() && 0 <= e < 6 && #[trigger] edge_of_cell(
                                short[k],
                                e,
                            ) == edge;
                        assert(edge_of_cell(long[k], e) == edge);
                    }
                    if cell_edge(long, edge) {
                        let (k, e) = choose|k: int, e: int|
                            0 <= k < long.len() && 0 <= e < 6 && #[trigger] edge_of_cell(
                                long[k],
                                e,
                            ) == edge;
                        if k < c {
                            assert(edge_of_cell(short[k], e) == edge);
                        } else {
                            assert(e == 0 || e == 1 || e == 2 || e == 3 || e == 4 || e == 5);
                        }
                    }
                    if edges@.contains(edge) && !held.contains(edge) {
                        assert(edge_of_cell(long[c as int], 0) == edge || edge_of_cell(
                            long[c as int],
                            1,
                        ) == edge || edge_of_cell(long[c as int], 2) == edge || edge_of_cell(
                            long[c as int],
                            3,
                        ) == edge || edge_of_cell(long[c as int], 4) == edge || edge_of_cell(
                            long[c as int],
                            5,
                        ) == edge);
                    }
                }
            }
            c = c + 1;
        }
        assert(cells@.take(c as int) =~= cells@);
        let tets = list_tets(cells);
        let sides = list_face_keys(&tets);
        let faces = Grouping::gather(&sides);
        let vertices = Grouping::gather(&corners);
        Ok(RepairTopology { sides, corners, faces, edges, vertices })
    }
}

/// The cells around a point, in order.
pub open spec fn around(cells: Seq<Cell>, key: PointKey) -> Seq<usize> {
    let places = places_of(corner_list(cells), key);
    Seq::new(places.len(), |i: int| (places[i] / 4) as usize)
}

/// The cells around a point, in order.
pub fn cells_around(topology: &RepairTopology, key: PointKey, cells: &Vec<Cell>) -> (result: Vec<usize>)
    requires
        topology.of_cells(cells@),
    ensures
        result@ == around(cells@, key),
        forall|i: int| 0 <= i < result.len() ==> #[trigger] result@[i] < cells@.len(),
{
    let count: usize = topology.corners.len();
    let mut list: Vec<usize> = Vec::new();
    proof {
        places_are_exact(topology.corners@, key);
    }
    match topology.vertices.groups.get(&key) {
        Some(places) => {
            let mut i: usize = 0;
            while i < places.len()
                invariant
                    i <= places.len(),
                    count == corner_list(cells@).len(),
                    places@ == places_of(corner_list(cells@), key),
                    forall|k: int|
                        0 <= k < places@.len() ==> #[trigger] places@[k] < corner_list(cells@).len(),
                    list.len() == i,
                    forall|k: int| 0 <= k < i ==> #[trigger] list@[k] == places@[k] / 4,
                    forall|k: int| 0 <= k < i ==> #[trigger] list@[k] < cells@.len(),
                decreases places.len() - i,
            {
                list.push(places[i] / 4);
                i = i + 1;
            }
        },
        None => {},
    }
    assert(list@ =~= around(cells@, key));
    list
}

/// The three points of a face.
pub open spec fn in_face(face: FaceKey, key: PointKey) -> bool {
    key == face.0 || key == face.1.0 || key == face.1.1
}

/// The first point of a cell that is not on the face.
pub open spec fn apex(points: Seq<PointKey>, face: FaceKey, from: int) -> Option<PointKey>
    decreases 4 - from,
{
    if from >= 4 {
        None
    } else if !in_face(face, points[from]) {
        Some(points[from])
    } else {
        apex(points, face, from + 1)
    }
}

fn find_apex(points: &[PointKey; 4], face: &FaceKey) -> (result: Option<PointKey>)
    ensures
        result == apex(points@, *face, 0),
        result matches Some(key) ==> exists|i: int| 0 <= i < 4 && points@[i] == key,
{
    let mut i: usize = 0;
    while i < 4
        invariant
            i <= 4,
            apex(points@, *face, 0) == apex(points@, *face, i as int),
        decreases 4 - i,
    {
        let key = points[i];
        if !same_key(&key, &face.0) && !same_key(&key, &face.1.0) && !same_key(&key, &face.1.1) {
            assert(points@[i as int] == key);
            return Some(key);
        }
        i = i + 1;
    }
    None
}

/// Two cells that share a face, and the three that may replace them: around
/// the edge between the points off the face.
#[derive(Debug, Clone, Copy)]
pub struct Flip {
    pub cell: usize,
    pub other: usize,
    pub tets: [[PointKey; 4]; 3],
}

/// The cell on the other side of a face, where exactly two cells share it.
pub open spec fn across(cells: Seq<Cell>, cell: usize, face: int) -> Option<usize> {
    let places = places_of(face_keys(tets_of(cells)), tet_face_key(cells[cell as int].points@, face));
    if places.len() != 2 {
        None
    } else if places[0] / 4 == cell {
        Some((places[1] / 4) as usize)
    } else if places[1] / 4 == cell {
        Some((places[0] / 4) as usize)
    } else {
        None
    }
}

/// The three cells around the edge from `d` to `e`.
pub open spec fn around_edge(d: PointKey, e: PointKey, face: FaceKey) -> Seq<Seq<PointKey>> {
    let (a, (b, c)) = face;
    seq![seq![d, e, a, b], seq![d, e, b, c], seq![d, e, c, a]]
}

/// The flip is the one across that face: the cells share it and come from one
/// leaf, and the new edge is not there yet.
pub open spec fn flips(cells: Seq<Cell>, cell: usize, face: int, flip: Option<Flip>) -> bool {
    let shared = tet_face_key(cells[cell as int].points@, face);
    match across(cells, cell, face) {
        None => flip is None,
        Some(other) => {
            let d = apex(cells[cell as int].points@, shared, 0);
            let e = apex(cells[other as int].points@, shared, 0);
            if cells[other as int].leaf != cells[cell as int].leaf || d is None || e is None || d
                == e || cell_edge(cells, sorted_pair(d.unwrap(), e.unwrap())) {
                flip is None
            } else {
                flip matches Some(found) && found.cell == cell && found.other == other && forall|t:
                    int|
                    0 <= t < 3 ==> (#[trigger] found.tets[t])@ == around_edge(
                        d.unwrap(),
                        e.unwrap(),
                        shared,
                    )[t]
            }
        },
    }
}

fn other_cell(topology: &RepairTopology, cells: &Vec<Cell>, cell: usize, face: usize) -> (result: Option<
    usize,
>)
    requires
        topology.of_cells(cells@),
        cell < cells@.len(),
        face < 4,
    ensures
        result == across(cells@, cell, face as int),
        result matches Some(other) ==> other < cells@.len(),
{
    let count: usize = topology.sides.len();
    let key = face_of_cell(cells, cell, face);
    proof {
        places_are_exact(topology.sides@, key);
    }
    match topology.faces.groups.get(&key) {
        Some(places) => {
            if places.len() != 2 {
                return None;
            }
            let first: usize = places[0] / 4;
            let second: usize = places[1] / 4;
            if first == cell {
                Some(second)
            } else if second == cell {
                Some(first)
            } else {
                None
            }
        },
        None => None,
    }
}

fn face_of_cell(cells: &Vec<Cell>, cell: usize, face: usize) -> (result: FaceKey)
    requires
        cell < cells@.len(),
        face < 4,
    ensures
        result == tet_face_key(cells@[cell as int].points@, face as int),
{
    let faces = tet_faces();
    let corners = faces[face];
    let points = cells[cell].points;
    proof {
        assert(corners@ == tet_face(face as int));
        assert(faces[face as int][0] < 4);
        assert(faces[face as int][1] < 4);
        assert(faces[face as int][2] < 4);
    }
    sorted3(points[corners[0]], points[corners[1]], points[corners[2]])
}

/// The flip across a face of a cell, where there is one.
pub fn plan_flip(topology: &RepairTopology, cells: &Vec<Cell>, cell: usize, face: usize) -> (result:
    Option<Flip>)
    requires
        topology.of_cells(cells@),
        cell < cells@.len(),
        face < 4,
    ensures
        flips(cells@, cell, face as int, result),
        result matches Some(flip) ==> flip.cell == cell && flip.other < cells@.len(),
{
    let shared = face_of_cell(cells, cell, face);
    let other = match other_cell(topology, cells, cell, face) {
        Some(other) => other,
        None => {
            return None;
        },
    };
    if !same_key(&cells[other].leaf, &cells[cell].leaf) {
        return None;
    }
    let d = match find_apex(&cells[cell].points, &shared) {
        Some(d) => d,
        None => {
            return None;
        },
    };
    let e = match find_apex(&cells[other].points, &shared) {
        Some(e) => e,
        None => {
            return None;
        },
    };
    if same_key(&d, &e) || topology.edges.contains(&sort_pair(d, e)) {
        return None;
    }
    let (a, (b, c)) = shared;
    let first = [d, e, a, b];
    let second = [d, e, b, c];
    let third = [d, e, c, a];
    proof {
        let list = around_edge(d, e, shared);
        assert(first@ =~= list[0]);
        assert(second@ =~= list[1]);
        assert(third@ =~= list[2]);
    }
    Some(Flip { cell, other, tets: [first, second, third] })
}

/// The cell with other points; it is no longer known to lie inside.
pub open spec fn recut(cell: Cell, points: [PointKey; 4]) -> Cell {
    Cell { points, leaf: cell.leaf, certified_interior: false }
}

/// The cells after a flip.
pub open spec fn flipped(cells: Seq<Cell>, flip: Flip, tets: Seq<[PointKey; 4]>) -> Seq<Cell> {
    let first = recut(cells[flip.cell as int], tets[0]);
    let second = recut(cells[flip.other as int], tets[1]);
    let third = recut(cells[flip.cell as int], tets[2]);
    cells.update(flip.cell as int, first).update(flip.other as int, second).push(third)
}

/// Flips two cells into three, where the three are valid and better; else
/// nothing changes.
pub fn apply_flip(
    candidate: &mut Candidate,
    flip: &Flip,
    inverted: &[bool; 3],
    valid: bool,
    before: &Objective,
    after: &Objective,
) -> (result: bool)
    requires
        old(candidate).wf(),
        flip.cell < old(candidate).cells@.len(),
        flip.other < old(candidate).cells@.len(),
        flip.cell != flip.other,
        forall|t: int| 0 <= t < 3 ==> tet_known((#[trigger] flip.tets[t])@, old(candidate).points@),
    ensures
        final(candidate).wf(),
        final(candidate).points == old(candidate).points,
        final(candidate).construction_failures == old(candidate).construction_failures,
        final(candidate).next_steiner == old(candidate).next_steiner,
        result == (valid && better(*before, *after)),
        !result ==> final(candidate).cells == old(candidate).cells,
        result ==> exists|tets: Seq<[PointKey; 4]>|
            tets.len() == 3 && (forall|t: int|
                0 <= t < 3 ==> (#[trigger] tets[t])@ == righted(flip.tets[t]@, inverted[t]))
                && final(candidate).cells@ == #[trigger] flipped(old(candidate).cells@, *flip, tets),
{
    if !valid || !improves(before, after) {
        return false;
    }
    let first = orient_tet(flip.tets[0], inverted[0]);
    let second = orient_tet(flip.tets[1], inverted[1]);
    let third = orient_tet(flip.tets[2], inverted[2]);
    let ghost tets = seq![first, second, third];
    let ghost start = candidate.cells@;
    proof {
        assert(tet_known(flip.tets[0]@, candidate.points@));
        assert(tet_known(flip.tets[1]@, candidate.points@));
        assert(tet_known(flip.tets[2]@, candidate.points@));
        righted_stays_known(flip.tets[0]@, inverted[0], candidate.points@);
        righted_stays_known(flip.tets[1]@, inverted[1], candidate.points@);
        righted_stays_known(flip.tets[2]@, inverted[2], candidate.points@);
    }
    let leaf = candidate.cells[flip.cell].leaf;
    let beyond = candidate.cells[flip.other].leaf;
    candidate.cells.set(flip.cell, Cell { points: first, leaf, certified_interior: false });
    candidate.cells.set(
        flip.other,
        Cell { points: second, leaf: beyond, certified_interior: false },
    );
    candidate.cells.push(Cell { points: third, leaf, certified_interior: false });
    assert(candidate.cells@ =~= flipped(start, *flip, tets));
    true
}

proof fn righted_stays_known(tet: Seq<PointKey>, inverted: bool, points: Map<PointKey, Point>)
    requires
        tet.len() == 4,
        tet_known(tet, points),
    ensures
        tet_known(righted(tet, inverted), points),
{
    assert(points.dom().contains(tet[2]));
    assert(points.dom().contains(tet[3]));
}

/// A flip keeps the points known: those of its cells are.
pub proof fn flip_uses_known_points(candidate: Candidate, cell: usize, face: int, flip: Flip)
    requires
        candidate.wf(),
        cell < candidate.cells@.len(),
        0 <= face < 4,
        candidate.cells@.len() * 4 <= usize::MAX,
        flips(candidate.cells@, cell, face, Some(flip)),
    ensures
        flip.cell == cell,
        flip.other < candidate.cells@.len(),
        flip.cell != flip.other,
        forall|t: int| 0 <= t < 3 ==> tet_known((#[trigger] flip.tets[t])@, candidate.points@),
{
    let cells = candidate.cells@;
    let points = cells[cell as int].points@;
    let shared = tet_face_key(points, face);
    let keys = face_keys(tets_of(cells));
    places_are_exact(keys, shared);
    let places = places_of(keys, shared);
    let other = flip.other;
    let far = cells[other as int].points@;
    assert(other < cells.len());
    apex_is_corner(points, shared, 0);
    apex_is_corner(far, shared, 0);
    if other == cell {
        assert(apex(points, shared, 0) == apex(far, shared, 0));
    }
    let corner = tet_face(face);
    assert(tet_known(cells[cell as int].points@, candidate.points@));
    assert(tet_known(cells[other as int].points@, candidate.points@));
    assert(candidate.points@.dom().contains(points[corner[0] as int]));
    assert(candidate.points@.dom().contains(points[corner[1] as int]));
    assert(candidate.points@.dom().contains(points[corner[2] as int]));
    let d = apex(points, shared, 0).unwrap();
    let e = apex(far, shared, 0).unwrap();
    assert forall|t: int| 0 <= t < 3 implies tet_known(
        (#[trigger] flip.tets[t])@,
        candidate.points@,
    ) by {
        assert(flip.tets[t]@ == around_edge(d, e, shared)[t]);
        assert(candidate.points@.dom().contains(d));
        assert(candidate.points@.dom().contains(e));
    }
}

proof fn apex_is_corner(points: Seq<PointKey>, face: FaceKey, from: int)
    requires
        0 <= from,
    ensures
        apex(points, face, from) matches Some(key) ==> exists|i: int|
            from <= i < 4 && #[trigger] points[i] == key,
    decreases 4 - from,
{
    if from < 4 && in_face(face, points[from]) {
        apex_is_corner(points, face, from + 1);
    }
}

/// The points that share a cell with a point; for a boundary point, those on
/// the boundary.
pub open spec fn smoothing_neighbors(
    cells: Seq<Cell>,
    points: Map<PointKey, Point>,
    incident: Seq<usize>,
    key: PointKey,
) -> Set<PointKey> {
    Set::new(
        |other: PointKey|
            other != key && (!points[key].boundary || points[other].boundary) && exists|i: int|
                0 <= i < incident.len() && (#[trigger] cells[incident[i] as int]).points@.contains(
                    other,
                ),
    )
}

/// Adds the points of one cell that a point can be smoothed towards.
fn note_neighbors(candidate: &Candidate, cell: usize, key: PointKey, boundary: bool, set: &mut SortedSet<PointKey>)
    requires
        candidate.wf(),
        cell < candidate.cells@.len(),
        old(set).wf(),
    ensures
        final(set).wf(),
        forall|other: PointKey| #[trigger]
            final(set)@.contains(other) <==> old(set)@.contains(other) || (other != key && (
            !boundary || candidate.points@[other].boundary)
                && candidate.cells@[cell as int].points@.contains(other)),
{
    let points = candidate.cells[cell].points;
    let mut i: usize = 0;
    let ghost start = set@;
    while i < 4
        invariant
            i <= 4,
            candidate.wf(),
            cell < candidate.cells@.len(),
            points == candidate.cells@[cell as int].points,
            set.wf(),
            forall|other: PointKey| #[trigger]
                set@.contains(other) <==> start.contains(other) || (other != key && (!boundary
                    || candidate.points@[other].boundary) && points@.take(i as int).contains(
                    other,
                )),
        decreases 4 - i,
    {
        let other = points[i];
        let ghost before = set@;
        assert(tet_known(candidate.cells@[cell as int].points@, candidate.points@));
        assert(candidate.points@.dom().contains(points@[i as int]));
        let on = candidate.points.get(&other).unwrap().boundary;
        if !same_key(&other, &key) && (!boundary || on) {
            set.insert(other);
        }
        proof {
            let short = points@.take(i as int);
            let long = points@.take(i as int + 1);
            assert(long =~= short.push(other));
            assert forall|k: PointKey| #[trigger]
                set@.contains(k) <==> start.contains(k) || (k != key && (!boundary
                    || candidate.points@[k].boundary) && long.contains(k)) by {
                assert(before.contains(k) <==> start.contains(k) || (k != key && (!boundary
                    || candidate.points@[k].boundary) && short.contains(k)));
                assert(long[i as int] == other);
                if short.contains(k) {
                    assert(long[short.index_of(k)] == k);
                }
                if long.contains(k) && k != other {
                    assert(short[long.index_of(k)] == k);
                }
            }
        }
        i = i + 1;
    }
    assert(points@.take(4) =~= points@);
}

/// The points that a point is smoothed towards; `None` where it has too few:
/// a boundary point needs two, any other four.
pub fn smoothing_targets(candidate: &Candidate, incident: &Vec<usize>, key: PointKey) -> (result: Option<
    SortedSet<PointKey>,
>)
    requires
        candidate.wf(),
        candidate.points@.dom().contains(key),
        forall|i: int| 0 <= i < incident@.len() ==> #[trigger] incident@[i] < candidate.cells@.len(),
    ensures
        ({
            let found = smoothing_neighbors(
                candidate.cells@,
                candidate.points@,
                incident@,
                key,
            );
            let least: int = if candidate.points@[key].boundary {
                2
            } else {
                4
            };
            match result {
                Some(set) => set.wf() && set@ == found && found.len() >= least,
                None => found.len() < least,
            }
        }),
{
    let boundary = candidate.points.get(&key).unwrap().boundary;
    let mut set: SortedSet<PointKey> = SortedSet::new();
    let mut i: usize = 0;
    while i < incident.len()
        invariant
            i <= incident.len(),
            candidate.wf(),
            boundary == candidate.points@[key].boundary,
            forall|k: int|
                0 <= k < incident@.len() ==> #[trigger] incident@[k] < candidate.cells@.len(),
            set.wf(),
            set@ == smoothing_neighbors(
                candidate.cells@,
                candidate.points@,
                incident@.take(i as int),
                key,
            ),
        decreases incident.len() - i,
    {
        let cell: usize = incident[i];
        let ghost before = set@;
        note_neighbors(candidate, cell, key, boundary, &mut set);
        proof {
            let cells = candidate.cells@;
            let short = incident@.take(i as int);
            let long = incident@.take(i as int + 1);
            assert(long =~= short.push(cell));
            let wanted = smoothing_neighbors(cells, candidate.points@, long, key);
            assert forall|k: PointKey| #[trigger] set@.contains(k) <==> wanted.contains(k) by {
                if before.contains(k) {
                    let p = choose|p: int|
                        0 <= p < short.len() && (
                        #[trigger] cells[short[p] as int]).points@.contains(k);
                    assert(cells[long[p] as int].points@.contains(k));
                }
                assert(long[i as int] == cell);
                if wanted.contains(k) {
                    let p = choose|p: int|
                        0 <= p < long.len() && (#[trigger] cells[long[p] as int]).points@.contains(
                            k,
                        );
                    if p < i {
                        assert(cells[short[p] as int].points@.contains(k));
                    }
                }
            }
            assert(set@ =~= wanted);
        }
        i = i + 1;
    }
    proof {
        assert(incident@.take(i as int) =~= incident@);
        increasing_has_no_duplicates(set.items@);
        set.items@.unique_seq_to_set();
        assert(set@ =~= set.items@.to_set());
    }
    let least: usize = if boundary {
        2
    } else {
        4
    };
    if set.items.len() < least {
        None
    } else {
        Some(set)
    }
}

/// What was measured with a point moved.
#[derive(Debug, Clone, Copy)]
pub struct SmoothTrial {
    pub world: Vector3,
    /// The cells around the point stay valid.
    pub valid: bool,
    pub objective: Objective,
}

/// The best of the first trials: each one taken is valid, improves on the
/// start and on the one held before.
pub open spec fn best_trial(before: Objective, trials: Seq<SmoothTrial>, count: int) -> Option<int>
    decreases count,
{
    if count <= 0 {
        None
    } else {
        let held = best_trial(before, trials, count - 1);
        let trial = trials[count - 1];
        if trial.valid && better(before, trial.objective) && (held matches Some(place) ==> better(
            trials[place].objective,
            trial.objective,
        )) {
            Some(count - 1)
        } else {
            held
        }
    }
}

/// The place of the best trial, where one improves.
pub fn choose_trial(before: &Objective, trials: &Vec<SmoothTrial>) -> (result: Option<usize>)
    ensures
        match best_trial(*before, trials@, trials@.len() as int) {
            Some(place) => result == Some(place as usize) && 0 <= place < trials@.len(),
            None => result is None,
        },
{
    let mut held: Option<usize> = None;
    let mut i: usize = 0;
    while i < trials.len()
        invariant
            i <= trials.len(),
            match best_trial(*before, trials@, i as int) {
                Some(place) => held == Some(place as usize) && 0 <= place < i,
                None => held is None,
            },
        decreases trials.len() - i,
    {
        let trial = &trials[i];
        if trial.valid && improves(before, &trial.objective) {
            let take = match held {
                Some(place) => improves(&trials[place].objective, &trial.objective),
                None => true,
            };
            if take {
                held = Some(i);
            }
        }
        i = i + 1;
    }
    held
}

/// Moves a point.
pub fn apply_smoothing(candidate: &mut Candidate, key: PointKey, world: Vector3)
    requires
        old(candidate).wf(),
        old(candidate).points@.dom().contains(key),
    ensures
        final(candidate).wf(),
        final(candidate).cells == old(candidate).cells,
        final(candidate).construction_failures == old(candidate).construction_failures,
        final(candidate).next_steiner == old(candidate).next_steiner,
        final(candidate).points@ == old(candidate).points@.insert(
            key,
            (Point { world, boundary: old(candidate).points@[key].boundary }),
        ),
{
    let boundary = candidate.points.get(&key).unwrap().boundary;
    let ghost held = candidate.points@;
    candidate.points.insert(key, Point { world, boundary });
    proof {
        assert forall|c: int| 0 <= c < candidate.cells@.len() implies tet_known(
            (#[trigger] candidate.cells@[c]).points@,
            candidate.points@,
        ) by {
            assert(tet_known(candidate.cells@[c].points@, held));
        }
    }
}

/// The cell between a point inside a cell and one of its faces.
pub open spec fn cone(points: Seq<PointKey>, key: PointKey, face: int) -> Seq<PointKey> {
    let corner = tet_face(face);
    seq![key, points[corner[0] as int], points[corner[1] as int], points[corner[2] as int]]
}

/// The cells between a point inside a cell and its four faces, before they
/// are turned the right way.
pub fn cones(cell: &Cell, key: PointKey) -> (result: [[PointKey; 4]; 4])
    ensures
        forall|f: int| 0 <= f < 4 ==> (#[trigger] result[f])@ == cone(cell.points@, key, f),
{
    let p = cell.points;
    let first = [key, p[0], p[2], p[1]];
    let second = [key, p[0], p[1], p[3]];
    let third = [key, p[1], p[2], p[3]];
    let fourth = [key, p[2], p[0], p[3]];
    assert(first@ =~= cone(p@, key, 0));
    assert(second@ =~= cone(p@, key, 1));
    assert(third@ =~= cone(p@, key, 2));
    assert(fourth@ =~= cone(p@, key, 3));
    [first, second, third, fourth]
}

/// The cells with one of them replaced by four.
pub open spec fn starred(cells: Seq<Cell>, cell: usize, tets: Seq<[PointKey; 4]>) -> Seq<Cell> {
    let old_cell = cells[cell as int];
    cells.update(cell as int, recut(old_cell, tets[0])).push(recut(old_cell, tets[1])).push(
        recut(old_cell, tets[2]),
    ).push(recut(old_cell, tets[3]))
}

/// Replaces a cell by four around a new point, where the four are valid and
/// better. A refused point uses up its name all the same.
pub fn apply_steiner(
    candidate: &mut Candidate,
    cell: usize,
    center: Vector3,
    inverted: &[bool; 4],
    valid: bool,
    before: &Objective,
    after: &Objective,
) -> (result: bool)
    requires
        old(candidate).wf(),
        old(candidate).fresh(),
        cell < old(candidate).cells@.len(),
    ensures
        final(candidate).wf(),
        final(candidate).next_steiner == old(candidate).next_steiner + 1,
        final(candidate).construction_failures == old(candidate).construction_failures,
        result == (valid && better(*before, *after)),
        !result ==> final(candidate).cells == old(candidate).cells && final(candidate).points
            == old(candidate).points,
        result ==> final(candidate).points@ == old(candidate).points@.insert(
            PointKey::Steiner(old(candidate).next_steiner),
            (Point { world: center, boundary: false }),
        ) && exists|tets: Seq<[PointKey; 4]>|
            tets.len() == 4 && (forall|f: int|
                0 <= f < 4 ==> (#[trigger] tets[f])@ == righted(
                    cone(
                        old(candidate).cells@[cell as int].points@,
                        PointKey::Steiner(old(candidate).next_steiner),
                        f,
                    ),
                    inverted[f],
                )) && final(candidate).cells@ == #[trigger] starred(
                old(candidate).cells@,
                cell,
                tets,
            ),
{
    let key = PointKey::Steiner(candidate.next_steiner);
    candidate.next_steiner = candidate.next_steiner + 1;
    if !valid || !improves(before, after) {
        return false;
    }
    let held_cell = candidate.cells[cell];
    let raw = cones(&held_cell, key);
    let first = orient_tet(raw[0], inverted[0]);
    let second = orient_tet(raw[1], inverted[1]);
    let third = orient_tet(raw[2], inverted[2]);
    let fourth = orient_tet(raw[3], inverted[3]);
    let ghost tets = seq![first, second, third, fourth];
    let ghost held = candidate.points@;
    let ghost start = candidate.cells@;
    candidate.points.insert(key, Point { world: center, boundary: false });
    let ghost points = candidate.points@;
    proof {
        assert forall|c: int| 0 <= c < start.len() implies tet_known(
            (#[trigger] start[c]).points@,
            points,
        ) by {
            assert(tet_known(start[c].points@, held));
        }
        assert(tet_known(start[cell as int].points@, points));
        let p = held_cell.points@;
        assert(points.dom().contains(p[0]) && points.dom().contains(p[1]) && points.dom().contains(
            p[2],
        ) && points.dom().contains(p[3]));
        assert forall|f: int| 0 <= f < 4 implies tet_known((#[trigger] raw[f])@, points) by {
            assert(raw[f]@ == cone(p, key, f));
        }
        assert(raw[0]@ == cone(p, key, 0));
        assert(raw[1]@ == cone(p, key, 1));
        assert(raw[2]@ == cone(p, key, 2));
        assert(raw[3]@ == cone(p, key, 3));
        righted_stays_known(raw[0]@, inverted[0], points);
        righted_stays_known(raw[1]@, inverted[1], points);
        righted_stays_known(raw[2]@, inverted[2], points);
        righted_stays_known(raw[3]@, inverted[3], points);
    }
    let leaf = held_cell.leaf;
    candidate.cells.set(cell, Cell { points: first, leaf, certified_interior: false });
    candidate.cells.push(Cell { points: second, leaf, certified_interior: false });
    candidate.cells.push(Cell { points: third, leaf, certified_interior: false });
    candidate.cells.push(Cell { points: fourth, leaf, certified_interior: false });
    assert(candidate.cells@ =~= starred(start, cell, tets));
    true
}

/// Takes the worst cell out.
pub fn pop_worst(poor: &mut SortedSet<PoorCell>) -> (result: Option<PoorCell>)
    requires
        old(poor).wf(),
    ensures
        final(poor).wf(),
        match result {
            Some(cell) => old(poor)@.contains(cell) && final(poor)@ == old(poor)@.remove(cell)
                && forall|other: PoorCell| #[trigger]
                final(poor)@.contains(other) ==> cell.before(other),
            None => old(poor)@ == Set::<PoorCell>::empty() && final(poor)@ == old(poor)@,
        },
{
    if poor.items.len() == 0 {
        assert(poor@ =~= Set::<PoorCell>::empty());
        return None;
    }
    let first = poor.items[0];
    let ghost before = poor.items@;
    proof {
        assert(before.contains(first));
    }
    poor.remove(&first);
    proof {
        assert forall|other: PoorCell| #[trigger] poor@.contains(other) implies first.before(
            other,
        ) by {
            let i = before.index_of(other);
            assert(before.contains(other));
            assert(before[i] == other);
            assert(before[0].before(before[i]));
        }
    }
    Some(first)
}

/// The cell has a point in common with the other.
pub open spec fn shares_point(cells: Seq<Cell>, cell: usize, other: usize) -> bool {
    exists|i: int|
        0 <= i < 4 && (#[trigger] around(cells, cells[cell as int].points@[i])).contains(other)
}

/// The cells that share a point with a cell.
pub fn neighborhood(topology: &RepairTopology, cells: &Vec<Cell>, cell: usize) -> (result: SortedSet<usize>)
    requires
        topology.of_cells(cells@),
        cell < cells@.len(),
    ensures
        result.wf(),
        forall|other: usize| #[trigger]
            result@.contains(other) <==> shares_point(cells@, cell, other),
{
    let points = cells[cell].points;
    let mut set: SortedSet<usize> = SortedSet::new();
    let mut i: usize = 0;
    while i < 4
        invariant
            i <= 4,
            topology.of_cells(cells@),
            points == cells@[cell as int].points,
            set.wf(),
            forall|other: usize| #[trigger]
                set@.contains(other) <==> exists|k: int|
                    0 <= k < i && (#[trigger] around(cells@, points@[k])).contains(other),
        decreases 4 - i,
    {
        let list = cells_around(topology, points[i], cells);
        let ghost before = set@;
        let mut j: usize = 0;
        while j < list.len()
            invariant
                j <= list.len(),
                set.wf(),
                forall|other: usize| #[trigger]
                    set@.contains(other) <==> before.contains(other) || list@.take(
                        j as int,
                    ).contains(other),
            decreases list.len() - j,
        {
            let ghost held = set@;
            set.insert(list[j]);
            proof {
                let short = list@.take(j as int);
                let long = list@.take(j as int + 1);
                assert(long =~= short.push(list@[j as int]));
                assert forall|k: usize| #[trigger]
                    set@.contains(k) <==> before.contains(k) || long.contains(k) by {
                    assert(held.contains(k) <==> before.contains(k) || short.contains(k));
                    assert(long[j as int] == list@[j as int]);
                    if short.contains(k) {
                        assert(long[short.index_of(k)] == k);
                    }
                    if long.contains(k) && k != list@[j as int] {
                        assert(short[long.index_of(k)] == k);
                    }
                }
            }
            j = j + 1;
        }
        proof {
            assert(list@.take(j as int) =~= list@);
            assert forall|other: usize| #[trigger]
                set@.contains(other) <==> exists|k: int|
                    0 <= k < i + 1 && (#[trigger] around(cells@, points@[k])).contains(other) by {
                assert(before.contains(other) <==> exists|k: int|
                    0 <= k < i && (#[trigger] around(cells@, points@[k])).contains(other));
                if before.contains(other) {
                    let k = choose|k: int|
                        0 <= k < i && (#[trigger] around(cells@, points@[k])).contains(other);
                    assert(around(cells@, points@[k]).contains(other));
                }
                if list@.contains(other) {
                    assert(around(cells@, points@[i as int]).contains(other));
                }
                if exists|k: int|
                    0 <= k < i + 1 && (#[trigger] around(cells@, points@[k])).contains(other) {
                    let k = choose|k: int|
                        0 <= k < i + 1 && (#[trigger] around(cells@, points@[k])).contains(other);
                    if k < i {
                        assert(before.contains(other));
                    }
                }
            }
        }
        i = i + 1;
    }
    set
}

/// Whether none of the cells was touched before.
pub fn untouched(cells: &SortedSet<usize>, touched: &SortedSet<usize>) -> (result: bool)
    requires
        cells.wf(),
        touched.wf(),
    ensures
        result == cells@.disjoint(touched@),
{
    let mut i: usize = 0;
    while i < cells.items.len()
        invariant
            i <= cells.items.len(),
            touched.wf(),
            forall|k: int| 0 <= k < i ==> !touched@.contains(#[trigger] cells.items@[k]),
        decreases cells.items.len() - i,
    {
        if touched.contains(&cells.items[i]) {
            assert(cells.items@.contains(cells.items@[i as int]));
            assert(cells@.contains(cells.items@[i as int]));
            return false;
        }
        i = i + 1;
    }
    proof {
        assert forall|k: usize| !(cells@.contains(k) && touched@.contains(k)) by {
            if cells@.contains(k) {
                let p = cells.items@.index_of(k);
                assert(cells.items@.contains(k));
                assert(cells.items@[p] == k);
            }
        }
        assert(cells@.disjoint(touched@));
    }
    true
}

/// What a repair does next.
#[derive(Debug, Clone, Copy, PartialEq, Eq, Structural)]
pub enum RepairStep {
    /// Move the points of the poor cells.
    Smooth,
    /// Replace the poor cells.
    Replace,
    Done,
}

/// After a round of smoothing: done where no cell is poor or some leaf must
/// be refined anyway; smooth again while that helps; else replace cells.
pub fn after_smoothing(
    smoothed: usize,
    poor_before: usize,
    poor_after: usize,
    bar: Real,
    worst_after: Real,
    nothing_to_refine: bool,
) -> (result: RepairStep)
    ensures
        result == (if poor_after == 0 || !nothing_to_refine {
            RepairStep::Done
        } else if smoothed > 0 && (poor_after < poor_before || bar.lt(worst_after)) {
            RepairStep::Smooth
        } else {
            RepairStep::Replace
        }),
{
    if poor_after == 0 || !nothing_to_refine {
        RepairStep::Done
    } else if smoothed > 0 && (poor_after < poor_before || bar.less(worst_after)) {
        RepairStep::Smooth
    } else {
        RepairStep::Replace
    }
}

/// After a round of replacing: smooth again where something was replaced and
/// cells are still poor.
pub fn after_replacing(replaced: usize, poor_after: usize, nothing_to_refine: bool) -> (result:
    RepairStep)
    ensures
        result == (if replaced == 0 || poor_after == 0 || !nothing_to_refine {
            RepairStep::Done
        } else {
            RepairStep::Smooth
        }),
{
    if replaced == 0 || poor_after == 0 || !nothing_to_refine {
        RepairStep::Done
    } else {
        RepairStep::Smooth
    }
}

/// The leaves of the poor cells.
pub open spec fn poor_leaves(cells: Seq<Cell>, poor: Set<PoorCell>) -> Set<Leaf> {
    Set::new(
        |leaf: Leaf|
            exists|entry: PoorCell| #[trigger]
                poor.contains(entry) && cells[entry.index as int].leaf == leaf,
    )
}

/// Adds the leaves of the poor cells to those to be refined.
pub fn request_poor(cells: &Vec<Cell>, poor: &SortedSet<PoorCell>, refine: &mut SortedSet<Leaf>)
    requires
        poor.wf(),
        old(refine).wf(),
        forall|entry: PoorCell| #[trigger] poor@.contains(entry) ==> entry.index < cells@.len(),
    ensures
        final(refine).wf(),
        final(refine)@ == old(refine)@.union(poor_leaves(cells@, poor@)),
{
    let ghost start = refine@;
    let mut i: usize = 0;
    while i < poor.items.len()
        invariant
            i <= poor.items.len(),
            poor.wf(),
            forall|entry: PoorCell| #[trigger] poor@.contains(entry) ==> entry.index < cells@.len(),
            refine.wf(),
            forall|leaf: Leaf| #[trigger]
                refine@.contains(leaf) <==> start.contains(leaf) || exists|k: int|
                    0 <= k < i && cells@[(#[trigger] poor.items@[k]).index as int].leaf == leaf,
        decreases poor.items.len() - i,
    {
        let entry = poor.items[i];
        assert(poor.items@.contains(entry));
        assert(poor@.contains(entry));
        let ghost before = refine@;
        let leaf = cells[entry.index].leaf;
        refine.insert(leaf);
        proof {
            assert forall|l: Leaf| #[trigger]
                refine@.contains(l) <==> start.contains(l) || exists|k: int|
                    0 <= k < i + 1 && cells@[(#[trigger] poor.items@[k]).index as int].leaf == l by {
                assert(before.contains(l) <==> start.contains(l) || exists|k: int|
                    0 <= k < i && cells@[(#[trigger] poor.items@[k]).index as int].leaf == l);
                if before.contains(l) && !start.contains(l) {
                    let k = choose|k: int|
                        0 <= k < i && cells@[(#[trigger] poor.items@[k]).index as int].leaf == l;
                    assert(cells@[poor.items@[k].index as int].leaf == l);
                }
                assert(cells@[poor.items@[i as int].index as int].leaf == leaf);
            }
        }
        i = i + 1;
    }
    proof {
        let wanted = start.union(poor_leaves(cells@, poor@));
        assert forall|l: Leaf| #[trigger] refine@.contains(l) <==> wanted.contains(l) by {
            if poor_leaves(cells@, poor@).contains(l) {
                let entry = choose|entry: PoorCell| #[trigger]
                    poor@.contains(entry) && cells@[entry.index as int].leaf == l;
                let k = poor.items@.index_of(entry);
                assert(poor.items@.contains(entry));
                assert(cells@[poor.items@[k].index as int].leaf == l);
            }
            if refine@.contains(l) && !start.contains(l) {
                let k = choose|k: int|
                    0 <= k < poor.items@.len() && cells@[(
                    #[trigger] poor.items@[k]).index as int].leaf == l;
                assert(poor.items@.contains(poor.items@[k]));
                assert(poor@.contains(poor.items@[k]));
            }
        }
        assert(refine@ =~= wanted);
    }
}

/// What happens to a mesh that was judged and repaired.
pub enum Verdict {
    Accept,
    /// Refine these leaves.
    Refine(SortedSet<Leaf>),
    /// A leaf to be refined is as small as the grid allows.
    Stuck,
}

/// The leaves to be refined, or those of the poor cells where there are none.
pub open spec fn wanted_leaves(cells: Seq<Cell>, refine: Set<Leaf>, poor: Set<PoorCell>) -> Set<Leaf> {
    if refine == Set::<Leaf>::empty() {
        poor_leaves(cells, poor)
    } else {
        refine
    }
}

/// Every leaf is larger than the smallest of the grid.
pub open spec fn all_divide(grid: Grid, leaves: Set<Leaf>) -> bool {
    forall|leaf: Leaf| #[trigger] leaves.contains(leaf) ==> leaf.level < grid.max_depth
}

/// Accepts a mesh with nothing to refine and no poor cell; else asks for the
/// leaves to be refined, or for those of the poor cells where there are none.
pub fn decide(grid: Grid, cells: &Vec<Cell>, refine: &SortedSet<Leaf>, poor: &SortedSet<PoorCell>) -> (result:
    Verdict)
    requires
        poor.wf(),
        refine.wf(),
        forall|entry: PoorCell| #[trigger] poor@.contains(entry) ==> entry.index < cells@.len(),
    ensures
        ({
            let wanted = wanted_leaves(cells@, refine@, poor@);
            match result {
                Verdict::Accept => refine@ == Set::<Leaf>::empty() && poor@ == Set::<
                    PoorCell,
                >::empty(),
                Verdict::Refine(set) => set.wf() && set@ == wanted && all_divide(grid, wanted)
                    && !(refine@ == Set::<Leaf>::empty() && poor@ == Set::<PoorCell>::empty()),
                Verdict::Stuck => !all_divide(grid, wanted),
            }
        }),
{
    let mut requested: SortedSet<Leaf> = SortedSet::new();
    proof {
        if refine.items@.len() == 0 {
            assert(refine@ =~= Set::<Leaf>::empty());
        } else {
            assert(refine@.contains(refine.items@[0]));
        }
        if poor.items@.len() == 0 {
            assert(poor@ =~= Set::<PoorCell>::empty());
        } else {
            assert(poor@.contains(poor.items@[0]));
        }
    }
    if refine.items.len() == 0 {
        if poor.items.len() == 0 {
            return Verdict::Accept;
        }
        request_poor(cells, poor, &mut requested);
        assert(requested@ =~= poor_leaves(cells@, poor@));
    } else {
        let mut i: usize = 0;
        while i < refine.items.len()
            invariant
                i <= refine.items.len(),
                requested.wf(),
                forall|leaf: Leaf| #[trigger]
                    requested@.contains(leaf) <==> refine.items@.take(i as int).contains(leaf),
            decreases refine.items.len() - i,
        {
            let leaf = refine.items[i];
            let ghost before = requested@;
            requested.insert(leaf);
            proof {
                let short = refine.items@.take(i as int);
                let long = refine.items@.take(i as int + 1);
                assert(long =~= short.push(leaf));
                assert forall|k: Leaf| #[trigger] requested@.contains(k) <==> long.contains(k) by {
                    assert(before.contains(k) <==> short.contains(k));
                    assert(long[i as int] == leaf);
                    if short.contains(k) {
                        assert(long[short.index_of(k)] == k);
                    }
                    if long.contains(k) && k != leaf {
                        assert(short[long.index_of(k)] == k);
                    }
                }
            }
            i = i + 1;
        }
        assert(refine.items@.take(i as int) =~= refine.items@);
        assert(requested@ =~= refine@);
    }
    let ghost wanted = wanted_leaves(cells@, refine@, poor@);
    let mut j: usize = 0;
    while j < requested.items.len()
        invariant
            j <= requested.items.len(),
            requested.wf(),
            requested@ == wanted,
            wanted == wanted_leaves(cells@, refine@, poor@),
            forall|k: int| 0 <= k < j ==> (#[trigger] requested.items@[k]).level < grid.max_depth,
        decreases requested.items.len() - j,
    {
        if requested.items[j].level >= grid.max_depth {
            assert(requested.items@.contains(requested.items@[j as int]));
            assert(requested@.contains(requested.items@[j as int]));
            return Verdict::Stuck;
        }
        j = j + 1;
    }
    proof {
        assert forall|leaf: Leaf| #[trigger] requested@.contains(leaf) implies leaf.level
            < grid.max_depth by {
            let k = requested.items@.index_of(leaf);
            assert(requested.items@.contains(leaf));
            assert(requested.items@[k] == leaf);
        }
    }
    Verdict::Refine(requested)
}

/// Two cells share a point exactly where one point is a corner of both.
pub proof fn sharing_is_mutual(cells: Seq<Cell>, cell: usize, other: usize)
    requires
        cell < cells.len(),
        other < cells.len(),
        4 * cells.len() <= usize::MAX,
    ensures
        shares_point(cells, cell, other) <==> exists|i: int, j: int|
            0 <= i < 4 && 0 <= j < 4 && #[trigger] cells[cell as int].points@[i]
                == #[trigger] cells[other as int].points@[j],
        shares_point(cells, cell, other) == shares_point(cells, other, cell),
{
    sharing_is_common_corner(cells, cell, other);
    sharing_is_common_corner(cells, other, cell);
    if shares_point(cells, cell, other) {
        let (i, j) = choose|i: int, j: int|
            0 <= i < 4 && 0 <= j < 4 && #[trigger] cells[cell as int].points@[i]
                == #[trigger] cells[other as int].points@[j];
        assert(cells[other as int].points@[j] == cells[cell as int].points@[i]);
    }
    if shares_point(cells, other, cell) {
        let (i, j) = choose|i: int, j: int|
            0 <= i < 4 && 0 <= j < 4 && #[trigger] cells[other as int].points@[i]
                == #[trigger] cells[cell as int].points@[j];
        assert(cells[cell as int].points@[j] == cells[other as int].points@[i]);
    }
}

proof fn sharing_is_common_corner(cells: Seq<Cell>, cell: usize, other: usize)
    requires
        cell < cells.len(),
        other < cells.len(),
        4 * cells.len() <= usize::MAX,
    ensures
        shares_point(cells, cell, other) <==> exists|i: int, j: int|
            0 <= i < 4 && 0 <= j < 4 && #[trigger] cells[cell as int].points@[i]
                == #[trigger] cells[other as int].points@[j],
{
    let list = corner_list(cells);
    if shares_point(cells, cell, other) {
        let i = choose|i: int|
            0 <= i < 4 && (#[trigger] around(cells, cells[cell as int].points@[i])).contains(other);
        let key = cells[cell as int].points@[i];
        places_are_exact(list, key);
        let places = places_of(list, key);
        let m = around(cells, key).index_of(other);
        assert(around(cells, key)[m] == other);
        let p = places[m] as int;
        assert(list[p] == key);
        assert(p / 4 == other);
        assert(cells[other as int].points@[p % 4] == key);
    }
    if exists|i: int, j: int|
        0 <= i < 4 && 0 <= j < 4 && #[trigger] cells[cell as int].points@[i]
            == #[trigger] cells[other as int].points@[j] {
        let (i, j) = choose|i: int, j: int|
            0 <= i < 4 && 0 <= j < 4 && #[trigger] cells[cell as int].points@[i]
                == #[trigger] cells[other as int].points@[j];
        let key = cells[cell as int].points@[i];
        places_are_exact(list, key);
        let places = places_of(list, key);
        let p = 4 * other + j;
        assert(p / 4 == other as int && p % 4 == j);
        assert(list[p] == key);
        assert(places.contains(p as usize));
        let m = places.index_of(p as usize);
        assert(around(cells, key)[m] == other);
        assert(around(cells, cells[cell as int].points@[i]).contains(other));
    }
}

} // verus!
