//! A tetrahedral mesh over a regular background grid, with numbered points.

use vstd::prelude::*;

use crate::marching::drop_repeats;
#[allow(unused_imports)]
use crate::marching::without_repeats;
use crate::number::Vector3;
use crate::sorted::{sort_keys, SortedMap, SortedSet};
#[allow(unused_imports)]
use crate::sorted::{ordered, ordered_sequence_is_unique, rearranged};

verus! {

/// On which side of the plane through three points the fourth lies.
#[derive(Debug, Clone, Copy, PartialEq, Eq, Structural)]
pub enum Sign {
    Positive,
    Negative,
    Zero,
}

/// A mesh whose points are known by their place in a list.
#[derive(Debug)]
pub struct VolumeMesh {
    pub points: Vec<Vector3>,
    pub boundary_points: SortedSet<usize>,
    pub cells: Vec<[usize; 4]>,
    pub prisms: Vec<[usize; 6]>,
    pub pyramids: Vec<[usize; 5]>,
    pub boundary_faces: Vec<[usize; 3]>,
    pub lattice_vertices: SortedMap<usize, usize>,
    pub crossings: SortedMap<(usize, usize), usize>,
}

/// What a mesh knows of its points.
#[verifier::ext_equal]
pub struct PointTable {
    pub points: Seq<Vector3>,
    pub boundary: Set<usize>,
    pub lattice: Map<usize, usize>,
    pub crossings: Map<(usize, usize), usize>,
}

/// Every number of the list is that of a point.
pub open spec fn all_below(list: Seq<usize>, count: int) -> bool {
    forall|i: int| 0 <= i < list.len() ==> #[trigger] list[i] < count
}

impl VolumeMesh {
    pub open spec fn table(self) -> PointTable {
        PointTable {
            points: self.points@,
            boundary: self.boundary_points@,
            lattice: self.lattice_vertices@,
            crossings: self.crossings@,
        }
    }

    pub open spec fn wf(self) -> bool {
        let count = self.points@.len() as int;
        &&& self.boundary_points.wf()
        &&& self.lattice_vertices.wf()
        &&& self.crossings.wf()
        &&& forall|key: usize| #[trigger]
            self.lattice_vertices@.dom().contains(key) ==> self.lattice_vertices@[key] < count
        &&& forall|key: (usize, usize)| #[trigger]
            self.crossings@.dom().contains(key) ==> self.crossings@[key] < count
        &&& forall|c: int|
            0 <= c < self.cells@.len() ==> all_below((#[trigger] self.cells@[c])@, count)
        &&& forall|c: int|
            0 <= c < self.prisms@.len() ==> all_below((#[trigger] self.prisms@[c])@, count)
        &&& forall|c: int|
            0 <= c < self.pyramids@.len() ==> all_below((#[trigger] self.pyramids@[c])@, count)
        &&& forall|c: int|
            0 <= c < self.boundary_faces@.len() ==> all_below(
                (#[trigger] self.boundary_faces@[c])@,
                count,
            )
    }

    /// The cells and faces of two meshes are the same.
    pub open spec fn same_cells(self, other: VolumeMesh) -> bool {
        self.cells == other.cells && self.prisms == other.prisms && self.pyramids == other.pyramids
            && self.boundary_faces == other.boundary_faces
    }

    pub fn new() -> (result: VolumeMesh)
        ensures
            result.wf(),
            result.points@.len() == 0,
            result.cells@.len() == 0,
            result.prisms@.len() == 0,
            result.pyramids@.len() == 0,
            result.boundary_faces@.len() == 0,
            result.boundary_points@ == Set::<usize>::empty(),
            result.lattice_vertices@ == Map::<usize, usize>::empty(),
            result.crossings@ == Map::<(usize, usize), usize>::empty(),
    {
        VolumeMesh {
            points: Vec::new(),
            boundary_points: SortedSet::new(),
            cells: Vec::new(),
            prisms: Vec::new(),
            pyramids: Vec::new(),
            boundary_faces: Vec::new(),
            lattice_vertices: SortedMap::new(),
            crossings: SortedMap::new(),
        }
    }
}

/// The number of a lattice point: a new one where it is met first.
pub open spec fn lattice_number(table: PointTable, lattice: usize) -> usize {
    if table.lattice.dom().contains(lattice) {
        table.lattice[lattice]
    } else {
        table.points.len() as usize
    }
}

pub open spec fn with_lattice(table: PointTable, lattice: usize, position: Vector3) -> PointTable {
    if table.lattice.dom().contains(lattice) {
        table
    } else {
        PointTable {
            points: table.points.push(position),
            lattice: table.lattice.insert(lattice, table.points.len() as usize),
            ..table
        }
    }
}

/// The edge between two numbers, the smaller one first.
pub open spec fn pair(a: usize, b: usize) -> (usize, usize) {
    if a < b {
        (a, b)
    } else {
        (b, a)
    }
}

pub fn ordered_pair(a: usize, b: usize) -> (result: (usize, usize))
    ensures
        result == pair(a, b),
{
    if a < b {
        (a, b)
    } else {
        (b, a)
    }
}

/// The number of a crossing: a new one where the edge is met first.
pub open spec fn crossing_number(table: PointTable, a: usize, b: usize) -> usize {
    if table.crossings.dom().contains(pair(a, b)) {
        table.crossings[pair(a, b)]
    } else {
        table.points.len() as usize
    }
}

pub open spec fn with_crossing(table: PointTable, a: usize, b: usize, position: Vector3) -> PointTable {
    if table.crossings.dom().contains(pair(a, b)) {
        table
    } else {
        let vertex = table.points.len() as usize;
        PointTable {
            points: table.points.push(position),
            boundary: table.boundary.insert(vertex),
            crossings: table.crossings.insert(pair(a, b), vertex),
            ..table
        }
    }
}

/// Adding a point keeps every number valid.
pub(crate) proof fn more_points(before: VolumeMesh, after: VolumeMesh)
    requires
        before.wf(),
        after.same_cells(before),
        after.points@.len() >= before.points@.len(),
    ensures
        forall|c: int|
            0 <= c < after.cells@.len() ==> all_below(
                (#[trigger] after.cells@[c])@,
                after.points@.len() as int,
            ),
        forall|c: int|
            0 <= c < after.prisms@.len() ==> all_below(
                (#[trigger] after.prisms@[c])@,
                after.points@.len() as int,
            ),
        forall|c: int|
            0 <= c < after.pyramids@.len() ==> all_below(
                (#[trigger] after.pyramids@[c])@,
                after.points@.len() as int,
            ),
        forall|c: int|
            0 <= c < after.boundary_faces@.len() ==> all_below(
                (#[trigger] after.boundary_faces@[c])@,
                after.points@.len() as int,
            ),
{
    let count = before.points@.len() as int;
    assert forall|c: int| 0 <= c < after.cells@.len() implies all_below(
        (#[trigger] after.cells@[c])@,
        after.points@.len() as int,
    ) by {
        assert(all_below(before.cells@[c]@, count));
    }
    assert forall|c: int| 0 <= c < after.prisms@.len() implies all_below(
        (#[trigger] after.prisms@[c])@,
        after.points@.len() as int,
    ) by {
        assert(all_below(before.prisms@[c]@, count));
    }
    assert forall|c: int| 0 <= c < after.pyramids@.len() implies all_below(
        (#[trigger] after.pyramids@[c])@,
        after.points@.len() as int,
    ) by {
        assert(all_below(before.pyramids@[c]@, count));
    }
    assert forall|c: int| 0 <= c < after.boundary_faces@.len() implies all_below(
        (#[trigger] after.boundary_faces@[c])@,
        after.points@.len() as int,
    ) by {
        assert(all_below(before.boundary_faces@[c]@, count));
    }
}

/// The number of a lattice point, which is added where it is met first.
pub fn lattice_vertex(mesh: &mut VolumeMesh, lattice: usize, position: Vector3) -> (result: usize)
    requires
        old(mesh).wf(),
        old(mesh).points@.len() < usize::MAX,
    ensures
        final(mesh).wf(),
        final(mesh).same_cells(*old(mesh)),
        result == lattice_number(old(mesh).table(), lattice),
        final(mesh).table() == with_lattice(old(mesh).table(), lattice, position),
        result < final(mesh).points@.len(),
        final(mesh).points@.len() <= old(mesh).points@.len() + 1,
{
    if let Some(vertex) = mesh.lattice_vertices.get(&lattice) {
        return *vertex;
    }
    let ghost before = *mesh;
    let vertex: usize = mesh.points.len();
    mesh.points.push(position);
    mesh.lattice_vertices.insert(lattice, vertex);
    proof {
        more_points(before, *mesh);
        assert forall|key: usize| #[trigger]
            mesh.lattice_vertices@.dom().contains(key) implies mesh.lattice_vertices@[key]
            < mesh.points@.len() by {
            if key != lattice {
                assert(before.lattice_vertices@.dom().contains(key));
            }
        }
        assert forall|key: (usize, usize)| #[trigger]
            mesh.crossings@.dom().contains(key) implies mesh.crossings@[key]
            < mesh.points@.len() by {
            assert(before.crossings@.dom().contains(key));
        }
    }
    vertex
}

/// The number of the crossing on an edge, which is added where it is met
/// first.
pub fn crossing_vertex(mesh: &mut VolumeMesh, a: usize, b: usize, position: Vector3) -> (result: usize)
    requires
        old(mesh).wf(),
        old(mesh).points@.len() < usize::MAX,
    ensures
        final(mesh).wf(),
        final(mesh).same_cells(*old(mesh)),
        result == crossing_number(old(mesh).table(), a, b),
        final(mesh).table() == with_crossing(old(mesh).table(), a, b, position),
        result < final(mesh).points@.len(),
        final(mesh).points@.len() <= old(mesh).points@.len() + 1,
{
    let edge = ordered_pair(a, b);
    if let Some(vertex) = mesh.crossings.get(&edge) {
        return *vertex;
    }
    let ghost before = *mesh;
    let vertex: usize = mesh.points.len();
    mesh.points.push(position);
    mesh.boundary_points.insert(vertex);
    mesh.crossings.insert(edge, vertex);
    proof {
        more_points(before, *mesh);
        assert forall|key: (usize, usize)| #[trigger]
            mesh.crossings@.dom().contains(key) implies mesh.crossings@[key]
            < mesh.points@.len() by {
            if key != edge {
                assert(before.crossings@.dom().contains(key));
            }
        }
        assert forall|key: usize| #[trigger]
            mesh.lattice_vertices@.dom().contains(key) implies mesh.lattice_vertices@[key]
            < mesh.points@.len() by {
            assert(before.lattice_vertices@.dom().contains(key));
        }
    }
    vertex
}

/// A lattice point of the background grid.
#[derive(Debug, Clone, Copy)]
pub struct Corner {
    pub lattice: usize,
    pub position: Vector3,
    pub inside: bool,
}

/// The polygon of a face after one of its edges: the start where it is
/// inside, then the crossing where the ends lie on different sides.
pub open spec fn after_edge(
    state: (PointTable, Seq<usize>),
    a: Corner,
    b: Corner,
    crossing: Vector3,
) -> (PointTable, Seq<usize>) {
    let (table, polygon) = state;
    let (next, list) = if a.inside {
        (
            with_lattice(table, a.lattice, a.position),
            polygon.push(lattice_number(table, a.lattice)),
        )
    } else {
        (table, polygon)
    };
    if a.inside != b.inside {
        (
            with_crossing(next, a.lattice, b.lattice, crossing),
            list.push(crossing_number(next, a.lattice, b.lattice)),
        )
    } else {
        (next, list)
    }
}

/// The part of a face inside the domain, and the points after it was cut.
/// `crossings[i]` is where the boundary crosses the edge from corner `i` to
/// the next.
pub open spec fn cut_face_of(table: PointTable, face: Seq<Corner>, crossings: Seq<Vector3>) -> (
    PointTable,
    Seq<usize>,
) {
    let (last, polygon) = after_edge(
        after_edge(
            after_edge((table, Seq::empty()), face[0], face[1], crossings[0]),
            face[1],
            face[2],
            crossings[1],
        ),
        face[2],
        face[0],
        crossings[2],
    );
    (last, without_repeats(polygon))
}

fn push_edge(mesh: &mut VolumeMesh, polygon: &mut Vec<usize>, a: &Corner, b: &Corner, crossing: Vector3)
    requires
        old(mesh).wf(),
        old(mesh).points@.len() + 2 < usize::MAX,
        all_below(old(polygon)@, old(mesh).points@.len() as int),
    ensures
        final(mesh).wf(),
        final(mesh).same_cells(*old(mesh)),
        (final(mesh).table(), final(polygon)@) == after_edge(
            (old(mesh).table(), old(polygon)@),
            *a,
            *b,
            crossing,
        ),
        all_below(final(polygon)@, final(mesh).points@.len() as int),
        final(mesh).points@.len() <= old(mesh).points@.len() + 2,
{
    if a.inside {
        let vertex: usize = lattice_vertex(mesh, a.lattice, a.position);
        polygon.push(vertex);
    }
    if a.inside != b.inside {
        let vertex: usize = crossing_vertex(mesh, a.lattice, b.lattice, crossing);
        polygon.push(vertex);
    }
}

proof fn repeats_stay_below(list: Seq<usize>, count: int)
    requires
        all_below(list, count),
    ensures
        all_below(without_repeats(list), count),
    decreases list.len(),
{
    if list.len() > 0 {
        assert(all_below(list.drop_last(), count)) by {
            assert forall|i: int| 0 <= i < list.len() - 1 implies #[trigger] list.drop_last()[i]
                < count by {
                assert(list[i] < count);
            }
        }
        repeats_stay_below(list.drop_last(), count);
        assert(list[list.len() - 1] < count);
    }
}

/// The part of a face inside the domain; the points met first are added.
pub fn clipped_face(mesh: &mut VolumeMesh, face: &[Corner; 3], crossings: &[Vector3; 3]) -> (result: Vec<
    usize,
>)
    requires
        old(mesh).wf(),
        old(mesh).points@.len() + 6 < usize::MAX,
    ensures
        final(mesh).wf(),
        final(mesh).same_cells(*old(mesh)),
        (final(mesh).table(), result@) == cut_face_of(old(mesh).table(), face@, crossings@),
        all_below(result@, final(mesh).points@.len() as int),
        final(mesh).points@.len() <= old(mesh).points@.len() + 6,
{
    let mut polygon: Vec<usize> = Vec::new();
    push_edge(mesh, &mut polygon, &face[0], &face[1], crossings[0]);
    push_edge(mesh, &mut polygon, &face[1], &face[2], crossings[1]);
    push_edge(mesh, &mut polygon, &face[2], &face[0], crossings[2]);
    proof {
        repeats_stay_below(polygon@, mesh.points@.len() as int);
    }
    drop_repeats(&polygon)
}

/// The boundary crosses the edge between two corners.
pub open spec fn crossed(corners: Seq<Corner>, a: int, b: int) -> bool {
    corners[a].inside != corners[b].inside
}

/// The number is that of a crossing of the tetrahedron.
pub open spec fn on_cut(table: PointTable, corners: Seq<Corner>, vertex: usize) -> bool {
    exists|a: int, b: int|
        0 <= a < b < 4 && #[trigger] crossed(corners, a, b) && table.crossings.dom().contains(
            pair(corners[a].lattice, corners[b].lattice),
        ) && table.crossings[pair(corners[a].lattice, corners[b].lattice)] == vertex
}

fn note_cut(mesh: &VolumeMesh, corners: &[Corner; 4], a: usize, b: usize, set: &mut SortedSet<usize>)
    requires
        mesh.wf(),
        a < 4,
        b < 4,
        old(set).wf(),
    ensures
        final(set).wf(),
        forall|vertex: usize| #[trigger]
            final(set)@.contains(vertex) <==> old(set)@.contains(vertex) || (crossed(
                corners@,
                a as int,
                b as int,
            ) && mesh.crossings@.dom().contains(pair(corners@[a as int].lattice, corners@[b as int].lattice))
                && mesh.crossings@[pair(corners@[a as int].lattice, corners@[b as int].lattice)]
                == vertex),
{
    if corners[a].inside != corners[b].inside {
        if let Some(vertex) = mesh.crossings.get(
            &ordered_pair(corners[a].lattice, corners[b].lattice),
        ) {
            set.insert(*vertex);
        }
    }
}

/// The crossings of a tetrahedron whose faces were cut, in order.
pub fn cut_vertices(mesh: &VolumeMesh, corners: &[Corner; 4]) -> (result: SortedSet<usize>)
    requires
        mesh.wf(),
    ensures
        result.wf(),
        forall|vertex: usize| #[trigger]
            result@.contains(vertex) <==> on_cut(mesh.table(), corners@, vertex),
{
    let mut set: SortedSet<usize> = SortedSet::new();
    note_cut(mesh, corners, 0, 1, &mut set);
    note_cut(mesh, corners, 0, 2, &mut set);
    note_cut(mesh, corners, 0, 3, &mut set);
    note_cut(mesh, corners, 1, 2, &mut set);
    note_cut(mesh, corners, 1, 3, &mut set);
    note_cut(mesh, corners, 2, 3, &mut set);
    proof {
        let table = mesh.table();
        assert forall|vertex: usize| #[trigger] set@.contains(vertex) implies on_cut(
            table,
            corners@,
            vertex,
        ) by {
            assert(crossed(corners@, 0, 1) || !crossed(corners@, 0, 1));
            assert(crossed(corners@, 0, 2) || !crossed(corners@, 0, 2));
            assert(crossed(corners@, 0, 3) || !crossed(corners@, 0, 3));
            assert(crossed(corners@, 1, 2) || !crossed(corners@, 1, 2));
            assert(crossed(corners@, 1, 3) || !crossed(corners@, 1, 3));
            assert(crossed(corners@, 2, 3) || !crossed(corners@, 2, 3));
        }
        assert forall|vertex: usize| on_cut(table, corners@, vertex) implies
            #[trigger] set@.contains(vertex) by {
            let (a, b) = choose|a: int, b: int|
                0 <= a < b < 4 && #[trigger] crossed(corners@, a, b)
                    && table.crossings.dom().contains(
                    pair(corners@[a].lattice, corners@[b].lattice),
                ) && table.crossings[pair(corners@[a].lattice, corners@[b].lattice)] == vertex;
            assert((a == 0 && b == 1) || (a == 0 && b == 2) || (a == 0 && b == 3) || (a == 1 && b
                == 2) || (a == 1 && b == 3) || (a == 2 && b == 3));
        }
    }
    set
}

/// The corners of a polygon in increasing order.
pub open spec fn sorted_of(polygon: Seq<usize>) -> Seq<usize> {
    choose|list: Seq<usize>| #[trigger]
        ordered(list) && list.to_multiset() == polygon.to_multiset()
}

fn sorted_corners(polygon: &Vec<usize>) -> (result: Vec<usize>)
    ensures
        result@ == sorted_of(polygon@),
{
    let mut list = polygon.clone();
    assert(list@ =~= polygon@);
    sort_keys(&mut list);
    proof {
        let wanted = sorted_of(polygon@);
        assert(ordered(list@) && list@.to_multiset() == polygon@.to_multiset());
        rearranged(polygon@, list@);
        rearranged(list@, wanted);
        ordered_sequence_is_unique(list@, wanted);
    }
    list
}

/// One list of numbers comes before another: at the first place where they
/// differ it has the smaller number, or it ends there.
pub open spec fn list_before(a: Seq<usize>, b: Seq<usize>) -> bool
    decreases a.len(),
{
    if b.len() == 0 {
        false
    } else if a.len() == 0 {
        true
    } else if a[0] != b[0] {
        a[0] < b[0]
    } else {
        list_before(a.drop_first(), b.drop_first())
    }
}

proof fn list_not_before_itself(a: Seq<usize>)
    ensures
        !list_before(a, a),
    decreases a.len(),
{
    if a.len() > 0 {
        list_not_before_itself(a.drop_first());
    }
}

proof fn list_before_passes_on(a: Seq<usize>, b: Seq<usize>, c: Seq<usize>)
    requires
        list_before(a, b),
        list_before(b, c),
    ensures
        list_before(a, c),
    decreases a.len(),
{
    if a.len() > 0 && a[0] == b[0] && b[0] == c[0] {
        list_before_passes_on(a.drop_first(), b.drop_first(), c.drop_first());
    }
}

proof fn lists_are_in_order(a: Seq<usize>, b: Seq<usize>)
    ensures
        a == b || list_before(a, b) || list_before(b, a),
    decreases a.len(),
{
    if a.len() == 0 && b.len() == 0 {
        assert(a =~= b);
    } else if a.len() > 0 && b.len() > 0 && a[0] == b[0] {
        lists_are_in_order(a.drop_first(), b.drop_first());
        if a.drop_first() == b.drop_first() {
            assert forall|i: int| 0 <= i < a.len() implies a[i] == b[i] by {
                if i > 0 {
                    assert(a.drop_first()[i - 1] == b.drop_first()[i - 1]);
                }
            }
            assert(a.len() == a.drop_first().len() + 1);
            assert(a =~= b);
        }
    }
}

fn is_list_before(a: &Vec<usize>, b: &Vec<usize>) -> (result: bool)
    ensures
        result == list_before(a@, b@),
{
    let mut i: usize = 0;
    assert(a@.skip(0) =~= a@ && b@.skip(0) =~= b@);
    while i < a.len() && i < b.len()
        invariant
            i <= a@.len(),
            i <= b@.len(),
            list_before(a@, b@) == list_before(a@.skip(i as int), b@.skip(i as int)),
        decreases a@.len() - i,
    {
        if a[i] != b[i] {
            return a[i] < b[i];
        }
        assert(a@.skip(i as int).drop_first() =~= a@.skip(i + 1));
        assert(b@.skip(i as int).drop_first() =~= b@.skip(i + 1));
        i = i + 1;
    }
    i < b.len()
}

pub open spec fn number_lists(polygons: Seq<Vec<usize>>) -> Seq<Seq<usize>> {
    polygons.map_values(|polygon: Vec<usize>| polygon@)
}

/// No earlier polygon has the corners of the one at a place.
pub open spec fn is_first(polygons: Seq<Seq<usize>>, place: int) -> bool {
    forall|q: int|
        0 <= q < place ==> sorted_of(#[trigger] polygons[q]) != sorted_of(polygons[place])
}

/// The polygons at two places have the same corners.
pub open spec fn same_corners(polygons: Seq<Seq<usize>>, a: int, b: int) -> bool {
    sorted_of(polygons[a]) == sorted_of(polygons[b])
}

/// Some polygon at one of the places has the corners of the one at a place.
pub open spec fn is_covered(polygons: Seq<Seq<usize>>, places: Seq<int>, p: int) -> bool {
    exists|i: int| 0 <= i < places.len() && #[trigger] same_corners(polygons, places[i], p)
}

/// The kept polygons: for each set of corners, in order, the first polygon
/// that has them.
pub open spec fn kept(polygons: Seq<Seq<usize>>, places: Seq<int>, result: Seq<Seq<usize>>) -> bool {
    &&& result.len() == places.len()
    &&& forall|i: int|
        0 <= i < places.len() ==> 0 <= #[trigger] places[i] < polygons.len() && is_first(
            polygons,
            places[i],
        ) && result[i] == polygons[places[i]]
    &&& forall|i: int, j: int|
        0 <= i < j < places.len() ==> list_before(
            sorted_of(polygons[#[trigger] places[i]]),
            sorted_of(polygons[#[trigger] places[j]]),
        )
    &&& forall|p: int| 0 <= p < polygons.len() ==> #[trigger] is_covered(polygons, places, p)
}

/// What is held while the polygons are gone through: the sorted corners of the
/// kept ones, in order, and where these stand.
spec fn held_so_far(
    polygons: Seq<Seq<usize>>,
    keys: Seq<Vec<usize>>,
    places: Seq<usize>,
    count: int,
) -> bool {
    &&& keys.len() == places.len()
    &&& forall|k: int|
        0 <= k < keys.len() ==> (#[trigger] keys[k])@ == sorted_of(polygons[places[k] as int])
            && places[k] < count && is_first(polygons, places[k] as int)
    &&& forall|i: int, j: int|
        0 <= i < j < keys.len() ==> list_before((#[trigger] keys[i])@, (#[trigger] keys[j])@)
    &&& forall|p: int|
        0 <= p < count ==> exists|k: int|
            0 <= k < keys.len() && (#[trigger] keys[k])@ == sorted_of(#[trigger] polygons[p])
}

/// Keeps a polygon unless an earlier one has its corners.
fn keep_polygon(
    keys: &mut Vec<Vec<usize>>,
    places: &mut Vec<usize>,
    polygons: &Vec<Vec<usize>>,
    at: usize,
)
    requires
        at < polygons@.len(),
        held_so_far(number_lists(polygons@), old(keys)@, old(places)@, at as int),
    ensures
        held_so_far(number_lists(polygons@), final(keys)@, final(places)@, at + 1),
{
    let ghost lists = number_lists(polygons@);
    let list = sorted_corners(&polygons[at]);
    let ghost wanted = list@;
    assert(lists[at as int] == polygons@[at as int]@);
    let mut k: usize = 0;
    while k < keys.len() && is_list_before(&keys[k], &list)
        invariant
            k <= keys@.len(),
            *keys == *old(keys),
            wanted == list@,
            forall|m: int| 0 <= m < k ==> list_before((#[trigger] keys@[m])@, wanted),
        decreases keys@.len() - k,
    {
        k = k + 1;
    }
    if k < keys.len() && !is_list_before(&list, &keys[k]) {
        proof {
            lists_are_in_order(wanted, keys@[k as int]@);
            assert forall|p: int| 0 <= p < at + 1 implies exists|m: int|
                0 <= m < keys@.len() && (#[trigger] keys@[m])@ == sorted_of(#[trigger] lists[p]) by {
                if p == at {
                    assert(keys@[k as int]@ == sorted_of(lists[p]));
                }
            }
        }
        return;
    }
    proof {
        insertion_is_held(lists, keys@, places@, k as int, list, at);
    }
    keys.insert(k, list);
    places.insert(k, at);
}

/// A polygon with new corners goes where these come in the order.
proof fn insertion_is_held(
    polygons: Seq<Seq<usize>>,
    keys: Seq<Vec<usize>>,
    places: Seq<usize>,
    k: int,
    list: Vec<usize>,
    at: usize,
)
    requires
        at < polygons.len(),
        held_so_far(polygons, keys, places, at as int),
        list@ == sorted_of(polygons[at as int]),
        0 <= k <= keys.len(),
        forall|m: int| 0 <= m < k ==> list_before((#[trigger] keys[m])@, list@),
        k < keys.len() ==> list_before(list@, keys[k]@),
    ensures
        held_so_far(polygons, keys.insert(k, list), places.insert(k, at), at + 1),
{
    let wanted = list@;
    let after = keys.insert(k, list);
    let spots = places.insert(k, at);
    assert forall|m: int| k <= m < keys.len() implies list_before(
        wanted,
        (#[trigger] keys[m])@,
    ) by {
        if m > k {
            list_before_passes_on(wanted, keys[k]@, keys[m]@);
        }
    }
    assert(is_first(polygons, at as int)) by {
        assert forall|q: int| 0 <= q < at implies sorted_of(#[trigger] polygons[q]) != wanted by {
            let m = choose|m: int|
                0 <= m < keys.len() && (#[trigger] keys[m])@ == sorted_of(polygons[q]);
            list_not_before_itself(wanted);
            assert(keys[m]@ == sorted_of(polygons[q]));
        }
    }
    assert forall|m: int| 0 <= m < after.len() implies (#[trigger] after[m])@ == sorted_of(
        polygons[spots[m] as int],
    ) && spots[m] < at + 1 && is_first(polygons, spots[m] as int) by {
        if m < k {
            assert(after[m] == keys[m] && spots[m] == places[m]);
        } else if m > k {
            assert(after[m] == keys[m - 1] && spots[m] == places[m - 1]);
        }
    }
    assert forall|i: int, j: int| 0 <= i < j < after.len() implies list_before(
        (#[trigger] after[i])@,
        (#[trigger] after[j])@,
    ) by {
        let a = if i < k {
            i
        } else {
            i - 1
        };
        let b = if j < k {
            j
        } else {
            j - 1
        };
        if i != k {
            assert(after[i] == keys[a]);
        }
        if j != k {
            assert(after[j] == keys[b]);
        }
    }
    assert forall|p: int| 0 <= p < at + 1 implies exists|m: int|
        0 <= m < after.len() && (#[trigger] after[m])@ == sorted_of(#[trigger] polygons[p]) by {
        if p == at {
            assert(after[k]@ == sorted_of(polygons[p]));
        } else {
            let m = choose|m: int|
                0 <= m < keys.len() && (#[trigger] keys[m])@ == sorted_of(polygons[p]);
            if m < k {
                assert(after[m]@ == sorted_of(polygons[p]));
            } else {
                assert(after[m + 1]@ == sorted_of(polygons[p]));
            }
        }
    }
}

/// The polygons without those that have the corners of an earlier one, in
/// order of their corners.
pub fn unique_polygons(polygons: &Vec<Vec<usize>>) -> (result: Vec<Vec<usize>>)
    ensures
        exists|places: Seq<int>|
            #[trigger] kept(number_lists(polygons@), places, number_lists(result@)),
{
    let ghost lists = number_lists(polygons@);
    let mut keys: Vec<Vec<usize>> = Vec::new();
    let mut places: Vec<usize> = Vec::new();
    let mut i: usize = 0;
    while i < polygons.len()
        invariant
            i <= polygons@.len(),
            lists == number_lists(polygons@),
            held_so_far(lists, keys@, places@, i as int),
        decreases polygons@.len() - i,
    {
        keep_polygon(&mut keys, &mut places, polygons, i);
        i = i + 1;
    }
    let mut list: Vec<Vec<usize>> = Vec::new();
    let mut g: usize = 0;
    while g < places.len()
        invariant
            g <= places@.len(),
            lists == number_lists(polygons@),
            held_so_far(lists, keys@, places@, polygons@.len() as int),
            list@.len() == g,
            forall|k: int| 0 <= k < g ==> (#[trigger] list@[k])@ == lists[places@[k] as int],
        decreases places@.len() - g,
    {
        assert(keys@[g as int]@ == sorted_of(lists[places@[g as int] as int]));
        let copy = polygons[places[g]].clone();
        assert(copy@ =~= polygons@[places@[g as int] as int]@);
        list.push(copy);
        g = g + 1;
    }
    assert(g == places@.len());
    proof {
        let spots = Seq::new(places@.len(), |k: int| places@[k] as int);
        let result = number_lists(list@);
        assert forall|k: int| 0 <= k < spots.len() implies 0 <= #[trigger] spots[k] < lists.len()
            && is_first(lists, spots[k]) && result[k] == lists[spots[k]] by {
            assert(keys@[k]@ == sorted_of(lists[places@[k] as int]));
            assert(result[k] == list@[k]@);
        }
        assert forall|a: int, b: int| 0 <= a < b < spots.len() implies list_before(
            sorted_of(lists[#[trigger] spots[a]]),
            sorted_of(lists[#[trigger] spots[b]]),
        ) by {
            assert(list_before(keys@[a]@, keys@[b]@));
        }
        assert forall|p: int| 0 <= p < lists.len() implies #[trigger] is_covered(
            lists,
            spots,
            p,
        ) by {
            let k = choose|k: int|
                0 <= k < keys@.len() && (#[trigger] keys@[k])@ == sorted_of(lists[p]);
            assert(same_corners(lists, spots[k], p));
        }
        assert(result.len() == spots.len());
        assert(kept(lists, spots, result));
    }
    list
}

/// The place of the smallest number among the first, the first of equals.
pub open spec fn first_minimum(polygon: Seq<usize>, count: int) -> int
    decreases count,
{
    if count <= 1 {
        0
    } else {
        let held = first_minimum(polygon, count - 1);
        if polygon[count - 1] < polygon[held] {
            count - 1
        } else {
            held
        }
    }
}

/// The triangles of a polygon around its smallest corner.
pub open spec fn fan_of(polygon: Seq<usize>) -> Seq<Seq<usize>> {
    let n = polygon.len() as int;
    let first = first_minimum(polygon, n);
    Seq::new(
        (n - 2) as nat,
        |i: int|
            seq![polygon[first], polygon[(first + i + 1) % n], polygon[(first + i + 2) % n]],
    )
}

/// Every number of the list stands in the polygon.
pub open spec fn drawn_from(list: Seq<usize>, polygon: Seq<usize>) -> bool {
    forall|k: int| 0 <= k < list.len() ==> polygon.contains(#[trigger] list[k])
}

/// The triangles of a polygon around its smallest corner.
pub fn triangulate_polygon(polygon: &Vec<usize>) -> (result: Vec<[usize; 3]>)
    requires
        3 <= polygon@.len(),
        2 * polygon@.len() <= usize::MAX,
    ensures
        result@.len() == polygon@.len() - 2,
        forall|i: int|
            0 <= i < result@.len() ==> (#[trigger] result@[i])@ == fan_of(polygon@)[i],
        forall|i: int| 0 <= i < result@.len() ==> drawn_from((#[trigger] result@[i])@, polygon@),
{
    let n: usize = polygon.len();
    let mut first: usize = 0;
    let mut k: usize = 1;
    while k < n
        invariant
            n == polygon@.len(),
            3 <= n,
            2 * n <= usize::MAX,
            1 <= k <= n,
            first < k,
            first == first_minimum(polygon@, k as int),
        decreases n - k,
    {
        if polygon[k] < polygon[first] {
            first = k;
        }
        k = k + 1;
    }
    let mut triangles: Vec<[usize; 3]> = Vec::new();
    let mut i: usize = 0;
    while i < n - 2
        invariant
            n == polygon@.len(),
            3 <= n,
            2 * n <= usize::MAX,
            first < n,
            first == first_minimum(polygon@, n as int),
            i <= n - 2,
            triangles.len() == i,
            forall|t: int| 0 <= t < i ==> (#[trigger] triangles@[t])@ == fan_of(polygon@)[t],
            forall|t: int| 0 <= t < i ==> drawn_from((#[trigger] triangles@[t])@, polygon@),
        decreases n - 2 - i,
    {
        let b: usize = (first + i + 1) % n;
        let c: usize = (first + i + 2) % n;
        proof {
            vstd::arithmetic::div_mod::lemma_mod_bound(first + i + 1, n as int);
            vstd::arithmetic::div_mod::lemma_mod_bound(first + i + 2, n as int);
        }
        let triangle = [polygon[first], polygon[b], polygon[c]];
        assert(triangle@ =~= fan_of(polygon@)[i as int]);
        proof {
            assert(polygon@.contains(polygon@[first as int]));
            assert(polygon@.contains(polygon@[b as int]));
            assert(polygon@.contains(polygon@[c as int]));
            assert(drawn_from(triangle@, polygon@));
        }
        triangles.push(triangle);
        i = i + 1;
    }
    triangles
}

/// The polygon begun at another corner.
pub open spec fn turned_polygon(polygon: Seq<usize>, by: int) -> Seq<usize> {
    Seq::new(polygon.len(), |i: int| polygon[(i + by) % (polygon.len() as int)])
}

proof fn minimum_is_least(polygon: Seq<usize>, count: int)
    requires
        1 <= count <= polygon.len(),
    ensures
        0 <= first_minimum(polygon, count) < count,
        forall|k: int|
            0 <= k < count ==> polygon[first_minimum(polygon, count)] <= #[trigger] polygon[k],
    decreases count,
{
    if count > 1 {
        minimum_is_least(polygon, count - 1);
    }
}

/// A sum of two places, wrapped once.
proof fn wrapped(a: int, n: int)
    requires
        0 <= a < 2 * n,
    ensures
        a % n == (if a < n {
            a
        } else {
            a - n
        }),
{
    if a < n {
        vstd::arithmetic::div_mod::lemma_small_mod(a as nat, n as nat);
    } else {
        vstd::arithmetic::div_mod::lemma_small_mod((a - n) as nat, n as nat);
        vstd::arithmetic::div_mod::lemma_mod_add_multiples_vanish(a - n, n);
    }
}

/// A polygon of distinct corners gives the same triangles, in the same order,
/// wherever its list of corners begins.
pub proof fn fan_ignores_the_start(polygon: Seq<usize>, by: int)
    requires
        3 <= polygon.len(),
        polygon.no_duplicates(),
        0 <= by < polygon.len(),
    ensures
        fan_of(turned_polygon(polygon, by)) == fan_of(polygon),
{
    let n = polygon.len() as int;
    let turned = turned_polygon(polygon, by);
    let p = first_minimum(polygon, n);
    let q = first_minimum(turned, n);
    minimum_is_least(polygon, n);
    minimum_is_least(turned, n);
    wrapped(q + by, n);
    let place = (q + by) % n;
    assert(turned[q] == polygon[place]);
    let back = if p >= by {
        p - by
    } else {
        p - by + n
    };
    wrapped(back + by, n);
    assert(turned[back] == polygon[p]);
    assert(turned[q] <= turned[back]);
    assert(polygon[p] <= polygon[place]);
    assert(place == p);
    assert forall|i: int| 0 <= i < n - 2 implies #[trigger] fan_of(turned)[i] == fan_of(
        polygon,
    )[i] by {
        same_corner(polygon, by, p, q, i + 1);
        same_corner(polygon, by, p, q, i + 2);
        assert(fan_of(turned)[i] =~= fan_of(polygon)[i]);
    }
    assert(fan_of(turned) =~= fan_of(polygon));
}

proof fn same_corner(polygon: Seq<usize>, by: int, p: int, q: int, step: int)
    requires
        0 <= by < polygon.len(),
        0 <= p < polygon.len(),
        0 <= q < polygon.len(),
        0 <= step < polygon.len(),
        p == (if q + by < polygon.len() {
            q + by
        } else {
            q + by - polygon.len()
        }),
    ensures
        turned_polygon(polygon, by)[(q + step) % (polygon.len() as int)] == polygon[(p + step) % (
        polygon.len() as int)],
{
    let n = polygon.len() as int;
    wrapped(q + step, n);
    wrapped(p + step, n);
    let at = (q + step) % n;
    wrapped(at + by, n);
}

/// A tetrahedron turned so that it has positive volume.
pub open spec fn turned_cell(cell: Seq<usize>, sign: Sign) -> Seq<usize> {
    if sign == Sign::Negative {
        seq![cell[1], cell[0], cell[2], cell[3]]
    } else {
        cell
    }
}

pub open spec fn cell_lists(cells: Seq<[usize; 4]>) -> Seq<Seq<usize>> {
    cells.map_values(|cell: [usize; 4]| cell@)
}

/// The cells with one added, unless it is flat.
pub open spec fn with_cell(cells: Seq<Seq<usize>>, cell: Seq<usize>, sign: Sign) -> Seq<Seq<usize>> {
    if sign == Sign::Zero {
        cells
    } else {
        cells.push(turned_cell(cell, sign))
    }
}

/// Adds a tetrahedron, turned the right way, unless it is flat.
pub fn push_oriented_cell(mesh: &mut VolumeMesh, cell: [usize; 4], sign: Sign)
    requires
        old(mesh).wf(),
        all_below(cell@, old(mesh).points@.len() as int),
    ensures
        final(mesh).wf(),
        final(mesh).points == old(mesh).points,
        final(mesh).boundary_points == old(mesh).boundary_points,
        final(mesh).lattice_vertices == old(mesh).lattice_vertices,
        final(mesh).crossings == old(mesh).crossings,
        final(mesh).prisms == old(mesh).prisms,
        final(mesh).pyramids == old(mesh).pyramids,
        final(mesh).boundary_faces == old(mesh).boundary_faces,
        cell_lists(final(mesh).cells@) == with_cell(cell_lists(old(mesh).cells@), cell@, sign),
{
    let ghost before = mesh.cells@;
    proof {
        assert(cell@[0] < mesh.points@.len() && cell@[1] < mesh.points@.len());
    }
    match sign {
        Sign::Zero => {},
        Sign::Positive => {
            mesh.cells.push(cell);
            assert(cell_lists(mesh.cells@) =~= cell_lists(before).push(cell@));
        },
        Sign::Negative => {
            let turned = [cell[1], cell[0], cell[2], cell[3]];
            assert(turned@ =~= turned_cell(cell@, sign));
            assert(all_below(turned@, mesh.points@.len() as int)) by {
                assert(cell@[2] < mesh.points@.len() && cell@[3] < mesh.points@.len());
            }
            mesh.cells.push(turned);
            assert(cell_lists(mesh.cells@) =~= cell_lists(before).push(turned@));
        },
    }
}

/// The numbers that the polygons use.
pub open spec fn numbers_of(polygons: Seq<Seq<usize>>) -> Set<usize> {
    Set::new(
        |vertex: usize|
            exists|p: int| 0 <= p < polygons.len() && (#[trigger] polygons[p]).contains(vertex),
    )
}

/// The corners of the polyhedron that the polygons bound, in order; fewer
/// than four mean that nothing remains of it.
pub fn polyhedron_vertices(polygons: &Vec<Vec<usize>>) -> (result: SortedSet<usize>)
    ensures
        result.wf(),
        result@ == numbers_of(number_lists(polygons@)),
{
    let ghost lists = number_lists(polygons@);
    let mut set: SortedSet<usize> = SortedSet::new();
    let mut p: usize = 0;
    assert(set@ =~= numbers_of(lists.take(0)));
    while p < polygons.len()
        invariant
            p <= polygons.len(),
            lists == number_lists(polygons@),
            set.wf(),
            set@ == numbers_of(lists.take(p as int)),
        decreases polygons.len() - p,
    {
        let polygon = &polygons[p];
        let ghost before = set@;
        let mut i: usize = 0;
        while i < polygon.len()
            invariant
                i <= polygon.len(),
                set.wf(),
                forall|v: usize| #[trigger]
                    set@.contains(v) <==> before.contains(v) || polygon@.take(i as int).contains(v),
            decreases polygon.len() - i,
        {
            let ghost held = set@;
            set.insert(polygon[i]);
            proof {
                let short = polygon@.take(i as int);
                let long = polygon@.take(i as int + 1);
                assert(long =~= short.push(polygon@[i as int]));
                assert forall|v: usize| #[trigger]
                    set@.contains(v) <==> before.contains(v) || long.contains(v) by {
                    assert(held.contains(v) <==> before.contains(v) || short.contains(v));
                    assert(long[i as int] == polygon@[i as int]);
                    if short.contains(v) {
                        assert(long[short.index_of(v)] == v);
                    }
                    if long.contains(v) && v != polygon@[i as int] {
                        assert(short[long.index_of(v)] == v);
                    }
                }
            }
            i = i + 1;
        }
        proof {
            let short = lists.take(p as int);
            let long = lists.take(p as int + 1);
            assert(polygon@.take(i as int) =~= polygon@);
            assert(lists[p as int] == polygon@);
            assert(long =~= short.push(polygon@));
            assert forall|v: usize| #[trigger] set@.contains(v) <==> numbers_of(long).contains(
                v,
            ) by {
                if before.contains(v) {
                    let q = choose|q: int|
                        0 <= q < short.len() && (#[trigger] short[q]).contains(v);
                    assert(long[q].contains(v));
                }
                assert(long[p as int] == polygon@);
                if numbers_of(long).contains(v) {
                    let q = choose|q: int| 0 <= q < long.len() && (#[trigger] long[q]).contains(v);
                    if q < p {
                        assert(short[q].contains(v));
                    }
                }
            }
            assert(set@ =~= numbers_of(long));
        }
        p = p + 1;
    }
    assert(lists.take(p as int) =~= lists);
    set
}

/// The cells after those from a point to the first triangles were added.
pub open spec fn with_fan(
    cells: Seq<Seq<usize>>,
    center: usize,
    triangles: Seq<[usize; 3]>,
    signs: Seq<Sign>,
    count: int,
) -> Seq<Seq<usize>>
    decreases count,
{
    if count <= 0 {
        cells
    } else {
        let t = triangles[count - 1];
        with_cell(
            with_fan(cells, center, triangles, signs, count - 1),
            seq![center, t[0], t[1], t[2]],
            signs[count - 1],
        )
    }
}

/// All corners of the triangle lie on the boundary.
pub open spec fn on_boundary(boundary: Set<usize>, triangle: [usize; 3]) -> bool {
    boundary.contains(triangle[0]) && boundary.contains(triangle[1]) && boundary.contains(
        triangle[2],
    )
}

/// The first triangles with all corners on the boundary.
pub open spec fn boundary_triangles(boundary: Set<usize>, triangles: Seq<[usize; 3]>, count: int) -> Seq<
    [usize; 3],
>
    decreases count,
{
    if count <= 0 {
        Seq::empty()
    } else {
        let rest = boundary_triangles(boundary, triangles, count - 1);
        if on_boundary(boundary, triangles[count - 1]) {
            rest.push(triangles[count - 1])
        } else {
            rest
        }
    }
}

/// Fills a polyhedron with tetrahedra around a point in its middle.
pub fn fill_polyhedron(
    mesh: &mut VolumeMesh,
    center: Vector3,
    triangles: &Vec<[usize; 3]>,
    signs: &Vec<Sign>,
) -> (result: usize)
    requires
        old(mesh).wf(),
        old(mesh).points@.len() < usize::MAX,
        signs@.len() == triangles@.len(),
        forall|i: int|
            0 <= i < triangles@.len() ==> all_below(
                (#[trigger] triangles@[i])@,
                old(mesh).points@.len() as int,
            ),
    ensures
        final(mesh).wf(),
        result == old(mesh).points@.len(),
        final(mesh).points@ == old(mesh).points@.push(center),
        final(mesh).boundary_points == old(mesh).boundary_points,
        final(mesh).lattice_vertices == old(mesh).lattice_vertices,
        final(mesh).crossings == old(mesh).crossings,
        final(mesh).prisms == old(mesh).prisms,
        final(mesh).pyramids == old(mesh).pyramids,
        cell_lists(final(mesh).cells@) == with_fan(
            cell_lists(old(mesh).cells@),
            result,
            triangles@,
            signs@,
            triangles@.len() as int,
        ),
        final(mesh).boundary_faces@ == old(mesh).boundary_faces@ + boundary_triangles(
            old(mesh).boundary_points@,
            triangles@,
            triangles@.len() as int,
        ),
{
    let ghost start = *mesh;
    let vertex: usize = mesh.points.len();
    mesh.points.push(center);
    proof {
        more_points(start, *mesh);
        assert forall|key: usize| #[trigger]
            mesh.lattice_vertices@.dom().contains(key) implies mesh.lattice_vertices@[key]
            < mesh.points@.len() by {
            assert(start.lattice_vertices@.dom().contains(key));
        }
        assert forall|key: (usize, usize)| #[trigger]
            mesh.crossings@.dom().contains(key) implies mesh.crossings@[key]
            < mesh.points@.len() by {
            assert(start.crossings@.dom().contains(key));
        }
        assert forall|i: int| 0 <= i < triangles@.len() implies all_below(
            (#[trigger] triangles@[i])@,
            mesh.points@.len() as int,
        ) by {
            assert(all_below(triangles@[i]@, start.points@.len() as int));
        }
    }
    let ghost points = mesh.points@;
    let mut i: usize = 0;
    assert(mesh.boundary_faces@ =~= start.boundary_faces@ + boundary_triangles(
        start.boundary_points@,
        triangles@,
        0,
    ));
    while i < triangles.len()
        invariant
            i <= triangles.len(),
            signs@.len() == triangles@.len(),
            start == *old(mesh),
            mesh.wf(),
            points == start.points@.push(center),
            mesh.points@ == points,
            vertex == start.points@.len(),
            mesh.boundary_points == start.boundary_points,
            mesh.lattice_vertices == start.lattice_vertices,
            mesh.crossings == start.crossings,
            mesh.prisms == start.prisms,
            mesh.pyramids == start.pyramids,
            forall|k: int|
                0 <= k < triangles@.len() ==> all_below(
                    (#[trigger] triangles@[k])@,
                    points.len() as int,
                ),
            cell_lists(mesh.cells@) == with_fan(
                cell_lists(start.cells@),
                vertex,
                triangles@,
                signs@,
                i as int,
            ),
            mesh.boundary_faces@ == start.boundary_faces@ + boundary_triangles(
                start.boundary_points@,
                triangles@,
                i as int,
            ),
        decreases triangles.len() - i,
    {
        let t = triangles[i];
        let cell = [vertex, t[0], t[1], t[2]];
        proof {
            assert(all_below(triangles@[i as int]@, points.len() as int));
            assert(t@[0] < points.len() && t@[1] < points.len() && t@[2] < points.len());
            assert(all_below(cell@, points.len() as int));
            assert(cell@ =~= seq![vertex, t[0], t[1], t[2]]);
        }
        push_oriented_cell(mesh, cell, signs[i]);
        let on = mesh.boundary_points.contains(&t[0]) && mesh.boundary_points.contains(&t[1])
            && mesh.boundary_points.contains(&t[2]);
        if on {
            mesh.boundary_faces.push(t);
        }
        assert(mesh.boundary_faces@ =~= start.boundary_faces@ + boundary_triangles(
            start.boundary_points@,
            triangles@,
            i + 1,
        ));
        i = i + 1;
    }
    vertex
}

} // verus!
