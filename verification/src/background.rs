//! The background grid of a 3D mesh, and the audit of what was cut from it.

use vstd::arithmetic::power2::pow2;
use vstd::prelude::*;

use crate::error::{MeshError, MeshResult};
#[allow(unused_imports)]
use crate::error::{fails_input, fails_limit};
use crate::faces::sort_triple;
#[allow(unused_imports)]
use crate::faces::sorted_triple;
use crate::grouping::Grouping;
#[allow(unused_imports)]
use crate::grouping::{places_are_exact, places_of};
use crate::sorted::SortedSet;
#[allow(unused_imports)]
use crate::sorted::increasing;
use crate::text::{append_decimal, around, quoted, sentence, sentence2};
#[allow(unused_imports)]
use crate::text::{debug_text, decimal};
use crate::volume::VolumeMesh;
#[allow(unused_imports)]
use crate::volume::all_below;

verus! {

/// The number of a lattice point, x running fastest and z slowest.
pub open spec fn lattice_index(x: int, y: int, z: int, dimensions: Seq<usize>) -> int {
    z * dimensions[0] * dimensions[1] + y * dimensions[0] + x
}

/// The corners of a cube; the place's bits tell the steps on x, y and z.
pub open spec fn cube_of(x: int, y: int, z: int, dimensions: Seq<usize>) -> Seq<int> {
    Seq::new(
        8,
        |i: int|
            lattice_index(x + i % 2, y + (i / 2) % 2, z + (i / 4) % 2, dimensions),
    )
}

proof fn index_bounds(x: int, y: int, z: int, dimensions: Seq<usize>)
    requires
        dimensions.len() == 3,
        0 <= x < dimensions[0],
        0 <= y < dimensions[1],
        0 <= z < dimensions[2],
        dimensions[2] * dimensions[0] * dimensions[1] <= usize::MAX,
    ensures
        0 <= z * dimensions[0] <= usize::MAX,
        0 <= z * dimensions[0] * dimensions[1] <= usize::MAX,
        0 <= y * dimensions[0] <= usize::MAX,
        0 <= lattice_index(x, y, z, dimensions) < dimensions[2] * dimensions[0] * dimensions[1],
        z * dimensions[0] * dimensions[1] + y * dimensions[0] <= usize::MAX,
{
    let a = dimensions[0] as int;
    let b = dimensions[1] as int;
    let c = dimensions[2] as int;
    assert(0 <= z * a && z * a <= c * a) by (nonlinear_arith)
        requires
            0 <= z < c,
            a >= 0,
    ;
    assert(c * a <= c * a * b) by (nonlinear_arith)
        requires
            b >= 1,
            c >= 0,
            a >= 0,
    ;
    assert(0 <= z * a * b && z * a * b + a * b <= c * a * b) by (nonlinear_arith)
        requires
            0 <= z < c,
            a >= 0,
            b >= 0,
    ;
    assert(0 <= y * a && y * a + a <= a * b) by (nonlinear_arith)
        requires
            0 <= y < b,
            a >= 0,
    ;
}

/// The corners of a cube of the background grid, as numbers of lattice points.
pub fn cube_vertices(x: usize, y: usize, z: usize, dimensions: &[usize; 3]) -> (result: [usize; 8])
    requires
        x + 1 < dimensions[0],
        y + 1 < dimensions[1],
        z + 1 < dimensions[2],
        dimensions[2] * dimensions[0] * dimensions[1] <= usize::MAX,
    ensures
        forall|i: int|
            0 <= i < 8 ==> #[trigger] result[i] == cube_of(
                x as int,
                y as int,
                z as int,
                dimensions@,
            )[i],
{
    let a: usize = dimensions[0];
    let b: usize = dimensions[1];
    proof {
        let (u, v, w) = (x as int, y as int, z as int);
        index_bounds(u, v, w, dimensions@);
        index_bounds(u + 1, v, w, dimensions@);
        index_bounds(u, v + 1, w, dimensions@);
        index_bounds(u + 1, v + 1, w, dimensions@);
        index_bounds(u, v, w + 1, dimensions@);
        index_bounds(u + 1, v, w + 1, dimensions@);
        index_bounds(u, v + 1, w + 1, dimensions@);
        index_bounds(u + 1, v + 1, w + 1, dimensions@);
    }
    let low: usize = z * a * b + y * a;
    let low_next: usize = z * a * b + (y + 1) * a;
    let high: usize = (z + 1) * a * b + y * a;
    let high_next: usize = (z + 1) * a * b + (y + 1) * a;
    [
        low + x,
        low + (x + 1),
        low_next + x,
        low_next + (x + 1),
        high + x,
        high + (x + 1),
        high_next + x,
        high_next + (x + 1),
    ]
}

/// The place of the cube's corner one step along an axis from the origin.
pub open spec fn axis_bit(axis: int) -> int {
    if axis == 0 {
        1
    } else if axis == 1 {
        2
    } else {
        4
    }
}

/// A tetrahedron of the Freudenthal cut: from the lowest corner along the
/// three axes in turn to the highest.
pub open spec fn path_tet(cube: Seq<usize>, order: Seq<usize>) -> Seq<usize> {
    let first = axis_bit(order[0] as int);
    let second = axis_bit(order[1] as int);
    let third = axis_bit(order[2] as int);
    seq![cube[0], cube[first], cube[first + second], cube[first + second + third]]
}

fn bit_of(axis: usize) -> (result: usize)
    ensures
        result == axis_bit(axis as int),
        1 <= result <= 4,
{
    if axis == 0 {
        1
    } else if axis == 1 {
        2
    } else {
        4
    }
}

pub fn freudenthal_tetrahedron(cube: &[usize; 8], order: &[usize; 3]) -> (result: [usize; 4])
    requires
        order[0] < 3,
        order[1] < 3,
        order[2] < 3,
        order[0] != order[1],
        order[1] != order[2],
        order[0] != order[2],
    ensures
        result@ == path_tet(cube@, order@),
{
    let first: usize = bit_of(order[0]);
    let second: usize = bit_of(order[1]);
    let third: usize = bit_of(order[2]);
    let result = [cube[0], cube[first], cube[first + second], cube[first + second + third]];
    assert(result@ =~= path_tet(cube@, order@));
    result
}

/// Every tetrahedron of the cut has the cube's main diagonal for an edge.
pub proof fn paths_share_diagonal(cube: Seq<usize>, order: Seq<usize>)
    requires
        order.len() == 3,
        order[0] < 3,
        order[1] < 3,
        order[2] < 3,
        order[0] != order[1],
        order[1] != order[2],
        order[0] != order[2],
    ensures
        path_tet(cube, order)[0] == cube[0],
        path_tet(cube, order)[3] == cube[7],
{
}

/// The bits of three coordinates, interleaved: bit `i` of `x`, `y` and `z`
/// goes to bits `3i`, `3i + 1` and `3i + 2`.
pub open spec fn interleave3(x: nat, y: nat, z: nat, bits: nat) -> nat
    decreases bits,
{
    if bits == 0 {
        0
    } else {
        x % 2 + 2 * (y % 2) + 4 * (z % 2) + 8 * interleave3(
            x / 2,
            y / 2,
            z / 2,
            (bits - 1) as nat,
        )
    }
}

pub open spec fn interleave2(x: nat, y: nat, bits: nat) -> nat
    decreases bits,
{
    if bits == 0 {
        0
    } else {
        x % 2 + 2 * (y % 2) + 4 * interleave2(x / 2, y / 2, (bits - 1) as nat)
    }
}

proof fn interleave3_bound(x: nat, y: nat, z: nat, bits: nat)
    ensures
        interleave3(x, y, z, bits) < pow8(bits),
    decreases bits,
{
    if bits > 0 {
        interleave3_bound(x / 2, y / 2, z / 2, (bits - 1) as nat);
    }
}

pub open spec fn pow8(exponent: nat) -> nat
    decreases exponent,
{
    if exponent == 0 {
        1
    } else {
        8 * pow8((exponent - 1) as nat)
    }
}

fn morton3_bits(x: u32, y: u32, z: u32, bits: u32) -> (result: u64)
    requires
        bits <= 21,
    ensures
        result == interleave3(x as nat, y as nat, z as nat, bits as nat),
    decreases bits,
{
    if bits == 0 {
        return 0;
    }
    let rest: u64 = morton3_bits(x / 2, y / 2, z / 2, bits - 1);
    proof {
        interleave3_bound(x as nat / 2, y as nat / 2, z as nat / 2, (bits - 1) as nat);
        reveal_with_fuel(pow8, 22);
        pow8_grows((bits - 1) as nat, 20);
        assert(pow8(20) == 0x1000_0000_0000_0000);
    }
    (x % 2) as u64 + 2 * (y % 2) as u64 + 4 * (z % 2) as u64 + 8 * rest
}

proof fn pow8_grows(a: nat, b: nat)
    requires
        a <= b,
    ensures
        pow8(a) <= pow8(b),
    decreases b,
{
    if a < b {
        pow8_grows(a, (b - 1) as nat);
    }
}

/// The Morton code of three 21-bit coordinates.
pub fn morton3(x: u32, y: u32, z: u32) -> (result: u64)
    ensures
        result == interleave3(x as nat, y as nat, z as nat, 21),
{
    morton3_bits(x, y, z, 21)
}

/// The code tells the coordinates.
pub proof fn morton3_tells_coordinates(
    x: nat,
    y: nat,
    z: nat,
    u: nat,
    v: nat,
    w: nat,
    bits: nat,
)
    requires
        interleave3(x, y, z, bits) == interleave3(u, v, w, bits),
        x < pow2(bits),
        y < pow2(bits),
        z < pow2(bits),
        u < pow2(bits),
        v < pow2(bits),
        w < pow2(bits),
    ensures
        x == u,
        y == v,
        z == w,
    decreases bits,
{
    if bits > 0 {
        vstd::arithmetic::power2::lemma_pow2_unfold(bits);
        morton3_tells_coordinates(
            x / 2,
            y / 2,
            z / 2,
            u / 2,
            v / 2,
            w / 2,
            (bits - 1) as nat,
        );
    } else {
        vstd::arithmetic::power2::lemma2_to64();
    }
}

/// Three point numbers, in order.
pub type FaceNumbers = (usize, (usize, usize));

/// A face of a tetrahedron: the one off its first point first.
pub open spec fn numbered_face(cell: Seq<usize>, face: int) -> FaceNumbers {
    if face == 0 {
        sorted_triple(cell[1], cell[2], cell[3])
    } else if face == 1 {
        sorted_triple(cell[0], cell[3], cell[2])
    } else if face == 2 {
        sorted_triple(cell[0], cell[1], cell[3])
    } else {
        sorted_triple(cell[0], cell[2], cell[1])
    }
}

/// The faces of the cells, four to a cell.
pub open spec fn numbered_faces(cells: Seq<[usize; 4]>) -> Seq<FaceNumbers> {
    Seq::new(4 * cells.len(), |i: int| numbered_face(cells[i / 4]@, i % 4))
}

fn list_faces(cells: &Vec<[usize; 4]>) -> (result: Vec<FaceNumbers>)
    ensures
        result@ == numbered_faces(cells@),
{
    let mut keys: Vec<FaceNumbers> = Vec::new();
    let mut c: usize = 0;
    assert(keys@ =~= numbered_faces(cells@.take(0)));
    while c < cells.len()
        invariant
            c <= cells.len(),
            keys@ == numbered_faces(cells@.take(c as int)),
        decreases cells.len() - c,
    {
        let cell = cells[c];
        let ghost before = keys@;
        keys.push(sort_triple(cell[1], cell[2], cell[3]));
        keys.push(sort_triple(cell[0], cell[3], cell[2]));
        keys.push(sort_triple(cell[0], cell[1], cell[3]));
        keys.push(sort_triple(cell[0], cell[2], cell[1]));
        proof {
            let longer = cells@.take(c as int + 1);
            assert forall|i: int| 0 <= i < keys@.len() implies keys@[i] == #[trigger] numbered_faces(
                longer,
            )[i] by {
                if i < 4 * c {
                    assert(before[i] == numbered_faces(cells@.take(c as int))[i]);
                    assert(i / 4 < c);
                } else {
                    assert(i / 4 == c);
                    assert(longer[i / 4] == cell);
                    assert(i == 4 * c || i == 4 * c + 1 || i == 4 * c + 2 || i == 4 * c + 3);
                }
            }
            assert(keys@ =~= numbered_faces(longer));
        }
        c = c + 1;
    }
    assert(cells@.take(c as int) =~= cells@);
    keys
}

/// A face as it is written in a message.
pub open spec fn face_text(face: FaceNumbers) -> Seq<char> {
    "["@ + decimal(face.0 as nat) + ", "@ + decimal(face.1.0 as nat) + ", "@ + decimal(
        face.1.1 as nat,
    ) + "]"@
}

pub open spec fn crowded_message(domain: Seq<char>, face: FaceNumbers, count: nat) -> Seq<char> {
    "domain "@ + debug_text(domain) + " produced non-manifold face "@ + face_text(face)
        + " with incidence "@ + decimal(count)
}

pub open spec fn open_message(domain: Seq<char>) -> Seq<char> {
    "domain "@ + debug_text(domain) + " recovered no exterior 3D boundary facets"@
}

pub(crate) fn append_face(text: &mut String, face: &FaceNumbers)
    ensures
        final(text)@ == old(text)@ + face_text(*face),
{
    text.append("[");
    append_decimal(text, face.0 as u64);
    text.append(", ");
    append_decimal(text, face.1.0 as u64);
    text.append(", ");
    append_decimal(text, face.1.1 as u64);
    text.append("]");
    assert(text@ =~= old(text)@ + face_text(*face));
}

/// The first of the keys that more than two cells have.
pub open spec fn first_crowded(faces: Seq<FaceNumbers>, keys: Seq<FaceNumbers>, from: int) -> Option<
    FaceNumbers,
>
    decreases keys.len() - from,
{
    if from < 0 || from >= keys.len() {
        None
    } else if places_of(faces, keys[from]).len() > 2 {
        Some(keys[from])
    } else {
        first_crowded(faces, keys, from + 1)
    }
}

/// The keys, among the first, that one cell only has.
pub open spec fn lone_faces(faces: Seq<FaceNumbers>, keys: Seq<FaceNumbers>, count: int) -> Seq<
    FaceNumbers,
>
    decreases count,
{
    if count <= 0 {
        Seq::empty()
    } else {
        let rest = lone_faces(faces, keys, count - 1);
        if places_of(faces, keys[count - 1]).len() == 1 {
            rest.push(keys[count - 1])
        } else {
            rest
        }
    }
}

pub open spec fn as_face(face: FaceNumbers) -> Seq<usize> {
    seq![face.0, face.1.0, face.1.1]
}

pub open spec fn face_lists(faces: Seq<[usize; 3]>) -> Seq<Seq<usize>> {
    faces.map_values(|face: [usize; 3]| face@)
}

/// The corners of the faces.
pub open spec fn face_corners(faces: Seq<FaceNumbers>) -> Set<usize> {
    Set::new(
        |vertex: usize|
            exists|f: int| 0 <= f < faces.len() && as_face(#[trigger] faces[f]).contains(vertex),
    )
}

fn find_crowded(faces: &Vec<FaceNumbers>, groups: &Grouping<FaceNumbers>) -> (result: Option<
    (FaceNumbers, usize),
>)
    requires
        groups.gathers(faces@),
    ensures
        match result {
            Some((face, count)) => first_crowded(faces@, groups.groups.keys@, 0) == Some(face)
                && count == places_of(faces@, face).len(),
            None => first_crowded(faces@, groups.groups.keys@, 0) is None,
        },
{
    let ghost keys = groups.groups.keys@;
    let mut k: usize = 0;
    while k < groups.groups.keys.len()
        invariant
            k <= keys.len(),
            keys == groups.groups.keys@,
            groups.gathers(faces@),
            first_crowded(faces@, keys, 0) == first_crowded(faces@, keys, k as int),
        decreases keys.len() - k,
    {
        proof {
            groups.group_at(faces@, k as int);
        }
        if groups.groups.values[k].len() > 2 {
            return Some((groups.groups.keys[k], groups.groups.values[k].len()));
        }
        k = k + 1;
    }
    None
}

fn find_lone(faces: &Vec<FaceNumbers>, groups: &Grouping<FaceNumbers>) -> (result: Vec<FaceNumbers>)
    requires
        groups.gathers(faces@),
    ensures
        result@ == lone_faces(faces@, groups.groups.keys@, groups.groups.keys@.len() as int),
        forall|i: int| 0 <= i < result@.len() ==> faces@.contains(#[trigger] result@[i]),
{
    let ghost keys = groups.groups.keys@;
    let count: usize = faces.len();
    let mut list: Vec<FaceNumbers> = Vec::new();
    let mut k: usize = 0;
    while k < groups.groups.keys.len()
        invariant
            k <= keys.len(),
            count == faces@.len(),
            keys == groups.groups.keys@,
            groups.gathers(faces@),
            list@ == lone_faces(faces@, keys, k as int),
            forall|i: int| 0 <= i < list@.len() ==> faces@.contains(#[trigger] list@[i]),
        decreases keys.len() - k,
    {
        proof {
            groups.group_at(faces@, k as int);
            places_are_exact(faces@, keys[k as int]);
            let place = places_of(faces@, keys[k as int])[0];
            assert(faces@[place as int] == keys[k as int]);
        }
        if groups.groups.values[k].len() == 1 {
            list.push(groups.groups.keys[k]);
        }
        k = k + 1;
    }
    list
}

fn gather_corners(faces: &Vec<FaceNumbers>) -> (result: SortedSet<usize>)
    ensures
        result.wf(),
        result@ == face_corners(faces@),
{
    let mut set: SortedSet<usize> = SortedSet::new();
    let mut f: usize = 0;
    assert(set@ =~= face_corners(faces@.take(0)));
    while f < faces.len()
        invariant
            f <= faces.len(),
            set.wf(),
            set@ == face_corners(faces@.take(f as int)),
        decreases faces.len() - f,
    {
        let (a, (b, c)) = faces[f];
        let ghost before = set@;
        set.insert(a);
        set.insert(b);
        set.insert(c);
        proof {
            let short = faces@.take(f as int);
            let long = faces@.take(f as int + 1);
            assert(long =~= short.push(faces@[f as int]));
            let face = as_face(faces@[f as int]);
            assert forall|v: usize| #[trigger] set@.contains(v) <==> face_corners(long).contains(
                v,
            ) by {
                if before.contains(v) {
                    let q = choose|q: int|
                        0 <= q < short.len() && as_face(#[trigger] short[q]).contains(v);
                    assert(as_face(long[q]).contains(v));
                }
                assert(long[f as int] == faces@[f as int]);
                assert(face[0] == a && face[1] == b && face[2] == c);
                assert(face.contains(face[0]) && face.contains(face[1]) && face.contains(face[2]));
                if face_corners(long).contains(v) {
                    let q = choose|q: int|
                        0 <= q < long.len() && as_face(#[trigger] long[q]).contains(v);
                    if q < f {
                        assert(as_face(short[q]).contains(v));
                    } else {
                        let p = face.index_of(v);
                        assert(p == 0 || p == 1 || p == 2);
                    }
                }
            }
            assert(set@ =~= face_corners(long));
        }
        f = f + 1;
    }
    assert(faces@.take(f as int) =~= faces@);
    set
}

/// The exposed faces of a mesh, in order, with the keys that order them.
pub open spec fn audited(cells: Seq<[usize; 4]>, keys: Seq<FaceNumbers>) -> bool {
    increasing(keys) && keys.to_set() == numbered_faces(cells).to_set()
}

/// Checks that no face belongs to more than two cells, and makes the faces
/// that belong to one the boundary.
pub fn audit_mesh(domain: &str, mesh: &mut VolumeMesh) -> (result: MeshResult<()>)
    requires
        old(mesh).wf(),
    ensures
        final(mesh).wf(),
        final(mesh).points == old(mesh).points,
        final(mesh).cells == old(mesh).cells,
        final(mesh).prisms == old(mesh).prisms,
        final(mesh).pyramids == old(mesh).pyramids,
        final(mesh).lattice_vertices == old(mesh).lattice_vertices,
        final(mesh).crossings == old(mesh).crossings,
        exists|keys: Seq<FaceNumbers>| #[trigger]
            audited(old(mesh).cells@, keys) && {
                let faces = numbered_faces(old(mesh).cells@);
                let lone = lone_faces(faces, keys, keys.len() as int);
                match first_crowded(faces, keys, 0) {
                    Some(face) => fails_input(
                        result,
                        crowded_message(domain@, face, places_of(faces, face).len()),
                    ) && *final(mesh) == *old(mesh),
                    None => {
                        &&& face_lists(final(mesh).boundary_faces@) == lone.map_values(
                            |face: FaceNumbers| as_face(face),
                        )
                        &&& final(mesh).boundary_points@ == face_corners(lone)
                        &&& lone.len() == 0 ==> fails_input(result, open_message(domain@))
                        &&& lone.len() > 0 ==> result is Ok
                    },
                }
            },
{
    let faces = list_faces(&mesh.cells);
    let groups = Grouping::gather(&faces);
    let count: usize = faces.len();
    let ghost keys = groups.groups.keys@;
    let ghost cells = mesh.cells@;
    let ghost points = mesh.points@;
    proof {
        assert(faces@.len() == count);
        group_keys(faces@, groups);
        assert(audited(cells, keys));
    }
    if let Some((face, count)) = find_crowded(&faces, &groups) {
        let mut text = around("domain ", quoted(domain).as_str(), " produced non-manifold face ");
        append_face(&mut text, &face);
        text.append(" with incidence ");
        append_decimal(&mut text, count as u64);
        proof {
            assert(text@ =~= crowded_message(domain@, face, count as nat));
        }
        return Err(MeshError::InvalidInput(text));
    }
    let lone = find_lone(&faces, &groups);
    let mut list: Vec<[usize; 3]> = Vec::new();
    let mut i: usize = 0;
    while i < lone.len()
        invariant
            i <= lone.len(),
            mesh.wf(),
            faces@ == numbered_faces(cells),
            cells == mesh.cells@,
            points == mesh.points@,
            forall|k: int| 0 <= k < lone@.len() ==> faces@.contains(#[trigger] lone@[k]),
            list.len() == i,
            forall|k: int| 0 <= k < i ==> (#[trigger] list@[k])@ == as_face(lone@[k]),
            forall|k: int| 0 <= k < i ==> all_below((#[trigger] list@[k])@, points.len() as int),
        decreases lone.len() - i,
    {
        let (a, (b, c)) = lone[i];
        let face = [a, b, c];
        assert(face@ =~= as_face(lone@[i as int]));
        proof {
            assert(faces@.contains(lone@[i as int]));
            let p = faces@.index_of(lone@[i as int]);
            assert(faces@[p] == numbered_face(cells[p / 4]@, p % 4));
            assert(all_below(mesh.cells@[p / 4]@, points.len() as int));
            let cell = mesh.cells@[p / 4]@;
            assert(cell[0] < points.len() && cell[1] < points.len() && cell[2] < points.len()
                && cell[3] < points.len());
            assert(all_below(face@, points.len() as int));
        }
        list.push(face);
        i = i + 1;
    }
    let corners = gather_corners(&lone);
    let empty = list.len() == 0;
    mesh.boundary_faces = list;
    mesh.boundary_points = corners;
    assert(face_lists(mesh.boundary_faces@) =~= lone@.map_values(
        |face: FaceNumbers| as_face(face),
    ));
    if empty {
        let text = around(
            "domain ",
            quoted(domain).as_str(),
            " recovered no exterior 3D boundary facets",
        );
        return Err(MeshError::InvalidInput(text));
    }
    Ok(())
}

proof fn group_keys(faces: Seq<FaceNumbers>, groups: Grouping<FaceNumbers>)
    requires
        groups.gathers(faces),
        faces.len() <= usize::MAX,
    ensures
        increasing(groups.groups.keys@),
        groups.groups.keys@.to_set() == faces.to_set(),
{
    let names = groups.groups.keys@;
    assert(names.to_set() =~= faces.to_set()) by {
        assert forall|key: FaceNumbers| names.to_set().contains(key) == faces.to_set().contains(
            key,
        ) by {
            places_are_exact(faces, key);
            if faces.contains(key) {
                let p = faces.index_of(key);
                assert(faces[p] == key);
                assert(places_of(faces, key).contains(p as usize));
                assert(groups.groups@.dom().contains(key));
            }
            if names.contains(key) {
                assert(groups.groups@.dom().contains(key));
                let q = places_of(faces, key)[0];
                assert(faces[q as int] == key);
            }
        }
    }
}

pub open spec fn background_message(tets: nat, max_cells: u64) -> Seq<char> {
    "adaptive 3D background requires about "@ + decimal(tets)
        + " tetrahedra, exceeding the configured "@ + decimal(max_cells as nat) + " cell limit"@
}

/// The tetrahedra of a background grid: six to a cube.
pub open spec fn background_tets(counts: Seq<usize>) -> nat {
    (6 * counts[0] * counts[1] * counts[2]) as nat
}

/// Four times the cell limit, capped at the largest number.
pub open spec fn background_budget(max_cells: u64) -> int {
    if 4 * max_cells > usize::MAX {
        usize::MAX as int
    } else {
        4 * max_cells
    }
}

/// Refuses a background grid that is too large.
pub fn check_background(counts: &[usize; 3], max_cells: u64) -> (result: MeshResult<()>)
    requires
        counts[0] >= 1,
        counts[1] >= 1,
        counts[2] >= 1,
    ensures
        background_tets(counts@) > usize::MAX ==> fails_limit(
            result,
            "3D background grid size overflowed"@,
        ),
        background_budget(max_cells) < background_tets(counts@) <= usize::MAX ==> fails_limit(
            result,
            background_message(background_tets(counts@), max_cells),
        ),
        background_tets(counts@) <= background_budget(max_cells) ==> result is Ok,
{
    let ghost a = counts[0] as int;
    let ghost b = counts[1] as int;
    let ghost c = counts[2] as int;
    proof {
        assert(6 * a <= 6 * a * b <= 6 * a * b * c) by (nonlinear_arith)
            requires
                a >= 1,
                b >= 1,
                c >= 1,
        ;
    }
    let first: usize = match 6usize.checked_mul(counts[0]) {
        Some(value) => value,
        None => {
            return Err(MeshError::limit_exceeded("3D background grid size overflowed"));
        },
    };
    let second: usize = match first.checked_mul(counts[1]) {
        Some(value) => value,
        None => {
            return Err(MeshError::limit_exceeded("3D background grid size overflowed"));
        },
    };
    let tets: usize = match second.checked_mul(counts[2]) {
        Some(value) => value,
        None => {
            return Err(MeshError::limit_exceeded("3D background grid size overflowed"));
        },
    };
    let budget: usize = if max_cells > (usize::MAX / 4) as u64 {
        usize::MAX
    } else {
        max_cells as usize * 4
    };
    if tets > budget {
        return Err(
            MeshError::LimitExceeded(
                sentence2(
                    "adaptive 3D background requires about ",
                    tets as u64,
                    " tetrahedra, exceeding the configured ",
                    max_cells,
                    " cell limit",
                ),
            ),
        );
    }
    Ok(())
}

/// Refuses a mesh with too many cells.
pub fn check_cell_count(cells: usize, max_cells: u64) -> (result: MeshResult<()>)
    ensures
        cells > max_cells ==> fails_limit(
            result,
            "3D mesh exceeds the configured "@ + decimal(max_cells as nat) + " cell limit"@,
        ),
        cells <= max_cells ==> result is Ok,
{
    if cells as u64 > max_cells {
        Err(
            MeshError::LimitExceeded(
                sentence("3D mesh exceeds the configured ", max_cells, " cell limit"),
            ),
        )
    } else {
        Ok(())
    }
}

/// The most cubes of a background grid along an axis.
pub const MAX_AXIS_CUBES: usize = 1_024;

/// How often a background grid is tried.
pub const MAX_BACKGROUND_RETRIES: usize = 4;

/// The cubes along an axis at an attempt: twice as many at each, up to the
/// most.
pub open spec fn cubes_at(base: usize, attempt: int) -> int {
    let factor: int = if attempt <= 0 {
        1
    } else if attempt == 1 {
        2
    } else if attempt == 2 {
        4
    } else {
        8
    };
    if base * factor > MAX_AXIS_CUBES {
        MAX_AXIS_CUBES as int
    } else {
        base * factor
    }
}

fn cubes(base: usize, attempt: usize) -> (result: usize)
    requires
        base <= MAX_AXIS_CUBES,
    ensures
        result == cubes_at(base, attempt as int),
{
    let factor: usize = if attempt == 0 {
        1
    } else if attempt == 1 {
        2
    } else if attempt == 2 {
        4
    } else {
        8
    };
    proof {
        let b = base as int;
        let f = factor as int;
        assert(0 <= b * f <= 1_024 * 8) by (nonlinear_arith)
            requires
                0 <= b <= 1_024,
                1 <= f <= 8,
        ;
    }
    if base * factor > MAX_AXIS_CUBES {
        MAX_AXIS_CUBES
    } else {
        base * factor
    }
}

/// What to try next.
#[derive(Debug, Clone, Copy)]
pub enum Attempt {
    /// Build with so many cubes along each axis.
    Build([usize; 3]),
    /// A finer grid would have the same cubes.
    GridExhausted,
    /// Enough was tried.
    BudgetExhausted,
}

/// The attempt differs from the one before.
pub open spec fn finer(base: Seq<usize>, attempt: int) -> bool {
    attempt == 0 || cubes_at(base[0], attempt) != cubes_at(base[0], attempt - 1) || cubes_at(
        base[1],
        attempt,
    ) != cubes_at(base[1], attempt - 1) || cubes_at(base[2], attempt) != cubes_at(
        base[2],
        attempt - 1,
    )
}

/// The grid to build at an attempt.
pub fn next_attempt(base: &[usize; 3], attempt: usize) -> (result: Attempt)
    requires
        1 <= base[0] <= MAX_AXIS_CUBES,
        1 <= base[1] <= MAX_AXIS_CUBES,
        1 <= base[2] <= MAX_AXIS_CUBES,
    ensures
        match result {
            Attempt::Build(counts) => attempt < MAX_BACKGROUND_RETRIES && finer(
                base@,
                attempt as int,
            ) && counts[0] == cubes_at(base[0], attempt as int) && counts[1] == cubes_at(
                base[1],
                attempt as int,
            ) && counts[2] == cubes_at(base[2], attempt as int),
            Attempt::GridExhausted => attempt < MAX_BACKGROUND_RETRIES && !finer(
                base@,
                attempt as int,
            ),
            Attempt::BudgetExhausted => attempt >= MAX_BACKGROUND_RETRIES,
        },
{
    if attempt >= MAX_BACKGROUND_RETRIES {
        return Attempt::BudgetExhausted;
    }
    let counts: [usize; 3] = [
        cubes(base[0], attempt),
        cubes(base[1], attempt),
        cubes(base[2], attempt),
    ];
    if attempt > 0 && counts[0] == cubes(base[0], attempt - 1) && counts[1] == cubes(
        base[1],
        attempt - 1,
    ) && counts[2] == cubes(base[2], attempt - 1) {
        return Attempt::GridExhausted;
    }
    Attempt::Build(counts)
}

/// Whether a failed attempt is tried again on a finer grid: a cancelled job
/// and a limit end the search.
pub fn worth_retrying(error: &MeshError) -> (result: bool)
    ensures
        result == !(error is Cancelled || error is LimitExceeded),
{
    match error {
        MeshError::Cancelled => false,
        MeshError::LimitExceeded(_) => false,
        _ => true,
    }
}

/// The lone faces are those that one cell alone has, in order.
pub proof fn lone_faces_are_exact(
    faces: Seq<FaceNumbers>,
    keys: Seq<FaceNumbers>,
    count: int,
) -> (places: Seq<int>)
    requires
        0 <= count,
    ensures
        lone_faces(faces, keys, count).len() == places.len(),
        forall|i: int, j: int|
            0 <= i < j < places.len() ==> (#[trigger] places[i]) < (#[trigger] places[j]),
        forall|k: int| #[trigger] places.contains(k) <==> 0 <= k < count && places_of(faces, keys[k]).len() == 1,
        forall|i: int|
            0 <= i < places.len() ==> lone_faces(faces, keys, count)[i] == keys[(#[trigger] places[i])],
    decreases count,
{
    if count == 0 {
        Seq::empty()
    } else {
        let list = lone_faces_are_exact(faces, keys, count - 1);
        let last = count - 1;
        let takes = places_of(faces, keys[last]).len() == 1;
        let places = if takes {
            list.push(last)
        } else {
            list
        };
        let rest = lone_faces(faces, keys, count - 1);
        let now = lone_faces(faces, keys, count);
        
        assert forall|i: int| 0 <= i < list.len() implies 0 <= (#[trigger] list[i]) < last by {
            assert(list.contains(list[i]));
        }
        assert forall|k: int| #[trigger] places.contains(k) <==> 0 <= k < count && places_of(faces, keys[k]).len() == 1 by {
            if places.contains(k) {
                let m = places.index_of(k);
                if m < list.len() {
                    assert(list[m] == k);
                    assert(list.contains(k));
                }
            }
            if list.contains(k) {
                let m = list.index_of(k);
                assert(places[m] == k);
            }
            if k == last && takes {
                assert(places[list.len() as int] == k);
            }
        }
        assert forall|i: int| 0 <= i < places.len() implies now[i] == keys[(#[trigger] places[i])] by {
            if i < list.len() {
                assert(places[i] == list[i]);
                assert(now[i] == rest[i]);
            }
        }
        places
    }
}

/// A face is crowded exactly where more than two cells have it, and the first such is found.
pub proof fn crowded_face_is_found(faces: Seq<FaceNumbers>, keys: Seq<FaceNumbers>, from: int)
    requires
        0 <= from <= keys.len(),
    ensures
        first_crowded(faces, keys, from) is None <==> forall|k: int|
            from <= k < keys.len() ==> places_of(faces, #[trigger] keys[k]).len() <= 2,
        first_crowded(faces, keys, from) matches Some(found) ==> places_of(faces, found).len() > 2
            && exists|k: int|
            from <= k < keys.len() && #[trigger] keys[k] == found && forall|before: int|
                from <= before < k ==> places_of(faces, #[trigger] keys[before]).len() <= 2,
    decreases keys.len() - from,
{
    if from < keys.len() {
        crowded_face_is_found(faces, keys, from + 1);
        assert(keys[from] == keys[from]);
    }
}

/// From one attempt to the next the cubes along an axis double until they reach the most, never
/// get fewer, and an attempt is worth making exactly where some axis has more.
pub proof fn attempts_double_cubes(base: Seq<usize>, attempt: int, axis: int)
    requires
        1 <= attempt <= 3,
        0 <= axis < 3,
    ensures
        ({
            let before = cubes_at(base[axis], attempt - 1);
            let now = cubes_at(base[axis], attempt);
            &&& before <= now <= MAX_AXIS_CUBES
            &&& 2 * before <= MAX_AXIS_CUBES ==> now == 2 * before
            &&& 2 * before > MAX_AXIS_CUBES ==> now == MAX_AXIS_CUBES
        }),
        cubes_at(base[axis], 0) == if base[axis] > MAX_AXIS_CUBES {
            MAX_AXIS_CUBES as int
        } else {
            base[axis] as int
        },
        finer(base, attempt) <==> exists|k: int|
            0 <= k < 3 && cubes_at(#[trigger] base[k], attempt - 1) < cubes_at(base[k], attempt),
{
    attempt_doubles(base[0], attempt);
    attempt_doubles(base[1], attempt);
    attempt_doubles(base[2], attempt);
    if finer(base, attempt) {
        if cubes_at(base[0], attempt) != cubes_at(base[0], attempt - 1) {
            assert(cubes_at(base[0], attempt - 1) < cubes_at(base[0], attempt));
        } else if cubes_at(base[1], attempt) != cubes_at(base[1], attempt - 1) {
            assert(cubes_at(base[1], attempt - 1) < cubes_at(base[1], attempt));
        } else {
            assert(cubes_at(base[2], attempt - 1) < cubes_at(base[2], attempt));
        }
    }
    if exists|k: int|
        0 <= k < 3 && cubes_at(#[trigger] base[k], attempt - 1) < cubes_at(base[k], attempt) {
        let k = choose|k: int|
            0 <= k < 3 && cubes_at(#[trigger] base[k], attempt - 1) < cubes_at(base[k], attempt);
        assert(k == 0 || k == 1 || k == 2);
    }
}

proof fn attempt_doubles(base: usize, attempt: int)
    requires
        1 <= attempt <= 3,
    ensures
        cubes_at(base, attempt - 1) <= cubes_at(base, attempt) <= MAX_AXIS_CUBES,
        2 * cubes_at(base, attempt - 1) <= MAX_AXIS_CUBES ==> cubes_at(base, attempt) == 2 * cubes_at(
            base,
            attempt - 1,
        ),
        2 * cubes_at(base, attempt - 1) > MAX_AXIS_CUBES ==> cubes_at(base, attempt)
            == MAX_AXIS_CUBES,
        cubes_at(base, 0) == if base > MAX_AXIS_CUBES {
            MAX_AXIS_CUBES as int
        } else {
            base as int
        },
{
    assert(attempt == 1 || attempt == 2 || attempt == 3);
    assert(base * 1 == base as int);
    assert(base * 2 == 2 * base);
    assert(base * 4 == 4 * base);
    assert(base * 8 == 8 * base);
}

} // verus!
