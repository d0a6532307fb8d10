//! Writing a volume mesh out: the order of its elements, which element owns a
//! boundary face, and how many bytes a run of elements takes.

use vstd::prelude::*;
use vstd::string::StringExecFns;

use crate::background::append_face;
#[allow(unused_imports)]
use crate::background::face_text;
use crate::chunk::{times, ChunkElement, ChunkPoint};
#[allow(unused_imports)]
use crate::chunk::held;
#[allow(unused_imports)]
use crate::emission::point_lists;
use crate::error::{MeshError, MeshResult};
#[allow(unused_imports)]
use crate::error::{fails_input, fails_limit};
use crate::partition::Tile;
use crate::sorted::{sort_keys, Key};
#[allow(unused_imports)]
use crate::sorted::{ordered, rearranged};
use crate::text::append_decimal;
#[allow(unused_imports)]
use crate::text::decimal;
use crate::volume::VolumeMesh;

verus! {

/// An element of a volume mesh: its shape and its place in the mesh's list.
#[derive(Debug, Clone, Copy, PartialEq, Eq, Structural)]
pub enum VolumeElement {
    Tet(usize),
    Prism(usize),
    Pyramid(usize),
}

impl VolumeElement {
    pub open spec fn rank(self) -> int {
        match self {
            VolumeElement::Tet(_) => 0,
            VolumeElement::Prism(_) => 1,
            VolumeElement::Pyramid(_) => 2,
        }
    }

    pub open spec fn place(self) -> usize {
        match self {
            VolumeElement::Tet(index) => index,
            VolumeElement::Prism(index) => index,
            VolumeElement::Pyramid(index) => index,
        }
    }

    /// The element stands in the mesh.
    pub open spec fn stands_in(self, mesh: VolumeMesh) -> bool {
        match self {
            VolumeElement::Tet(index) => index < mesh.cells@.len(),
            VolumeElement::Prism(index) => index < mesh.prisms@.len(),
            VolumeElement::Pyramid(index) => index < mesh.pyramids@.len(),
        }
    }

    pub open spec fn corners(self, mesh: VolumeMesh) -> Seq<usize> {
        match self {
            VolumeElement::Tet(index) => mesh.cells@[index as int]@,
            VolumeElement::Prism(index) => mesh.prisms@[index as int]@,
            VolumeElement::Pyramid(index) => mesh.pyramids@[index as int]@,
        }
    }

    pub fn vertices(self, mesh: &VolumeMesh) -> (result: Vec<usize>)
        requires
            self.stands_in(*mesh),
        ensures
            result@ == self.corners(*mesh),
            4 <= result@.len() <= 6,
    {
        let mut list: Vec<usize> = Vec::new();
        match self {
            VolumeElement::Tet(index) => {
                let cell = mesh.cells[index];
                let mut i: usize = 0;
                while i < 4
                    invariant
                        i <= 4,
                        list@ == cell@.take(i as int),
                    decreases 4 - i,
                {
                    list.push(cell[i]);
                    assert(list@ =~= cell@.take(i as int + 1));
                    i = i + 1;
                }
                assert(cell@.take(4) =~= cell@);
            },
            VolumeElement::Prism(index) => {
                let cell = mesh.prisms[index];
                let mut i: usize = 0;
                while i < 6
                    invariant
                        i <= 6,
                        list@ == cell@.take(i as int),
                    decreases 6 - i,
                {
                    list.push(cell[i]);
                    assert(list@ =~= cell@.take(i as int + 1));
                    i = i + 1;
                }
                assert(cell@.take(6) =~= cell@);
            },
            VolumeElement::Pyramid(index) => {
                let cell = mesh.pyramids[index];
                let mut i: usize = 0;
                while i < 5
                    invariant
                        i <= 5,
                        list@ == cell@.take(i as int),
                    decreases 5 - i,
                {
                    list.push(cell[i]);
                    assert(list@ =~= cell@.take(i as int + 1));
                    i = i + 1;
                }
                assert(cell@.take(5) =~= cell@);
            },
        }
        list
    }

    pub fn element_type(self) -> (result: &'static str)
        ensures
            result@ == (match self {
                VolumeElement::Tet(_) => "tet4"@,
                VolumeElement::Prism(_) => "prism6"@,
                VolumeElement::Pyramid(_) => "pyramid5"@,
            }),
    {
        match self {
            VolumeElement::Tet(_) => "tet4",
            VolumeElement::Prism(_) => "prism6",
            VolumeElement::Pyramid(_) => "pyramid5",
        }
    }
}

impl Key for VolumeElement {
    /// Tetrahedra come first, then prisms, then pyramids.
    open spec fn before(self, other: Self) -> bool {
        self.rank() < other.rank() || (self.rank() == other.rank() && self.place() < other.place())
    }

    proof fn irreflexive(a: Self) {
    }

    proof fn transitive(a: Self, b: Self, c: Self) {
    }

    proof fn total(a: Self, b: Self) {
    }

    fn precedes(&self, other: &Self) -> (result: bool) {
        match (self, other) {
            (VolumeElement::Tet(a), VolumeElement::Tet(b)) => *a < *b,
            (VolumeElement::Tet(_), _) => true,
            (VolumeElement::Prism(a), VolumeElement::Prism(b)) => *a < *b,
            (VolumeElement::Prism(_), VolumeElement::Pyramid(_)) => true,
            (VolumeElement::Pyramid(a), VolumeElement::Pyramid(b)) => *a < *b,
            _ => false,
        }
    }
}

/// The element at a place when tetrahedra, prisms and pyramids follow one
/// another.
pub open spec fn element_at(mesh: VolumeMesh, place: int) -> VolumeElement {
    let tets = mesh.cells@.len();
    let prisms = mesh.prisms@.len();
    if place < tets {
        VolumeElement::Tet(place as usize)
    } else if place < tets + prisms {
        VolumeElement::Prism((place - tets) as usize)
    } else {
        VolumeElement::Pyramid((place - tets - prisms) as usize)
    }
}

pub open spec fn element_total(mesh: VolumeMesh) -> nat {
    mesh.cells@.len() + mesh.prisms@.len() + mesh.pyramids@.len()
}

/// The elements of a mesh: tetrahedra, then prisms, then pyramids.
pub fn list_elements(mesh: &VolumeMesh) -> (result: Vec<VolumeElement>)
    ensures
        result@ == Seq::new(element_total(*mesh), |i: int| element_at(*mesh, i)),
        forall|i: int| 0 <= i < result@.len() ==> (#[trigger] result@[i]).stands_in(*mesh),
{
    let mut list: Vec<VolumeElement> = Vec::new();
    let mut i: usize = 0;
    while i < mesh.cells.len()
        invariant
            i <= mesh.cells@.len(),
            list.len() == i,
            forall|k: int| 0 <= k < i ==> #[trigger] list@[k] == element_at(*mesh, k),
        decreases mesh.cells@.len() - i,
    {
        list.push(VolumeElement::Tet(i));
        i = i + 1;
    }
    let ghost tets = mesh.cells@.len();
    let mut j: usize = 0;
    while j < mesh.prisms.len()
        invariant
            tets == mesh.cells@.len(),
            j <= mesh.prisms@.len(),
            list.len() == tets + j,
            forall|k: int| 0 <= k < tets + j ==> #[trigger] list@[k] == element_at(*mesh, k),
        decreases mesh.prisms@.len() - j,
    {
        list.push(VolumeElement::Prism(j));
        j = j + 1;
    }
    let ghost prisms = mesh.prisms@.len();
    let mut p: usize = 0;
    while p < mesh.pyramids.len()
        invariant
            tets == mesh.cells@.len(),
            prisms == mesh.prisms@.len(),
            p <= mesh.pyramids@.len(),
            list.len() == tets + prisms + p,
            forall|k: int|
                0 <= k < tets + prisms + p ==> #[trigger] list@[k] == element_at(*mesh, k),
        decreases mesh.pyramids@.len() - p,
    {
        list.push(VolumeElement::Pyramid(p));
        p = p + 1;
    }
    assert(list@ =~= Seq::new(element_total(*mesh), |i: int| element_at(*mesh, i)));
    list
}

/// The elements paired with their codes.
pub open spec fn coded(elements: Seq<VolumeElement>, codes: Seq<u64>) -> Seq<(u64, VolumeElement)> {
    Seq::new(elements.len(), |i: int| (codes[i], elements[i]))
}

/// The list holds the elements by code, then by element.
pub open spec fn by_code(
    elements: Seq<VolumeElement>,
    codes: Seq<u64>,
    list: Seq<(u64, VolumeElement)>,
) -> bool {
    ordered(list) && list.to_multiset() == coded(elements, codes).to_multiset()
}

/// The elements sorted by code, those with one code by element.
pub fn order_elements(elements: &Vec<VolumeElement>, codes: &Vec<u64>) -> (result: Vec<VolumeElement>)
    requires
        codes@.len() == elements@.len(),
    ensures
        exists|list: Seq<(u64, VolumeElement)>|
            #[trigger] by_code(elements@, codes@, list) && result@.len() == list.len()
                && forall|i: int| 0 <= i < list.len() ==> #[trigger] result@[i] == list[i].1,
        result@.len() == elements@.len(),
{
    let mut list: Vec<(u64, VolumeElement)> = Vec::new();
    let mut i: usize = 0;
    while i < elements.len()
        invariant
            i <= elements.len(),
            codes@.len() == elements@.len(),
            list.len() == i,
            forall|k: int| 0 <= k < i ==> #[trigger] list@[k] == (codes@[k], elements@[k]),
        decreases elements.len() - i,
    {
        list.push((codes[i], elements[i]));
        i = i + 1;
    }
    assert(list@ =~= coded(elements@, codes@));
    sort_keys(&mut list);
    proof {
        rearranged(coded(elements@, codes@), list@);
    }
    let mut result: Vec<VolumeElement> = Vec::new();
    let mut j: usize = 0;
    while j < list.len()
        invariant
            j <= list.len(),
            result.len() == j,
            forall|k: int| 0 <= k < j ==> #[trigger] result@[k] == list@[k].1,
        decreases list.len() - j,
    {
        result.push(list[j].1);
        j = j + 1;
    }
    assert(by_code(elements@, codes@, list@));
    result
}

/// The corners of each element.
pub fn element_corners(mesh: &VolumeMesh, elements: &Vec<VolumeElement>) -> (result: Vec<Vec<usize>>)
    requires
        forall|i: int| 0 <= i < elements@.len() ==> (#[trigger] elements@[i]).stands_in(*mesh),
    ensures
        result@.len() == elements@.len(),
        forall|i: int|
            0 <= i < elements@.len() ==> (#[trigger] result@[i])@ == elements@[i].corners(*mesh)
                && 4 <= result@[i]@.len() <= 6,
{
    let mut list: Vec<Vec<usize>> = Vec::new();
    let mut i: usize = 0;
    while i < elements.len()
        invariant
            i <= elements.len(),
            forall|k: int| 0 <= k < elements@.len() ==> (#[trigger] elements@[k]).stands_in(*mesh),
            list.len() == i,
            forall|k: int|
                0 <= k < i ==> (#[trigger] list@[k])@ == elements@[k].corners(*mesh) && 4
                    <= list@[k]@.len() <= 6,
        decreases elements.len() - i,
    {
        let corners = elements[i].vertices(mesh);
        list.push(corners);
        i = i + 1;
    }
    list
}

/// The element has all three corners of the face.
pub open spec fn has_face(corners: Seq<usize>, face: [usize; 3]) -> bool {
    corners.contains(face[0]) && corners.contains(face[1]) && corners.contains(face[2])
}

/// The first element, from a place on, with all corners of the face.
pub open spec fn face_owner(elements: Seq<Seq<usize>>, face: [usize; 3], from: int) -> Option<int>
    decreases elements.len() - from,
{
    if from < 0 || from >= elements.len() {
        None
    } else if has_face(elements[from], face) {
        Some(from)
    } else {
        face_owner(elements, face, from + 1)
    }
}

/// The first face, from a place on, that no element has.
pub open spec fn first_orphan(elements: Seq<Seq<usize>>, faces: Seq<[usize; 3]>, from: int) -> Option<int>
    decreases faces.len() - from,
{
    if from < 0 || from >= faces.len() {
        None
    } else if face_owner(elements, faces[from], 0) is None {
        Some(from)
    } else {
        first_orphan(elements, faces, from + 1)
    }
}

pub open spec fn orphan_message(face: [usize; 3]) -> Seq<char> {
    "3D boundary facet "@ + face_text((face[0], (face[1], face[2])))
        + " has no owning volume element"@
}

fn has_number(list: &Vec<usize>, value: usize) -> (result: bool)
    ensures
        result == list@.contains(value),
{
    let mut i: usize = 0;
    while i < list.len()
        invariant
            i <= list.len(),
            forall|k: int| 0 <= k < i ==> #[trigger] list@[k] != value,
        decreases list.len() - i,
    {
        if list[i] == value {
            assert(list@[i as int] == value);
            return true;
        }
        i = i + 1;
    }
    false
}

fn find_owner(elements: &Vec<Vec<usize>>, face: &[usize; 3]) -> (result: Option<usize>)
    ensures
        match face_owner(point_lists(elements@), *face, 0) {
            Some(place) => (result matches Some(found) && found == place && found
                < elements@.len()),
            None => result is None,
        },
{
    let ghost lists = point_lists(elements@);
    let mut i: usize = 0;
    while i < elements.len()
        invariant
            i <= elements.len(),
            lists == point_lists(elements@),
            face_owner(lists, *face, 0) == face_owner(lists, *face, i as int),
        decreases elements.len() - i,
    {
        let corners = &elements[i];
        assert(lists[i as int] == corners@);
        if has_number(corners, face[0]) && has_number(corners, face[1]) && has_number(
            corners,
            face[2],
        ) {
            return Some(i);
        }
        i = i + 1;
    }
    None
}

/// The element that each boundary face belongs to: the first one that has all
/// of its corners.
pub fn boundary_owners(elements: &Vec<Vec<usize>>, faces: &Vec<[usize; 3]>) -> (result: MeshResult<
    Vec<usize>,
>)
    ensures
        match first_orphan(point_lists(elements@), faces@, 0) {
            Some(face) => fails_input(result, orphan_message(faces@[face])),
            None => result matches Ok(owners) && owners@.len() == faces@.len() && forall|f: int|
                0 <= f < faces@.len() ==> face_owner(point_lists(elements@), faces@[f], 0) == Some(
                    #[trigger] owners@[f] as int,
                ) && owners@[f] < elements@.len(),
        },
{
    let ghost lists = point_lists(elements@);
    let mut owners: Vec<usize> = Vec::new();
    let mut f: usize = 0;
    while f < faces.len()
        invariant
            f <= faces.len(),
            lists == point_lists(elements@),
            first_orphan(lists, faces@, 0) == first_orphan(lists, faces@, f as int),
            owners.len() == f,
            forall|k: int|
                0 <= k < f ==> face_owner(lists, faces@[k], 0) == Some(
                    #[trigger] owners@[k] as int,
                ) && owners@[k] < elements@.len(),
        decreases faces.len() - f,
    {
        match find_owner(elements, &faces[f]) {
            Some(owner) => {
                owners.push(owner);
            },
            None => {
                let face = faces[f];
                let mut text = "3D boundary facet ".to_owned();
                append_face(&mut text, &(face[0], (face[1], face[2])));
                text.append(" has no owning volume element");
                assert(text@ =~= orphan_message(face));
                return Err(MeshError::InvalidInput(text));
            },
        }
        f = f + 1;
    }
    Ok(owners)
}

/// The tile that holds an element.
pub open spec fn tile_of(tiles: Seq<Tile>, element: int, from: int) -> int
    decreases tiles.len() - from,
{
    if from < 0 || from >= tiles.len() || tiles[from].start <= element < tiles[from].end {
        from
    } else {
        tile_of(tiles, element, from + 1)
    }
}

/// The place of the tile that holds an element; the number of tiles where
/// none does.
pub fn find_tile(tiles: &Vec<Tile>, element: usize) -> (result: usize)
    ensures
        result == tile_of(tiles@, element as int, 0),
        result <= tiles@.len(),
{
    let mut i: usize = 0;
    while i < tiles.len()
        invariant
            i <= tiles.len(),
            tile_of(tiles@, element as int, 0) == tile_of(tiles@, element as int, i as int),
        decreases tiles.len() - i,
    {
        if tiles[i].start <= element && element < tiles[i].end {
            return i;
        }
        i = i + 1;
    }
    i
}

/// The words for an element's type have as many letters.
pub open spec fn name_bytes(corners: nat) -> nat {
    if corners == 4 {
        4
    } else if corners == 5 {
        8
    } else {
        6
    }
}

/// What an element adds to the decoded bytes of its tile.
pub open spec fn stored_bytes(corners: nat) -> nat {
    vstd::layout::size_of::<ChunkElement>() + name_bytes(corners) + corners * 8
}

/// The decoded bytes of the first elements of a tile.
pub open spec fn stored_total(elements: Seq<Seq<usize>>, start: int, count: int) -> nat
    decreases count,
{
    if count <= 0 {
        0
    } else {
        stored_total(elements, start, count - 1) + stored_bytes(elements[start + count - 1].len())
    }
}

/// The corners of the first elements of a tile, each as often as it is used.
pub open spec fn corner_total(elements: Seq<Seq<usize>>, start: int, count: int) -> nat
    decreases count,
{
    if count <= 0 {
        0
    } else {
        corner_total(elements, start, count - 1) + elements[start + count - 1].len()
    }
}

/// How many of the first faces belong to the tile.
pub open spec fn faces_owned(owners: Seq<usize>, tile: Tile, count: int) -> nat
    decreases count,
{
    if count <= 0 {
        0
    } else {
        faces_owned(owners, tile, count - 1) + (if tile.start <= owners[count - 1] < tile.end {
            1nat
        } else {
            0nat
        })
    }
}

/// The bytes that writing a tile takes besides the chunk itself.
pub open spec fn work_bytes(vertices: nat, corners: nat) -> nat {
    vertices * 64 + corners * 24
}

/// The bytes that a tile takes: its points, its elements, its boundary faces
/// and what writing it takes.
pub open spec fn tile_bytes(vertices: nat, elements: Seq<Seq<usize>>, owners: Seq<usize>, tile: Tile) -> nat {
    let count = tile.end - tile.start;
    vertices * (vstd::layout::size_of::<ChunkPoint>() + 8) + stored_total(
        elements,
        tile.start as int,
        count,
    ) + faces_owned(owners, tile, owners.len() as int) * (vstd::layout::size_of::<ChunkElement>()
        + 4 + 3 * 8 + 8) + work_bytes(vertices, corner_total(elements, tile.start as int, count))
}

/// The bytes that writing a run of elements takes besides the chunk itself.
pub fn estimated_volume_bytes(vertices: usize, elements: &Vec<Vec<usize>>, tile: Tile) -> (result: usize)
    requires
        tile.start <= tile.end <= elements@.len(),
    ensures
        result == held(
            work_bytes(
                vertices as nat,
                corner_total(
                    point_lists(elements@),
                    tile.start as int,
                    tile.end - tile.start,
                ),
            ),
        ),
{
    let ghost lists = point_lists(elements@);
    let mut total: usize = 0;
    let mut i: usize = tile.start;
    while i < tile.end
        invariant
            tile.start <= i <= tile.end <= elements@.len(),
            lists == point_lists(elements@),
            total == held(
                corner_total(lists, tile.start as int, i - tile.start) * 24,
            ),
        decreases tile.end - i,
    {
        assert(lists[i as int] == elements@[i as int]@);
        let part: usize = times(elements[i].len(), 24);
        total = total.saturating_add(part);
        i = i + 1;
    }
    times(vertices, 64).saturating_add(total)
}

fn count_owned(owners: &Vec<usize>, tile: Tile) -> (result: usize)
    ensures
        result == faces_owned(owners@, tile, owners@.len() as int),
{
    let mut count: usize = 0;
    let mut i: usize = 0;
    while i < owners.len()
        invariant
            i <= owners.len(),
            count <= i,
            count == faces_owned(owners@, tile, i as int),
        decreases owners.len() - i,
    {
        if tile.start <= owners[i] && owners[i] < tile.end {
            count = count + 1;
        }
        i = i + 1;
    }
    count
}

fn stored_size(corners: usize) -> (result: usize)
    ensures
        result == held(stored_bytes(corners as nat)),
{
    let name: usize = if corners == 4 {
        4
    } else if corners == 5 {
        8
    } else {
        6
    };
    std::mem::size_of::<ChunkElement>().saturating_add(name).saturating_add(times(corners, 8))
}

/// The bytes that a tile takes, given how many points it uses.
pub fn volume_tile_bytes(
    vertices: usize,
    elements: &Vec<Vec<usize>>,
    owners: &Vec<usize>,
    tile: Tile,
) -> (result: usize)
    requires
        tile.start <= tile.end <= elements@.len(),
    ensures
        result == held(tile_bytes(vertices as nat, point_lists(elements@), owners@, tile)),
{
    let ghost lists = point_lists(elements@);
    let mut cells: usize = 0;
    let mut i: usize = tile.start;
    while i < tile.end
        invariant
            tile.start <= i <= tile.end <= elements@.len(),
            lists == point_lists(elements@),
            cells == held(stored_total(lists, tile.start as int, i - tile.start)),
        decreases tile.end - i,
    {
        assert(lists[i as int] == elements@[i as int]@);
        cells = cells.saturating_add(stored_size(elements[i].len()));
        i = i + 1;
    }
    let per_point: usize = std::mem::size_of::<ChunkPoint>().saturating_add(8);
    let per_face: usize = std::mem::size_of::<ChunkElement>().saturating_add(36);
    let owned: usize = count_owned(owners, tile);
    let points: usize = times(vertices, per_point);
    let faces: usize = times(owned, per_face);
    proof {
        capped_product(
            vertices as nat,
            vstd::layout::size_of::<ChunkPoint>() + 8,
            per_point as nat,
        );
        capped_product(
            owned as nat,
            vstd::layout::size_of::<ChunkElement>() + 36,
            per_face as nat,
        );
    }
    points.saturating_add(cells).saturating_add(faces).saturating_add(
        estimated_volume_bytes(vertices, elements, tile),
    )
}

/// A capped factor does not change a capped product.
proof fn capped_product(a: nat, b: nat, c: nat)
    requires
        c == held(b),
    ensures
        held(a * c) == held(a * b),
{
    if b > usize::MAX {
        if a >= 1 {
            assert(a * c >= c) by (nonlinear_arith)
                requires
                    a >= 1,
            ;
            assert(a * b >= b) by (nonlinear_arith)
                requires
                    a >= 1,
            ;
        } else {
            assert(a * c == 0 && a * b == 0) by (nonlinear_arith)
                requires
                    a == 0,
            ;
        }
    }
}

pub open spec fn too_heavy_message(chunk_id: u32, active: u64, target: usize) -> Seq<char> {
    "3D DistMesh chunk "@ + decimal(chunk_id as nat) + " requires "@ + decimal(active as nat)
        + " bytes, exceeding the configured "@ + decimal(target as nat) + " byte chunk target"@
}

/// Refuses a chunk that takes more bytes than it may.
pub fn check_chunk_weight(chunk_id: u32, active: u64, target: usize) -> (result: MeshResult<()>)
    ensures
        active > target ==> fails_limit(result, too_heavy_message(chunk_id, active, target)),
        active <= target ==> result is Ok,
{
    if active > target as u64 {
        let mut text = "3D DistMesh chunk ".to_owned();
        append_decimal(&mut text, chunk_id as u64);
        text.append(" requires ");
        append_decimal(&mut text, active);
        text.append(" bytes, exceeding the configured ");
        append_decimal(&mut text, target as u64);
        text.append(" byte chunk target");
        assert(text@ =~= too_heavy_message(chunk_id, active, target));
        return Err(MeshError::LimitExceeded(text));
    }
    Ok(())
}

/// The elements follow one another: every place has one that stands in the mesh, every
/// element that does has a place, and the places follow the order of elements.
pub proof fn elements_have_their_places(mesh: VolumeMesh, a: int, b: int)
    requires
        0 <= a < b < element_total(mesh),
        element_total(mesh) <= usize::MAX,
    ensures
        element_at(mesh, a).stands_in(mesh),
        element_at(mesh, b).stands_in(mesh),
        element_at(mesh, a).before(element_at(mesh, b)),
        forall|element: VolumeElement|
            #[trigger] element.stands_in(mesh) ==> exists|place: int|
                0 <= place < element_total(mesh) && #[trigger] element_at(mesh, place) == element,
{
    assert forall|element: VolumeElement| #[trigger] element.stands_in(mesh) implies exists|place:
        int|
        0 <= place < element_total(mesh) && #[trigger] element_at(mesh, place) == element by {
        let place = match element {
            VolumeElement::Tet(index) => index as int,
            VolumeElement::Prism(index) => mesh.cells@.len() + index,
            VolumeElement::Pyramid(index) => mesh.cells@.len() + mesh.prisms@.len() + index,
        };
        assert(element_at(mesh, place) == element);
    }
}

/// The owner of a face is the first element that has all its corners.
pub proof fn owner_has_face(elements: Seq<Seq<usize>>, face: [usize; 3], from: int)
    requires
        0 <= from <= elements.len(),
    ensures
        match face_owner(elements, face, from) {
            Some(place) => from <= place < elements.len() && (forall|k: int|
                0 <= k < 3 ==> elements[place].contains(#[trigger] face@[k])) && forall|other: int|
                from <= other < place ==> exists|k: int|
                    0 <= k < 3 && !(#[trigger] elements[other]).contains(#[trigger] face@[k]),
            None => forall|other: int|
                from <= other < elements.len() ==> exists|k: int|
                    0 <= k < 3 && !(#[trigger] elements[other]).contains(#[trigger] face@[k]),
        },
    decreases elements.len() - from,
{
    if from < elements.len() && !has_face(elements[from], face) {
        owner_has_face(elements, face, from + 1);
        let k: int = if !elements[from].contains(face@[0]) {
            0
        } else if !elements[from].contains(face@[1]) {
            1
        } else {
            2
        };
        assert(!elements[from].contains(face@[k]));
    }
}

/// The first face without an owner is found.
pub proof fn first_orphan_has_no_owner(elements: Seq<Seq<usize>>, faces: Seq<[usize; 3]>, from: int)
    requires
        0 <= from <= faces.len(),
    ensures
        match first_orphan(elements, faces, from) {
            Some(place) => from <= place < faces.len() && face_owner(elements, faces[place], 0) is None
                && forall|i: int|
                from <= i < place ==> face_owner(elements, #[trigger] faces[i], 0) is Some,
            None => forall|i: int|
                from <= i < faces.len() ==> face_owner(elements, #[trigger] faces[i], 0) is Some,
        },
    decreases faces.len() - from,
{
    if from < faces.len() {
        first_orphan_has_no_owner(elements, faces, from + 1);
    }
}

/// The tile of an element holds it.
pub proof fn tile_holds_element(tiles: Seq<Tile>, element: int, from: int)
    requires
        0 <= from <= tiles.len(),
    ensures
        from <= tile_of(tiles, element, from) <= tiles.len(),
        tile_of(tiles, element, from) < tiles.len() ==> tiles[tile_of(
            tiles,
            element,
            from,
        )].start <= element < tiles[tile_of(tiles, element, from)].end,
        forall|i: int|
            from <= i < tile_of(tiles, element, from) ==> !((#[trigger] tiles[i]).start <= element
                < tiles[i].end),
    decreases tiles.len() - from,
{
    if from < tiles.len() && !(tiles[from].start <= element < tiles[from].end) {
        tile_holds_element(tiles, element, from + 1);
    }
}

/// The bytes counted for the name of an element's type are its letters.
pub proof fn names_take_their_letters(corners: nat)
    requires
        4 <= corners <= 6,
    ensures
        name_bytes(corners) == crate::emission::element_name(3, corners).len(),
{
    reveal_strlit("tet4");
    reveal_strlit("pyramid5");
    reveal_strlit("prism6");
}

/// What a tile takes is what its parts take: bytes and corners of the elements add up.
pub proof fn tile_parts_add_up(elements: Seq<Seq<usize>>, start: int, first: int, second: int)
    requires
        0 <= first,
        0 <= second,
    ensures
        stored_total(elements, start, first + second) == stored_total(elements, start, first)
            + stored_total(elements, start + first, second),
        corner_total(elements, start, first + second) == corner_total(elements, start, first)
            + corner_total(elements, start + first, second),
        corner_total(elements, start, 1) == elements[start].len(),
        stored_total(elements, start, 1) == vstd::layout::size_of::<ChunkElement>() + name_bytes(
            elements[start].len(),
        ) + 8 * elements[start].len(),
    decreases second,
{
    reveal_with_fuel(stored_total, 2);
    reveal_with_fuel(corner_total, 2);
    if second > 0 {
        tile_parts_add_up(elements, start, first, second - 1);
        assert(start + (first + second) - 1 == start + first + second - 1);
    }
}

} // verus!
