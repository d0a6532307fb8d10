//! Mesh chunks: numbered points and elements, complete in themselves.

use vstd::prelude::*;
use vstd::string::StringExecFns;

use crate::error::{MeshError, MeshResult};
#[allow(unused_imports)]
use crate::error::{fails_input, fails_limit};
use crate::number::{is_finite_vector, Vector3};
#[allow(unused_imports)]
use crate::number::all_finite;
use crate::schema::{
    element_dimension, expected_points, Bounds3, MAX_BATCH_BYTES, MAX_BATCH_ROWS,
};
#[allow(unused_imports)]
use crate::schema::{arity_ok, dimension_of, points_of};
use crate::sorted::{SortedMap, SortedSet};
use crate::text::{append_decimal, join, quoted, same_text, sentence2};
#[allow(unused_imports)]
use crate::text::{debug_text, decimal};

verus! {

pub const POINT_ORDINAL: u32 = 0x0000_0000;

pub const EDGE_ORDINAL: u32 = 0x4000_0000;

pub const FACE_ORDINAL: u32 = 0x8000_0000;

pub const CELL_ORDINAL: u32 = 0xc000_0000;

pub const ORDINAL_MASK: u32 = 0x3fff_ffff;

/// The number of a mesh entity: the chunk that owns it in the upper half, its
/// kind and its place among the chunk's entities of that kind in the lower.
#[derive(Debug, Clone, Copy, PartialEq, Eq, Hash, Ord, Structural)]
pub struct MeshId {
    pub bits: u64,
}

impl MeshId {
    pub fn from_raw(raw: u64) -> (result: MeshId)
        ensures
            result.bits == raw,
    {
        MeshId { bits: raw }
    }

    pub fn raw(self) -> (result: u64)
        ensures
            result == self.bits,
    {
        self.bits
    }

    pub open spec fn chunk(self) -> int {
        self.bits as int / 0x1_0000_0000
    }

    /// The lower half.
    pub open spec fn low(self) -> int {
        self.bits as int % 0x1_0000_0000
    }

    pub fn owner_chunk(self) -> (result: u32)
        ensures
            result == self.chunk(),
    {
        (self.bits / 0x1_0000_0000) as u32
    }

    /// A chunk has a nonzero number, an entity a nonzero place that fits.
    pub open spec fn assignable(chunk: u32, ordinal: u32) -> bool {
        chunk != 0 && ordinal != 0 && ordinal <= ORDINAL_MASK
    }

    /// The number of the entity of a kind at a place in a chunk.
    pub open spec fn of(chunk: u32, namespace: u32, ordinal: u32) -> MeshId {
        MeshId { bits: (chunk * 0x1_0000_0000 + namespace + ordinal) as u64 }
    }

    pub open spec fn namespace(value: u32) -> bool {
        value == POINT_ORDINAL || value == EDGE_ORDINAL || value == FACE_ORDINAL || value
            == CELL_ORDINAL
    }

    /// The number of the entity of a kind at a place in a chunk; there is none
    /// for chunk 0, for place 0, and for a place that does not fit.
    pub fn new(chunk: u32, namespace: u32, ordinal: u32) -> (result: MeshResult<MeshId>)
        requires
            MeshId::namespace(namespace),
        ensures
            MeshId::assignable(chunk, ordinal) ==> result == Ok::<MeshId, MeshError>(
                MeshId::of(chunk, namespace, ordinal),
            ),
            !MeshId::assignable(chunk, ordinal) ==> fails_limit(
                result,
                "mesh chunk/entity ID space exhausted"@,
            ),
    {
        if chunk == 0 || ordinal == 0 || ordinal > ORDINAL_MASK {
            return Err(MeshError::limit_exceeded("mesh chunk/entity ID space exhausted"));
        }
        Ok(MeshId { bits: chunk as u64 * 0x1_0000_0000 + namespace as u64 + ordinal as u64 })
    }
}

/// An entity's number tells its chunk, its kind and its place.
pub proof fn id_tells_entity(
    chunk: u32,
    namespace: u32,
    ordinal: u32,
    other_chunk: u32,
    other_namespace: u32,
    other_ordinal: u32,
)
    requires
        MeshId::assignable(chunk, ordinal),
        MeshId::assignable(other_chunk, other_ordinal),
        MeshId::namespace(namespace),
        MeshId::namespace(other_namespace),
    ensures
        MeshId::of(chunk, namespace, ordinal).chunk() == chunk,
        MeshId::of(chunk, namespace, ordinal).low() == namespace + ordinal,
        MeshId::of(chunk, namespace, ordinal) == MeshId::of(
            other_chunk,
            other_namespace,
            other_ordinal,
        ) ==> chunk == other_chunk && namespace == other_namespace && ordinal == other_ordinal,
{
}

/// A point of a chunk; points of other chunks come along as copies.
#[derive(Debug)]
pub struct ChunkPoint {
    pub id: MeshId,
    pub owner_chunk_id: u32,
    pub position: Vector3,
    pub classification: String,
    pub tag_ids: Vec<u64>,
}

impl ChunkPoint {
    pub fn is_ghost_in(&self, chunk_id: u32) -> (result: bool)
        ensures
            result == (self.owner_chunk_id != chunk_id),
    {
        self.owner_chunk_id != chunk_id
    }
}

/// An edge, a face or a cell of a chunk.
#[derive(Debug)]
pub struct ChunkElement {
    pub id: MeshId,
    pub element_type: String,
    pub point_ids: Vec<MeshId>,
    pub edge_ids: Vec<MeshId>,
    pub face_ids: Vec<MeshId>,
    pub tag_ids: Vec<u64>,
    pub owner_cell_id: Option<MeshId>,
    pub neighbor_cell_id: Option<MeshId>,
    pub zone_id: Option<u64>,
    pub source_id: Option<u64>,
    pub boundary: bool,
}

#[derive(Debug)]
pub struct MeshChunk {
    pub id: u32,
    pub bounds: Bounds3,
    pub points: Vec<ChunkPoint>,
    pub edges: Vec<ChunkElement>,
    pub faces: Vec<ChunkElement>,
    pub cells: Vec<ChunkElement>,
}

/// How many of the elements have that dimension.
pub open spec fn count_dimension(elements: Seq<ChunkElement>, dimension: u8) -> nat
    decreases elements.len(),
{
    if elements.len() == 0 {
        0
    } else {
        count_dimension(elements.drop_last(), dimension) + (if dimension_of(
            elements.last().element_type@,
        ) == Some(dimension) {
            1nat
        } else {
            0nat
        })
    }
}

/// The bytes of a text.
pub open spec fn text_bytes(text: Seq<char>) -> nat {
    vstd::utf8::encode_utf8(text).len()
}

/// The bytes that a point's text and tags take.
pub open spec fn point_extra(point: ChunkPoint) -> nat {
    text_bytes(point.classification@) + point.tag_ids@.len() * 8
}

/// The bytes that an element takes.
pub open spec fn element_bytes(element: ChunkElement) -> nat {
    vstd::layout::size_of::<ChunkElement>() + text_bytes(element.element_type@) + (
    element.point_ids@.len() + element.edge_ids@.len() + element.face_ids@.len()) * 8
        + element.tag_ids@.len() * 8
}

pub open spec fn points_extra(points: Seq<ChunkPoint>) -> nat
    decreases points.len(),
{
    if points.len() == 0 {
        0
    } else {
        points_extra(points.drop_last()) + point_extra(points.last())
    }
}

pub open spec fn elements_bytes(elements: Seq<ChunkElement>) -> nat
    decreases elements.len(),
{
    if elements.len() == 0 {
        0
    } else {
        elements_bytes(elements.drop_last()) + element_bytes(elements.last())
    }
}

/// A count, or the largest one where it does not fit.
pub open spec fn held(count: nat) -> nat {
    if count > usize::MAX {
        usize::MAX as nat
    } else {
        count
    }
}

pub(crate) fn times(a: usize, b: usize) -> (result: usize)
    ensures
        result == held(a as nat * b as nat),
{
    match a.checked_mul(b) {
        Some(value) => value,
        None => usize::MAX,
    }
}

fn bytes_of_text(text: &String) -> (result: usize)
    ensures
        result == held(text_bytes(text@)),
{
    let slice = text.as_str();
    let bytes = slice.as_bytes();
    bytes.len()
}

fn bytes_of_elements(elements: &Vec<ChunkElement>) -> (result: usize)
    ensures
        result == held(elements_bytes(elements@)),
{
    let mut total: usize = 0;
    let mut i: usize = 0;
    while i < elements.len()
        invariant
            i <= elements.len(),
            total == held(elements_bytes(elements@.take(i as int))),
        decreases elements.len() - i,
    {
        assert(elements@.take(i as int + 1).drop_last() =~= elements@.take(i as int));
        let element = &elements[i];
        let ids: usize = element.point_ids.len().saturating_add(
            element.edge_ids.len(),
        ).saturating_add(element.face_ids.len());
        let size: usize = std::mem::size_of::<ChunkElement>().saturating_add(
            bytes_of_text(&element.element_type),
        ).saturating_add(times(ids, 8)).saturating_add(times(element.tag_ids.len(), 8));
        assert(size == held(element_bytes(*element)));
        total = total.saturating_add(size);
        i = i + 1;
    }
    assert(elements@.take(i as int) =~= elements@);
    total
}

fn bytes_of_points(points: &Vec<ChunkPoint>) -> (result: usize)
    ensures
        result == held(points_extra(points@)),
{
    let mut total: usize = 0;
    let mut i: usize = 0;
    while i < points.len()
        invariant
            i <= points.len(),
            total == held(points_extra(points@.take(i as int))),
        decreases points.len() - i,
    {
        assert(points@.take(i as int + 1).drop_last() =~= points@.take(i as int));
        let point = &points[i];
        let size: usize = bytes_of_text(&point.classification).saturating_add(
            times(point.tag_ids.len(), 8),
        );
        assert(size == held(point_extra(*point)));
        total = total.saturating_add(size);
        i = i + 1;
    }
    assert(points@.take(i as int) =~= points@);
    total
}

impl MeshChunk {
    pub open spec fn top_count(self, dimension: u8) -> nat {
        if dimension == 2 || dimension == 3 {
            count_dimension(self.cells@, dimension)
        } else {
            0
        }
    }

    /// How many cells have the mesh's own dimension.
    pub fn top_dimensional_elements(&self, dimension: u8) -> (result: usize)
        ensures
            result == self.top_count(dimension),
    {
        if dimension != 2 && dimension != 3 {
            return 0;
        }
        let mut count: usize = 0;
        let mut i: usize = 0;
        while i < self.cells.len()
            invariant
                i <= self.cells@.len(),
                count <= i,
                count == count_dimension(self.cells@.take(i as int), dimension),
            decreases self.cells@.len() - i,
        {
            assert(self.cells@.take(i as int + 1).drop_last() =~= self.cells@.take(i as int));
            if let Some(found) = element_dimension(self.cells[i].element_type.as_str()) {
                if found == dimension {
                    count = count + 1;
                }
            }
            i = i + 1;
        }
        assert(self.cells@.take(i as int) =~= self.cells@);
        count
    }

    /// The bytes that the chunk takes in memory.
    pub open spec fn byte_count(self) -> nat {
        self.points@.len() * vstd::layout::size_of::<ChunkPoint>() + points_extra(self.points@)
            + elements_bytes(self.edges@) + elements_bytes(self.faces@) + elements_bytes(self.cells@)
    }

    /// The bytes that the chunk takes in memory, or the largest count where
    /// they do not fit one.
    pub fn decoded_bytes(&self) -> (result: usize)
        ensures
            result == held(self.byte_count()),
    {
        times(self.points.len(), std::mem::size_of::<ChunkPoint>()).saturating_add(
            bytes_of_points(&self.points),
        ).saturating_add(bytes_of_elements(&self.edges)).saturating_add(
            bytes_of_elements(&self.faces),
        ).saturating_add(bytes_of_elements(&self.cells))
    }
}

/// An earlier point has the same number.
pub open spec fn point_repeats(points: Seq<ChunkPoint>, index: int) -> bool {
    exists|earlier: int| 0 <= earlier < index && (#[trigger] points[earlier]).id == points[index].id
}

/// The point is finite, in the chunk's bounds, and owned by the chunk that its
/// number names.
pub open spec fn point_fits(chunk: MeshChunk, point: ChunkPoint) -> bool {
    &&& all_finite(point.position)
    &&& point.owner_chunk_id == point.id.chunk()
    &&& chunk.bounds.holds(point.position)
}

/// What is wrong with a point of the chunk.
pub open spec fn point_fault(chunk: MeshChunk, index: int) -> Option<Seq<char>> {
    let point = chunk.points@[index];
    if point_repeats(chunk.points@, index) {
        Some(
            "chunk "@ + decimal(chunk.id as nat) + " contains duplicate point "@ + decimal(
                point.id.bits as nat,
            ) + ""@,
        )
    } else if !point_fits(chunk, point) {
        Some(
            "chunk "@ + decimal(chunk.id as nat) + " contains an invalid point "@ + decimal(
                point.id.bits as nat,
            ) + ""@,
        )
    } else {
        None
    }
}

/// The first fault of the points from a place on.
pub open spec fn first_point_fault(chunk: MeshChunk, from: int) -> Option<Seq<char>>
    decreases chunk.points@.len() - from,
{
    if from < 0 || from >= chunk.points@.len() {
        None
    } else {
        match point_fault(chunk, from) {
            Some(text) => Some(text),
            None => first_point_fault(chunk, from + 1),
        }
    }
}

/// The edges, then the faces, then the cells.
pub open spec fn all_elements(chunk: MeshChunk) -> Seq<ChunkElement> {
    chunk.edges@ + chunk.faces@ + chunk.cells@
}

/// A point, or an earlier element, has the same number.
pub open spec fn element_repeats(chunk: MeshChunk, index: int) -> bool {
    let id = all_elements(chunk)[index].id;
    has_point(chunk, id) || exists|earlier: int|
        0 <= earlier < index && (#[trigger] all_elements(chunk)[earlier]).id == id
}

pub open spec fn has_point(chunk: MeshChunk, id: MeshId) -> bool {
    exists|i: int| 0 <= i < chunk.points@.len() && (#[trigger] chunk.points@[i]).id == id
}

/// The element has as many points as its type, all of them in the chunk.
pub open spec fn element_connected(chunk: MeshChunk, element: ChunkElement) -> bool {
    &&& arity_ok(element.element_type@, element.point_ids@.len())
    &&& forall|i: int|
        0 <= i < element.point_ids@.len() ==> has_point(chunk, #[trigger] element.point_ids@[i])
}

/// What is wrong with an element of the chunk.
pub open spec fn element_fault(chunk: MeshChunk, index: int) -> Option<Seq<char>> {
    let element = all_elements(chunk)[index];
    if element_repeats(chunk, index) {
        Some(
            "duplicate entity ID "@ + decimal(element.id.bits as nat) + " in chunk "@ + decimal(
                chunk.id as nat,
            ) + ""@,
        )
    } else if points_of(element.element_type@) is None {
        Some("unknown element type "@ + debug_text(element.element_type@))
    } else if !element_connected(chunk, element) {
        Some(
            element.element_type@ + " "@ + decimal(element.id.bits as nat)
                + " has invalid or non-local point connectivity"@,
        )
    } else if element.element_type@ == "polyhedron"@ && element.face_ids@.len() == 0 {
        Some("polyhedra require explicit face connectivity"@)
    } else {
        None
    }
}

/// The first fault of the elements from a place on.
pub open spec fn first_element_fault(chunk: MeshChunk, from: int) -> Option<Seq<char>>
    decreases all_elements(chunk).len() - from,
{
    if from < 0 || from >= all_elements(chunk).len() {
        None
    } else {
        match element_fault(chunk, from) {
            Some(text) => Some(text),
            None => first_element_fault(chunk, from + 1),
        }
    }
}

/// The chunk can be written.
pub open spec fn chunk_valid(chunk: MeshChunk, dimension: u8) -> bool {
    &&& chunk.id != 0
    &&& chunk.bounds.valid()
    &&& chunk.top_count(dimension) <= MAX_BATCH_ROWS
    &&& held(chunk.byte_count()) <= MAX_BATCH_BYTES
    &&& first_point_fault(chunk, 0) is None
    &&& first_element_fault(chunk, 0) is None
}

pub open spec fn rows_message(chunk: MeshChunk) -> Seq<char> {
    "chunk "@ + decimal(chunk.id as nat) + " has more than "@ + decimal(MAX_BATCH_ROWS as nat)
        + " top-dimensional elements"@
}

pub open spec fn bytes_message(chunk: MeshChunk) -> Seq<char> {
    "chunk "@ + decimal(chunk.id as nat) + " exceeds the "@ + decimal(
        (MAX_BATCH_BYTES / 1024 / 1024) as nat,
    ) + " MiB decoded hard limit"@
}

fn point_in_chunk(points: &SortedSet<u64>, element: &ChunkElement) -> (result: bool)
    requires
        points.wf(),
    ensures
        result == forall|i: int|
            0 <= i < element.point_ids@.len() ==> points@.contains(
                (#[trigger] element.point_ids@[i]).bits,
            ),
{
    let mut i: usize = 0;
    while i < element.point_ids.len()
        invariant
            i <= element.point_ids@.len(),
            points.wf(),
            forall|k: int|
                0 <= k < i ==> points@.contains((#[trigger] element.point_ids@[k]).bits),
        decreases element.point_ids@.len() - i,
    {
        if !points.contains(&element.point_ids[i].bits) {
            assert(!points@.contains(element.point_ids@[i as int].bits));
            return false;
        }
        i = i + 1;
    }
    true
}

impl MeshChunk {
    fn check_points(&self) -> (result: (Option<String>, SortedSet<u64>))
        ensures
            match first_point_fault(*self, 0) {
                Some(text) => result.0 matches Some(message) && message@ == text,
                None => result.0 is None && result.1.wf() && forall|id: u64| #[trigger]
                    result.1@.contains(id) <==> has_point(*self, MeshId { bits: id }),
            },
    {
        let mut ids: SortedSet<u64> = SortedSet::new();
        let mut i: usize = 0;
        while i < self.points.len()
            invariant
                i <= self.points@.len(),
                ids.wf(),
                first_point_fault(*self, 0) == first_point_fault(*self, i as int),
                forall|id: u64| #[trigger]
                    ids@.contains(id) <==> exists|k: int|
                        0 <= k < i && (#[trigger] self.points@[k]).id.bits == id,
            decreases self.points@.len() - i,
        {
            let point = &self.points[i];
            let ghost before = ids@;
            let fresh = ids.insert(point.id.bits);
            if !fresh {
                proof {
                    let k = choose|k: int|
                        0 <= k < i && (#[trigger] self.points@[k]).id.bits == point.id.bits;
                    assert(self.points@[k].id == self.points@[i as int].id);
                    assert(point_repeats(self.points@, i as int));
                }
                let text = sentence2(
                    "chunk ",
                    self.id as u64,
                    " contains duplicate point ",
                    point.id.bits,
                    "",
                );
                return (Some(text), ids);
            }
            proof {
                if point_repeats(self.points@, i as int) {
                    let k = choose|k: int|
                        0 <= k < i && (#[trigger] self.points@[k]).id == self.points@[i as int].id;
                    assert(self.points@[k].id.bits == point.id.bits);
                    assert(before.contains(point.id.bits));
                }
            }
            if !is_finite_vector(point.position) || point.owner_chunk_id != point.id.owner_chunk()
                || !self.bounds.contains(point.position) {
                let text = sentence2(
                    "chunk ",
                    self.id as u64,
                    " contains an invalid point ",
                    point.id.bits,
                    "",
                );
                return (Some(text), ids);
            }
            proof {
                assert forall|id: u64| #[trigger] ids@.contains(id) <==> exists|k: int|
                    0 <= k < i + 1 && (#[trigger] self.points@[k]).id.bits == id by {
                    assert(before.contains(id) <==> exists|k: int|
                        0 <= k < i && (#[trigger] self.points@[k]).id.bits == id);
                    if before.contains(id) {
                        let k = choose|k: int|
                            0 <= k < i && (#[trigger] self.points@[k]).id.bits == id;
                        assert(0 <= k < i + 1 && self.points@[k].id.bits == id);
                    }
                    if id == point.id.bits {
                        assert(self.points@[i as int].id.bits == id);
                    }
                    if exists|k: int| 0 <= k < i + 1 && (#[trigger] self.points@[k]).id.bits == id {
                        let k = choose|k: int|
                            0 <= k < i + 1 && (#[trigger] self.points@[k]).id.bits == id;
                        if k < i {
                            assert(before.contains(id));
                        }
                    }
                }
            }
            i = i + 1;
        }
        proof {
            assert forall|id: u64| #[trigger] ids@.contains(id) <==> has_point(
                *self,
                MeshId { bits: id },
            ) by {
                if ids@.contains(id) {
                    let k = choose|k: int|
                        0 <= k < i && (#[trigger] self.points@[k]).id.bits == id;
                    assert(self.points@[k].id == (MeshId { bits: id }));
                }
                if has_point(*self, MeshId { bits: id }) {
                    let k = choose|k: int|
                        0 <= k < self.points@.len() && (#[trigger] self.points@[k]).id == (MeshId {
                            bits: id,
                        });
                    assert(0 <= k < i && self.points@[k].id.bits == id);
                }
            }
        }
        (None, ids)
    }

    fn check_elements(
        &self,
        elements: &Vec<ChunkElement>,
        points: &SortedSet<u64>,
        ids: &mut SortedSet<u64>,
        Ghost(offset): Ghost<int>,
    ) -> (result: Option<String>)
        requires
            0 <= offset,
            offset + elements@.len() <= all_elements(*self).len(),
            forall|k: int|
                0 <= k < elements@.len() ==> all_elements(*self)[offset + k] == #[trigger] elements@[k],
            points.wf(),
            forall|id: u64| #[trigger]
                points@.contains(id) <==> has_point(*self, MeshId { bits: id }),
            old(ids).wf(),
            forall|id: u64| #[trigger]
                old(ids)@.contains(id) <==> has_point(*self, MeshId { bits: id }) || exists|k: int|
                    0 <= k < offset && (#[trigger] all_elements(*self)[k]).id.bits == id,
        ensures
            final(ids).wf(),
            match result {
                Some(message) => first_element_fault(*self, offset) == Some(message@),
                None => first_element_fault(*self, offset) == first_element_fault(
                    *self,
                    offset + elements@.len(),
                ) && forall|id: u64| #[trigger]
                    final(ids)@.contains(id) <==> has_point(*self, MeshId { bits: id })
                        || exists|k: int|
                        0 <= k < offset + elements@.len() && (#[trigger] all_elements(
                            *self,
                        )[k]).id.bits == id,
            },
    {
        let ghost all = all_elements(*self);
        let mut i: usize = 0;
        while i < elements.len()
            invariant
                i <= elements@.len(),
                all == all_elements(*self),
                0 <= offset,
                offset + elements@.len() <= all.len(),
                forall|k: int|
                    0 <= k < elements@.len() ==> all[offset + k] == #[trigger] elements@[k],
                points.wf(),
                forall|id: u64| #[trigger]
                    points@.contains(id) <==> has_point(*self, MeshId { bits: id }),
                ids.wf(),
                forall|id: u64| #[trigger]
                    ids@.contains(id) <==> has_point(*self, MeshId { bits: id }) || exists|k: int|
                        0 <= k < offset + i && (#[trigger] all[k]).id.bits == id,
                first_element_fault(*self, offset) == first_element_fault(*self, offset + i),
            decreases elements@.len() - i,
        {
            let element = &elements[i];
            let ghost at = offset + i;
            assert(all[at] == elements@[i as int]);
            let ghost before = ids@;
            let fresh = ids.insert(element.id.bits);
            proof {
                if before.contains(element.id.bits) {
                    if !has_point(*self, MeshId { bits: element.id.bits }) {
                        let k = choose|k: int|
                            0 <= k < at && (#[trigger] all[k]).id.bits == element.id.bits;
                        assert(all_elements(*self)[k].id == element.id);
                    } else {
                        assert(element.id == (MeshId { bits: element.id.bits }));
                    }
                    assert(element_repeats(*self, at));
                }
                if element_repeats(*self, at) {
                    assert(element.id == (MeshId { bits: element.id.bits }));
                    if !has_point(*self, element.id) {
                        let k = choose|k: int|
                            0 <= k < at && (#[trigger] all_elements(*self)[k]).id == element.id;
                        assert(all[k].id.bits == element.id.bits);
                    }
                    assert(before.contains(element.id.bits));
                }
            }
            if !fresh {
                return Some(
                    sentence2(
                        "duplicate entity ID ",
                        element.id.bits,
                        " in chunk ",
                        self.id as u64,
                        "",
                    ),
                );
            }
            let expected = match expected_points(element.element_type.as_str()) {
                Some(range) => range,
                None => {
                    return Some(
                        join(
                            "unknown element type ",
                            quoted(element.element_type.as_str()).as_str(),
                        ),
                    );
                },
            };
            let local = point_in_chunk(points, element);
            proof {
                assert(local == forall|k: int|
                    0 <= k < element.point_ids@.len() ==> has_point(
                        *self,
                        #[trigger] element.point_ids@[k],
                    )) by {
                    assert forall|k: int| 0 <= k < element.point_ids@.len() implies points@.contains(
                        (#[trigger] element.point_ids@[k]).bits,
                    ) == has_point(*self, element.point_ids@[k]) by {
                        let id = element.point_ids@[k];
                        assert(id == (MeshId { bits: id.bits }));
                    }
                    if local {
                        assert forall|k: int| 0 <= k < element.point_ids@.len() implies has_point(
                            *self,
                            #[trigger] element.point_ids@[k],
                        ) by {
                            assert(points@.contains(element.point_ids@[k].bits));
                        }
                    } else {
                        let k = choose|k: int|
                            0 <= k < element.point_ids@.len() && !points@.contains(
                                (#[trigger] element.point_ids@[k]).bits,
                            );
                        assert(!has_point(*self, element.point_ids@[k]));
                    }
                }
            }
            if element.point_ids.len() < expected.0 || element.point_ids.len() > expected.1
                || !local {
                let mut text = join(element.element_type.as_str(), " ");
                append_decimal(&mut text, element.id.bits);
                text.append(" has invalid or non-local point connectivity");
                return Some(text);
            }
            if same_text(element.element_type.as_str(), "polyhedron") && element.face_ids.len()
                == 0 {
                return Some("polyhedra require explicit face connectivity".to_owned());
            }
            proof {
                assert(element_fault(*self, at) is None);
                assert forall|id: u64| #[trigger] ids@.contains(id) <==> has_point(
                    *self,
                    MeshId { bits: id },
                ) || exists|k: int| 0 <= k < at + 1 && (#[trigger] all[k]).id.bits == id by {
                    assert(before.contains(id) <==> has_point(*self, MeshId { bits: id })
                        || exists|k: int| 0 <= k < at && (#[trigger] all[k]).id.bits == id);
                    if exists|k: int| 0 <= k < at && (#[trigger] all[k]).id.bits == id {
                        let k = choose|k: int| 0 <= k < at && (#[trigger] all[k]).id.bits == id;
                        assert(0 <= k < at + 1 && all[k].id.bits == id);
                    }
                    if id == element.id.bits {
                        assert(all[at].id.bits == id);
                    }
                    if exists|k: int| 0 <= k < at + 1 && (#[trigger] all[k]).id.bits == id {
                        let k = choose|k: int|
                            0 <= k < at + 1 && (#[trigger] all[k]).id.bits == id;
                        if k < at {
                            assert(before.contains(id));
                        }
                    }
                }
            }
            i = i + 1;
        }
        None
    }

    /// Whether the chunk can be written; else the first thing that is wrong.
    pub fn validate(&self, dimension: u8) -> (result: MeshResult<()>)
        ensures
            result is Ok <==> chunk_valid(*self, dimension),
            self.id == 0 || !self.bounds.valid() ==> fails_input(
                result,
                "mesh chunk requires a nonzero ID and finite bounds"@,
            ),
            self.id != 0 && self.bounds.valid() && self.top_count(dimension) > MAX_BATCH_ROWS
                ==> fails_limit(result, rows_message(*self)),
            self.id != 0 && self.bounds.valid() && self.top_count(dimension) <= MAX_BATCH_ROWS
                && held(self.byte_count()) > MAX_BATCH_BYTES ==> fails_limit(
                result,
                bytes_message(*self),
            ),
            self.id != 0 && self.bounds.valid() && self.top_count(dimension) <= MAX_BATCH_ROWS
                && held(self.byte_count()) <= MAX_BATCH_BYTES ==> match first_point_fault(*self, 0) {
                Some(text) => fails_input(result, text),
                None => match first_element_fault(*self, 0) {
                    Some(text) => fails_input(result, text),
                    None => result is Ok,
                },
            },
    {
        if self.id == 0 || !self.bounds.is_valid() {
            return Err(
                MeshError::invalid_input("mesh chunk requires a nonzero ID and finite bounds"),
            );
        }
        if self.top_dimensional_elements(dimension) > MAX_BATCH_ROWS {
            return Err(
                MeshError::LimitExceeded(
                    sentence2(
                        "chunk ",
                        self.id as u64,
                        " has more than ",
                        MAX_BATCH_ROWS as u64,
                        " top-dimensional elements",
                    ),
                ),
            );
        }
        if self.decoded_bytes() > MAX_BATCH_BYTES {
            return Err(
                MeshError::LimitExceeded(
                    sentence2(
                        "chunk ",
                        self.id as u64,
                        " exceeds the ",
                        (MAX_BATCH_BYTES / 1024 / 1024) as u64,
                        " MiB decoded hard limit",
                    ),
                ),
            );
        }
        let (fault, points) = self.check_points();
        if let Some(text) = fault {
            return Err(MeshError::InvalidInput(text));
        }
        let mut ids: SortedSet<u64> = SortedSet { items: points.items.clone() };
        proof {
            assert(ids.items@ =~= points.items@);
            assert(ids@ == points@);
            assert forall|id: u64| #[trigger] ids@.contains(id) <==> has_point(
                *self,
                MeshId { bits: id },
            ) || exists|k: int|
                0 <= k < 0 && (#[trigger] all_elements(*self)[k]).id.bits == id by {
                assert(points@.contains(id) <==> has_point(*self, MeshId { bits: id }));
            }
        }
        let ghost edges = self.edges@.len() as int;
        let ghost faces = self.faces@.len() as int;
        if let Some(text) = self.check_elements(&self.edges, &points, &mut ids, Ghost(0)) {
            return Err(MeshError::InvalidInput(text));
        }
        if let Some(text) = self.check_elements(&self.faces, &points, &mut ids, Ghost(edges)) {
            return Err(MeshError::InvalidInput(text));
        }
        if let Some(text) = self.check_elements(
            &self.cells,
            &points,
            &mut ids,
            Ghost(edges + faces),
        ) {
            return Err(MeshError::InvalidInput(text));
        }
        Ok(())
    }
}

/// A chunk in the making.
#[derive(Debug)]
pub struct MeshChunkBuilder {
    pub id: u32,
    pub bounds: Bounds3,
    pub points: SortedMap<u64, ChunkPoint>,
    pub edges: Vec<ChunkElement>,
    pub faces: Vec<ChunkElement>,
    pub cells: Vec<ChunkElement>,
    pub next_point: u32,
    pub next_edge: u32,
    pub next_face: u32,
    pub next_cell: u32,
}

/// The element has the given parts and nothing else.
pub open spec fn element_made(
    element: ChunkElement,
    id: MeshId,
    element_type: Seq<char>,
    point_ids: Seq<MeshId>,
    face_ids: Seq<MeshId>,
    tag_ids: Seq<u64>,
    boundary: bool,
    zone_id: Option<u64>,
    source_id: Option<u64>,
) -> bool {
    &&& element.id == id
    &&& element.element_type@ == element_type
    &&& element.point_ids@ == point_ids
    &&& element.edge_ids@.len() == 0
    &&& element.face_ids@ == face_ids
    &&& element.tag_ids@ == tag_ids
    &&& element.owner_cell_id is None
    &&& element.neighbor_cell_id is None
    &&& element.zone_id == zone_id
    &&& element.source_id == source_id
    &&& element.boundary == boundary
}

/// What is said of an element with the wrong number of points.
pub open spec fn arity_message(element_type: Seq<char>, count: nat) -> Seq<char> {
    match points_of(element_type) {
        None => "unknown element type "@ + debug_text(element_type),
        Some(range) => element_type + " requires "@ + decimal(range.0 as nat) + "..="@ + decimal(
            range.1 as nat,
        ) + " points, got "@ + decimal(count),
    }
}

fn copy_ids(ids: &[MeshId]) -> (result: Vec<MeshId>)
    ensures
        result@ == ids@,
{
    let mut list: Vec<MeshId> = Vec::new();
    let mut i: usize = 0;
    while i < ids.len()
        invariant
            i <= ids@.len(),
            list@ == ids@.take(i as int),
        decreases ids@.len() - i,
    {
        list.push(ids[i]);
        assert(ids@.take(i as int + 1) =~= ids@.take(i as int).push(ids@[i as int]));
        i = i + 1;
    }
    assert(ids@.take(i as int) =~= ids@);
    list
}

fn element(
    id: MeshId,
    element_type: &str,
    point_ids: &[MeshId],
    face_ids: &[MeshId],
    tag_ids: Vec<u64>,
    boundary: bool,
    zone_id: Option<u64>,
    source_id: Option<u64>,
) -> (result: MeshResult<ChunkElement>)
    ensures
        arity_ok(element_type@, point_ids@.len()) ==> (result matches Ok(value) && element_made(
            value,
            id,
            element_type@,
            point_ids@,
            face_ids@,
            tag_ids@,
            boundary,
            zone_id,
            source_id,
        )),
        !arity_ok(element_type@, point_ids@.len()) ==> fails_input(
            result,
            arity_message(element_type@, point_ids@.len()),
        ),
{
    let expected = match expected_points(element_type) {
        Some(range) => range,
        None => {
            return Err(
                MeshError::InvalidInput(
                    join("unknown element type ", quoted(element_type).as_str()),
                ),
            );
        },
    };
    if point_ids.len() < expected.0 || point_ids.len() > expected.1 {
        let mut text = join(element_type, " requires ");
        append_decimal(&mut text, expected.0 as u64);
        text.append("..=");
        append_decimal(&mut text, expected.1 as u64);
        text.append(" points, got ");
        append_decimal(&mut text, point_ids.len() as u64);
        return Err(MeshError::InvalidInput(text));
    }
    Ok(
        ChunkElement {
            id,
            element_type: element_type.to_owned(),
            point_ids: copy_ids(point_ids),
            edge_ids: Vec::new(),
            face_ids: copy_ids(face_ids),
            tag_ids,
            owner_cell_id: None,
            neighbor_cell_id: None,
            zone_id,
            source_id,
            boundary,
        },
    )
}

/// The state that follows a point: the next free place is past it, where it is
/// one of the chunk's own.
pub open spec fn next_point_after(builder: MeshChunkBuilder, id: MeshId) -> int {
    if id.chunk() == builder.id && id.low() < EDGE_ORDINAL && id.low() + 1 > builder.next_point {
        id.low() + 1
    } else {
        builder.next_point as int
    }
}

/// Every point stands under its number, lies in the bounds, and is owned by the
/// chunk that its number names.
pub open spec fn points_fit(bounds: Bounds3, points: SortedMap<u64, ChunkPoint>) -> bool {
    forall|i: int|
        0 <= i < points.keys@.len() ==> points.values@[i].id.bits == #[trigger] points.keys@[i]
            && all_finite(points.values@[i].position) && bounds.holds(points.values@[i].position)
            && points.values@[i].owner_chunk_id == points.values@[i].id.chunk()
}

/// Every point of the chunk's own has a place below the next one.
pub open spec fn places_taken(id: u32, points: Map<u64, ChunkPoint>, next_point: u32) -> bool {
    forall|key: u64| #[trigger]
        points.dom().contains(key) && (MeshId { bits: key }).chunk() == id && (MeshId {
            bits: key,
        }).low() < EDGE_ORDINAL ==> (MeshId { bits: key }).low() < next_point
}

/// A point may be added to the builder.
pub open spec fn point_allowed(builder: MeshChunkBuilder, position: Vector3) -> bool {
    all_finite(position) && builder.bounds.holds(position)
}

/// Nothing but the points and their counter changed.
pub open spec fn only_points_changed(before: MeshChunkBuilder, after: MeshChunkBuilder) -> bool {
    &&& after.id == before.id
    &&& after.bounds == before.bounds
    &&& after.edges == before.edges
    &&& after.faces == before.faces
    &&& after.cells == before.cells
    &&& after.next_edge == before.next_edge
    &&& after.next_face == before.next_face
    &&& after.next_cell == before.next_cell
}

/// What is said of a number that a point of the chunk has already.
pub open spec fn point_taken_message(chunk: u32, id: MeshId) -> Seq<char> {
    "point "@ + decimal(id.bits as nat) + " is already present in chunk "@ + decimal(chunk as nat)
        + ""@
}

pub open spec fn point_present_message(builder: MeshChunkBuilder, id: MeshId) -> Seq<char> {
    point_taken_message(builder.id, id)
}

impl MeshChunkBuilder {
    /// Every point fits the chunk and stands under its number; the next point
    /// comes behind all points of the chunk's own, and the counters stay within
    /// their kinds.
    pub open spec fn wf(self) -> bool {
        &&& self.id != 0
        &&& self.bounds.valid()
        &&& self.points.wf()
        &&& points_fit(self.bounds, self.points)
        &&& places_taken(self.id, self.points@, self.next_point)
        &&& 1 <= self.next_point <= EDGE_ORDINAL
        &&& 1 <= self.next_edge <= EDGE_ORDINAL
        &&& 1 <= self.next_face <= EDGE_ORDINAL
        &&& 1 <= self.next_cell <= EDGE_ORDINAL
    }

    /// The chunk that the builder holds.
    pub open spec fn chunk(self) -> MeshChunk {
        MeshChunk {
            id: self.id,
            bounds: self.bounds,
            points: self.points.values,
            edges: self.edges,
            faces: self.faces,
            cells: self.cells,
        }
    }

    pub fn new(id: u32, bounds: Bounds3) -> (result: MeshResult<MeshChunkBuilder>)
        ensures
            id == 0 || !bounds.valid() ==> fails_input(
                result,
                "mesh chunk builder requires a nonzero ID and finite bounds"@,
            ),
            id != 0 && bounds.valid() ==> (result matches Ok(builder) && builder.wf() && builder.id
                == id && builder.bounds == bounds && builder.points.keys@.len() == 0
                && builder.points@ == Map::<u64, ChunkPoint>::empty() && builder.edges@.len() == 0
                && builder.faces@.len() == 0 && builder.cells@.len() == 0 && builder.next_point == 1
                && builder.next_edge == 1 && builder.next_face == 1 && builder.next_cell == 1),
    {
        if id == 0 || !bounds.is_valid() {
            return Err(
                MeshError::invalid_input(
                    "mesh chunk builder requires a nonzero ID and finite bounds",
                ),
            );
        }
        Ok(
            MeshChunkBuilder {
                id,
                bounds,
                points: SortedMap::new(),
                edges: Vec::new(),
                faces: Vec::new(),
                cells: Vec::new(),
                next_point: 1,
                next_edge: 1,
                next_face: 1,
                next_cell: 1,
            },
        )
    }

    pub fn id(&self) -> (result: u32)
        ensures
            result == self.id,
    {
        self.id
    }

    /// Adds a point under a given number. A point already there is replaced,
    /// and that is an error.
    pub fn point_copy(
        &mut self,
        id: MeshId,
        position: Vector3,
        classification: String,
        tag_ids: Vec<u64>,
    ) -> (result: MeshResult<()>)
        requires
            old(self).wf(),
        ensures
            final(self).wf(),
            only_points_changed(*old(self), *final(self)),
            !point_allowed(*old(self), position) ==> fails_input(
                result,
                "chunk point must be finite and inside chunk bounds"@,
            ) && *final(self) == *old(self),
            point_allowed(*old(self), position) ==> final(self).points@ == old(
                self,
            ).points@.insert(
                id.bits,
                ChunkPoint {
                    id,
                    owner_chunk_id: id.chunk() as u32,
                    position,
                    classification,
                    tag_ids,
                },
            ),
            point_allowed(*old(self), position) && old(self).points@.dom().contains(id.bits)
                ==> fails_input(result, point_present_message(*old(self), id)) && final(
                self).next_point == old(self).next_point,
            point_allowed(*old(self), position) && !old(self).points@.dom().contains(id.bits)
                ==> result is Ok && final(self).next_point == next_point_after(*old(self), id),
    {
        if !is_finite_vector(position) || !self.bounds.contains(position) {
            return Err(
                MeshError::invalid_input("chunk point must be finite and inside chunk bounds"),
            );
        }
        let ghost before = *self;
        let point = ChunkPoint {
            id,
            owner_chunk_id: id.owner_chunk(),
            position,
            classification,
            tag_ids,
        };
        let fresh = self.points.insert(id.bits, point);
        proof {
            assert forall|i: int| 0 <= i < self.points.keys@.len() implies self.points.values@[i].id.bits
                == #[trigger] self.points.keys@[i] && all_finite(self.points.values@[i].position)
                && self.bounds.holds(self.points.values@[i].position)
                && self.points.values@[i].owner_chunk_id == self.points.values@[i].id.chunk() by {
                self.points.entry_at(i);
                let key = self.points.keys@[i];
                if key != id.bits {
                    assert(before.points@.dom().contains(key));
                    let j = before.points.keys@.index_of(key);
                    assert(before.points.keys@[j] == key);
                    before.points.entry_at(j);
                }
            }
            assert(points_fit(self.bounds, self.points));
        }
        if !fresh {
            return Err(
                MeshError::InvalidInput(
                    sentence2(
                        "point ",
                        id.bits,
                        " is already present in chunk ",
                        self.id as u64,
                        "",
                    ),
                ),
            );
        }
        if id.owner_chunk() == self.id {
            let ordinal: u32 = (id.bits % 0x1_0000_0000) as u32;
            if ordinal < EDGE_ORDINAL && ordinal + 1 > self.next_point {
                self.next_point = ordinal + 1;
            }
        }
        Ok(())
    }

    /// Adds a point of the chunk's own under the next free number.
    pub fn classified_point(
        &mut self,
        position: Vector3,
        classification: String,
        tag_ids: Vec<u64>,
    ) -> (result: MeshResult<MeshId>)
        requires
            old(self).wf(),
        ensures
            final(self).wf(),
            only_points_changed(*old(self), *final(self)),
            !MeshId::assignable(old(self).id, old(self).next_point) ==> fails_limit(
                result,
                "mesh chunk/entity ID space exhausted"@,
            ) && *final(self) == *old(self),
            MeshId::assignable(old(self).id, old(self).next_point) ==> {
                let id = MeshId::of(old(self).id, POINT_ORDINAL, old(self).next_point);
                &&& final(self).next_point == old(self).next_point + 1
                &&& !point_allowed(*old(self), position) ==> fails_input(
                    result,
                    "chunk point must be finite and inside chunk bounds"@,
                ) && final(self).points == old(self).points
                &&& point_allowed(*old(self), position) ==> final(self).points@ == old(
                    self,
                ).points@.insert(
                    id.bits,
                    ChunkPoint {
                        id,
                        owner_chunk_id: old(self).id,
                        position,
                        classification,
                        tag_ids,
                    },
                ) && result == Ok::<MeshId, MeshError>(id)
                &&& !old(self).points@.dom().contains(id.bits)
                &&& id.chunk() == old(self).id
                &&& id.low() == old(self).next_point
            },
    {
        let id = match MeshId::new(self.id, POINT_ORDINAL, self.next_point) {
            Ok(value) => value,
            Err(error) => {
                return Err(error);
            },
        };
        proof {
            id_tells_entity(
                self.id,
                POINT_ORDINAL,
                self.next_point,
                self.id,
                POINT_ORDINAL,
                self.next_point,
            );
        }
        self.next_point = self.next_point + 1;
        match self.point_copy(id, position, classification, tag_ids) {
            Ok(()) => Ok(id),
            Err(error) => Err(error),
        }
    }

    /// Adds an interior point of the chunk's own.
    pub fn point(&mut self, position: Vector3) -> (result: MeshResult<MeshId>)
        requires
            old(self).wf(),
        ensures
            final(self).wf(),
            only_points_changed(*old(self), *final(self)),
            !MeshId::assignable(old(self).id, old(self).next_point) ==> fails_limit(
                result,
                "mesh chunk/entity ID space exhausted"@,
            ) && *final(self) == *old(self),
            MeshId::assignable(old(self).id, old(self).next_point) ==> {
                let id = MeshId::of(old(self).id, POINT_ORDINAL, old(self).next_point);
                &&& final(self).next_point == old(self).next_point + 1
                &&& !point_allowed(*old(self), position) ==> fails_input(
                    result,
                    "chunk point must be finite and inside chunk bounds"@,
                ) && final(self).points == old(self).points
                &&& point_allowed(*old(self), position) ==> (exists|point: ChunkPoint|
                    {
                        &&& #[trigger] old(self).points@.insert(id.bits, point) == final(
                            self).points@
                        &&& point.id == id
                        &&& point.owner_chunk_id == old(self).id
                        &&& point.position == position
                        &&& point.classification@ == "interior"@
                        &&& point.tag_ids@.len() == 0
                    }) && result == Ok::<MeshId, MeshError>(id)
                &&& !old(self).points@.dom().contains(id.bits)
                &&& id.chunk() == old(self).id
                &&& id.low() == old(self).next_point
            },
    {
        self.classified_point(position, "interior".to_owned(), Vec::new())
    }

    /// Adds an edge under the next free number.
    pub fn edge(
        &mut self,
        element_type: &str,
        point_ids: &[MeshId],
        tag_ids: Vec<u64>,
        boundary: bool,
    ) -> (result: MeshResult<MeshId>)
        requires
            old(self).wf(),
        ensures
            final(self).wf(),
            final(self).points == old(self).points,
            final(self).faces == old(self).faces,
            final(self).cells == old(self).cells,
            final(self).id == old(self).id,
            final(self).bounds == old(self).bounds,
            final(self).next_point == old(self).next_point,
            final(self).next_face == old(self).next_face,
            final(self).next_cell == old(self).next_cell,
            !MeshId::assignable(old(self).id, old(self).next_edge) ==> fails_limit(
                result,
                "mesh chunk/entity ID space exhausted"@,
            ) && *final(self) == *old(self),
            MeshId::assignable(old(self).id, old(self).next_edge) ==> {
                let id = MeshId::of(old(self).id, EDGE_ORDINAL, old(self).next_edge);
                &&& final(self).next_edge == old(self).next_edge + 1
                &&& arity_ok(element_type@, point_ids@.len()) ==> result == Ok::<
                    MeshId,
                    MeshError,
                >(id) && final(self).edges@.len() == old(self).edges@.len() + 1
                    && final(self).edges@.drop_last() == old(self).edges@ && element_made(
                    final(self).edges@.last(),
                    id,
                    element_type@,
                    point_ids@,
                    Seq::empty(),
                    tag_ids@,
                    boundary,
                    None,
                    None,
                )
                &&& !arity_ok(element_type@, point_ids@.len()) ==> fails_input(
                    result,
                    arity_message(element_type@, point_ids@.len()),
                ) && final(self).edges == old(self).edges
            },
    {
        let id = match MeshId::new(self.id, EDGE_ORDINAL, self.next_edge) {
            Ok(value) => value,
            Err(error) => {
                return Err(error);
            },
        };
        self.next_edge = self.next_edge + 1;
        let faces: [MeshId; 0] = [];
        assert(faces@ =~= Seq::<MeshId>::empty());
        match element(id, element_type, point_ids, &faces, tag_ids, boundary, None, None) {
            Ok(value) => {
                self.edges.push(value);
                assert(self.edges@.drop_last() =~= old(self).edges@);
                Ok(id)
            },
            Err(error) => Err(error),
        }
    }

    /// Adds a boundary edge of two points.
    pub fn boundary_edge(&mut self, point_ids: [MeshId; 2], tag_ids: Vec<u64>) -> (result: MeshResult<
        MeshId,
    >)
        requires
            old(self).wf(),
        ensures
            final(self).wf(),
            final(self).points == old(self).points,
            final(self).faces == old(self).faces,
            final(self).cells == old(self).cells,
            final(self).id == old(self).id,
            final(self).bounds == old(self).bounds,
            final(self).next_point == old(self).next_point,
            final(self).next_face == old(self).next_face,
            final(self).next_cell == old(self).next_cell,
            !MeshId::assignable(old(self).id, old(self).next_edge) ==> fails_limit(
                result,
                "mesh chunk/entity ID space exhausted"@,
            ) && *final(self) == *old(self),
            MeshId::assignable(old(self).id, old(self).next_edge) ==> {
                let id = MeshId::of(old(self).id, EDGE_ORDINAL, old(self).next_edge);
                &&& final(self).next_edge == old(self).next_edge + 1
                &&& result == Ok::<MeshId, MeshError>(id)
                &&& final(self).edges@.len() == old(self).edges@.len() + 1
                &&& final(self).edges@.drop_last() == old(self).edges@
                &&& element_made(
                    final(self).edges@.last(),
                    id,
                    "edge2"@,
                    point_ids@,
                    Seq::empty(),
                    tag_ids@,
                    true,
                    None,
                    None,
                )
            },
    {
        self.edge("edge2", &point_ids, tag_ids, true)
    }

    /// Adds a face under the next free number.
    pub fn face(
        &mut self,
        element_type: &str,
        point_ids: &[MeshId],
        tag_ids: Vec<u64>,
        boundary: bool,
    ) -> (result: MeshResult<MeshId>)
        requires
            old(self).wf(),
        ensures
            final(self).wf(),
            final(self).points == old(self).points,
            final(self).edges == old(self).edges,
            final(self).cells == old(self).cells,
            final(self).id == old(self).id,
            final(self).bounds == old(self).bounds,
            final(self).next_point == old(self).next_point,
            final(self).next_edge == old(self).next_edge,
            final(self).next_cell == old(self).next_cell,
            !MeshId::assignable(old(self).id, old(self).next_face) ==> fails_limit(
                result,
                "mesh chunk/entity ID space exhausted"@,
            ) && *final(self) == *old(self),
            MeshId::assignable(old(self).id, old(self).next_face) ==> {
                let id = MeshId::of(old(self).id, FACE_ORDINAL, old(self).next_face);
                &&& final(self).next_face == old(self).next_face + 1
                &&& arity_ok(element_type@, point_ids@.len()) ==> result == Ok::<
                    MeshId,
                    MeshError,
                >(id) && final(self).faces@.len() == old(self).faces@.len() + 1
                    && final(self).faces@.drop_last() == old(self).faces@ && element_made(
                    final(self).faces@.last(),
                    id,
                    element_type@,
                    point_ids@,
                    Seq::empty(),
                    tag_ids@,
                    boundary,
                    None,
                    None,
                )
                &&& !arity_ok(element_type@, point_ids@.len()) ==> fails_input(
                    result,
                    arity_message(element_type@, point_ids@.len()),
                ) && final(self).faces == old(self).faces
            },
    {
        let id = match MeshId::new(self.id, FACE_ORDINAL, self.next_face) {
            Ok(value) => value,
            Err(error) => {
                return Err(error);
            },
        };
        self.next_face = self.next_face + 1;
        let faces: [MeshId; 0] = [];
        assert(faces@ =~= Seq::<MeshId>::empty());
        match element(id, element_type, point_ids, &faces, tag_ids, boundary, None, None) {
            Ok(value) => {
                self.faces.push(value);
                assert(self.faces@.drop_last() =~= old(self).faces@);
                Ok(id)
            },
            Err(error) => Err(error),
        }
    }

    /// Adds a boundary face.
    pub fn boundary_face(&mut self, element_type: &str, point_ids: &[MeshId], tag_ids: Vec<u64>) -> (result:
        MeshResult<MeshId>)
        requires
            old(self).wf(),
        ensures
            final(self).wf(),
            final(self).points == old(self).points,
            final(self).edges == old(self).edges,
            final(self).cells == old(self).cells,
            final(self).id == old(self).id,
            final(self).bounds == old(self).bounds,
            final(self).next_point == old(self).next_point,
            final(self).next_edge == old(self).next_edge,
            final(self).next_cell == old(self).next_cell,
            !MeshId::assignable(old(self).id, old(self).next_face) ==> fails_limit(
                result,
                "mesh chunk/entity ID space exhausted"@,
            ) && *final(self) == *old(self),
            MeshId::assignable(old(self).id, old(self).next_face) ==> {
                let id = MeshId::of(old(self).id, FACE_ORDINAL, old(self).next_face);
                &&& final(self).next_face == old(self).next_face + 1
                &&& arity_ok(element_type@, point_ids@.len()) ==> result == Ok::<
                    MeshId,
                    MeshError,
                >(id) && final(self).faces@.len() == old(self).faces@.len() + 1
                    && final(self).faces@.drop_last() == old(self).faces@ && element_made(
                    final(self).faces@.last(),
                    id,
                    element_type@,
                    point_ids@,
                    Seq::empty(),
                    tag_ids@,
                    true,
                    None,
                    None,
                )
                &&& !arity_ok(element_type@, point_ids@.len()) ==> fails_input(
                    result,
                    arity_message(element_type@, point_ids@.len()),
                ) && final(self).faces == old(self).faces
            },
    {
        self.face(element_type, point_ids, tag_ids, true)
    }

    /// What adding a cell does.
    pub open spec fn cell_added(
        before: MeshChunkBuilder,
        after: MeshChunkBuilder,
        result: MeshResult<MeshId>,
        element_type: Seq<char>,
        point_ids: Seq<MeshId>,
        face_ids: Seq<MeshId>,
        zone_id: u64,
        source_id: u64,
    ) -> bool {
        let id = MeshId::of(before.id, CELL_ORDINAL, before.next_cell);
        &&& after.points == before.points
        &&& after.edges == before.edges
        &&& after.faces == before.faces
        &&& after.id == before.id
        &&& after.bounds == before.bounds
        &&& after.next_point == before.next_point
        &&& after.next_edge == before.next_edge
        &&& after.next_face == before.next_face
        &&& if !MeshId::assignable(before.id, before.next_cell) {
            fails_limit(result, "mesh chunk/entity ID space exhausted"@) && after == before
        } else if !arity_ok(element_type, point_ids.len()) {
            after.next_cell == before.next_cell + 1 && fails_input(
                result,
                arity_message(element_type, point_ids.len()),
            ) && after.cells == before.cells
        } else {
            &&& after.next_cell == before.next_cell + 1
            &&& result == Ok::<MeshId, MeshError>(id)
            &&& after.cells@.len() == before.cells@.len() + 1
            &&& after.cells@.drop_last() == before.cells@
            &&& element_made(
                after.cells@.last(),
                id,
                element_type,
                point_ids,
                face_ids,
                Seq::empty(),
                false,
                Some(zone_id),
                Some(source_id),
            )
        }
    }

    /// Adds a cell with its faces under the next free number.
    pub fn cell_with_faces(
        &mut self,
        element_type: &str,
        point_ids: &[MeshId],
        face_ids: &[MeshId],
        zone_id: u64,
        source_id: u64,
    ) -> (result: MeshResult<MeshId>)
        requires
            old(self).wf(),
        ensures
            final(self).wf(),
            Self::cell_added(
                *old(self),
                *final(self),
                result,
                element_type@,
                point_ids@,
                face_ids@,
                zone_id,
                source_id,
            ),
    {
        let id = match MeshId::new(self.id, CELL_ORDINAL, self.next_cell) {
            Ok(value) => value,
            Err(error) => {
                return Err(error);
            },
        };
        self.next_cell = self.next_cell + 1;
        match element(
            id,
            element_type,
            point_ids,
            face_ids,
            Vec::new(),
            false,
            Some(zone_id),
            Some(source_id),
        ) {
            Ok(value) => {
                self.cells.push(value);
                assert(self.cells@.drop_last() =~= old(self).cells@);
                assert(self.cells@.last().tag_ids@ =~= Seq::<u64>::empty());
                Ok(id)
            },
            Err(error) => Err(error),
        }
    }

    /// Adds a cell under the next free number.
    pub fn cell(&mut self, element_type: &str, point_ids: &[MeshId], zone_id: u64, source_id: u64) -> (result:
        MeshResult<MeshId>)
        requires
            old(self).wf(),
        ensures
            final(self).wf(),
            Self::cell_added(
                *old(self),
                *final(self),
                result,
                element_type@,
                point_ids@,
                Seq::empty(),
                zone_id,
                source_id,
            ),
    {
        let faces: [MeshId; 0] = [];
        assert(faces@ =~= Seq::<MeshId>::empty());
        self.cell_with_faces(element_type, point_ids, &faces, zone_id, source_id)
    }

    pub fn tri3(&mut self, points: [MeshId; 3], zone: u64, source: u64) -> (result: MeshResult<MeshId>)
        requires
            old(self).wf(),
        ensures
            final(self).wf(),
            Self::cell_added(
                *old(self),
                *final(self),
                result,
                "tri3"@,
                points@,
                Seq::empty(),
                zone,
                source,
            ),
    {
        self.cell("tri3", &points, zone, source)
    }

    pub fn quad4(&mut self, points: [MeshId; 4], zone: u64, source: u64) -> (result: MeshResult<MeshId>)
        requires
            old(self).wf(),
        ensures
            final(self).wf(),
            Self::cell_added(
                *old(self),
                *final(self),
                result,
                "quad4"@,
                points@,
                Seq::empty(),
                zone,
                source,
            ),
    {
        self.cell("quad4", &points, zone, source)
    }

    pub fn tet4(&mut self, points: [MeshId; 4], zone: u64, source: u64) -> (result: MeshResult<MeshId>)
        requires
            old(self).wf(),
        ensures
            final(self).wf(),
            Self::cell_added(
                *old(self),
                *final(self),
                result,
                "tet4"@,
                points@,
                Seq::empty(),
                zone,
                source,
            ),
    {
        self.cell("tet4", &points, zone, source)
    }

    pub fn pyramid5(&mut self, points: [MeshId; 5], zone: u64, source: u64) -> (result: MeshResult<
        MeshId,
    >)
        requires
            old(self).wf(),
        ensures
            final(self).wf(),
            Self::cell_added(
                *old(self),
                *final(self),
                result,
                "pyramid5"@,
                points@,
                Seq::empty(),
                zone,
                source,
            ),
    {
        self.cell("pyramid5", &points, zone, source)
    }

    pub fn prism6(&mut self, points: [MeshId; 6], zone: u64, source: u64) -> (result: MeshResult<MeshId>)
        requires
            old(self).wf(),
        ensures
            final(self).wf(),
            Self::cell_added(
                *old(self),
                *final(self),
                result,
                "prism6"@,
                points@,
                Seq::empty(),
                zone,
                source,
            ),
    {
        self.cell("prism6", &points, zone, source)
    }

    pub fn hex8(&mut self, points: [MeshId; 8], zone: u64, source: u64) -> (result: MeshResult<MeshId>)
        requires
            old(self).wf(),
        ensures
            final(self).wf(),
            Self::cell_added(
                *old(self),
                *final(self),
                result,
                "hex8"@,
                points@,
                Seq::empty(),
                zone,
                source,
            ),
    {
        self.cell("hex8", &points, zone, source)
    }

    /// The finished chunk, where it is valid.
    pub fn build(self, dimension: u8) -> (result: MeshResult<MeshChunk>)
        requires
            self.wf(),
        ensures
            chunk_valid(self.chunk(), dimension) ==> result == Ok::<MeshChunk, MeshError>(
                self.chunk(),
            ),
            self.chunk().top_count(dimension) > MAX_BATCH_ROWS ==> fails_limit(
                result,
                rows_message(self.chunk()),
            ),
            self.chunk().top_count(dimension) <= MAX_BATCH_ROWS && held(self.chunk().byte_count())
                > MAX_BATCH_BYTES ==> fails_limit(result, bytes_message(self.chunk())),
            self.chunk().top_count(dimension) <= MAX_BATCH_ROWS && held(self.chunk().byte_count())
                <= MAX_BATCH_BYTES ==> match first_element_fault(self.chunk(), 0) {
                Some(text) => fails_input(result, text),
                None => result is Ok,
            },
    {
        proof {
            built_points_are_sound(self, 0);
        }
        let chunk = MeshChunk {
            id: self.id,
            bounds: self.bounds,
            points: self.points.values,
            edges: self.edges,
            faces: self.faces,
            cells: self.cells,
        };
        match chunk.validate(dimension) {
            Ok(()) => Ok(chunk),
            Err(error) => Err(error),
        }
    }
}

/// The error with which a chunk that was built is refused: too many elements,
/// too many bytes, or the first element that is wrong.
pub open spec fn build_refused<T>(chunk: MeshChunk, dimension: u8, result: MeshResult<T>) -> bool {
    if chunk.top_count(dimension) > MAX_BATCH_ROWS {
        fails_limit(result, rows_message(chunk))
    } else if held(chunk.byte_count()) > MAX_BATCH_BYTES {
        fails_limit(result, bytes_message(chunk))
    } else {
        first_element_fault(chunk, 0) matches Some(text) && fails_input(result, text)
    }
}

/// A builder never holds a bad point: none is double, none lies outside the
/// chunk, and each is owned by the chunk that its number names.
pub proof fn built_points_are_sound(builder: MeshChunkBuilder, from: int)
    requires
        builder.wf(),
        0 <= from,
    ensures
        first_point_fault(builder.chunk(), from) is None,
    decreases builder.points.values@.len() - from,
{
    let chunk = builder.chunk();
    if from < chunk.points@.len() {
        built_points_are_sound(builder, from + 1);
        assert(builder.points.keys@[from] == chunk.points@[from].id.bits);
        assert(!point_repeats(chunk.points@, from)) by {
            if point_repeats(chunk.points@, from) {
                let k = choose|k: int|
                    0 <= k < from && (#[trigger] chunk.points@[k]).id == chunk.points@[from].id;
                assert(builder.points.keys@[k] == chunk.points@[k].id.bits);
                crate::sorted::increasing_has_no_duplicates(builder.points.keys@);
            }
        }
    }
}

/// A chunk can be written exactly where it has a number and bounds, keeps to the limits, and
/// its parts keep the rules: no two points or elements share a number, every point is
/// finite, in the bounds and owned by the chunk that its number names, and every element
/// is of a known type with as many points as that has, all of them in the chunk.
pub proof fn valid_chunk_keeps_rules(chunk: MeshChunk, dimension: u8)
    ensures
        chunk_valid(chunk, dimension) <==> {
            let points = chunk.points@;
            let elements = all_elements(chunk);
            &&& chunk.id != 0
            &&& chunk.bounds.valid()
            &&& chunk.top_count(dimension) <= MAX_BATCH_ROWS
            &&& held(chunk.byte_count()) <= MAX_BATCH_BYTES
            &&& forall|i: int, j: int|
                0 <= i < j < points.len() ==> (#[trigger] points[i]).id != (#[trigger] points[j]).id
            &&& forall|i: int|
                0 <= i < points.len() ==> all_finite((#[trigger] points[i]).position)
                    && chunk.bounds.holds(points[i].position) && points[i].owner_chunk_id
                    == points[i].id.bits as int / 0x1_0000_0000
            &&& forall|i: int, j: int|
                0 <= i < j < elements.len() ==> (#[trigger] elements[i]).id != (
                #[trigger] elements[j]).id
            &&& forall|i: int, j: int|
                0 <= i < points.len() && 0 <= j < elements.len() ==> (#[trigger] points[i]).id != (
                #[trigger] elements[j]).id
            &&& forall|j: int|
                0 <= j < elements.len() ==> #[trigger] element_sound(chunk, elements[j])
        },
{
    let points = chunk.points@;
    let elements = all_elements(chunk);
    points_without_fault(chunk, 0);
    elements_without_fault(chunk, 0);
    if first_point_fault(chunk, 0) is None {
        assert forall|i: int, j: int| 0 <= i < j < points.len() implies (#[trigger] points[i]).id != (
        #[trigger] points[j]).id by {
            assert(point_fault(chunk, j) is None);
        }
        assert forall|i: int| 0 <= i < points.len() implies all_finite(
            (#[trigger] points[i]).position,
        ) && chunk.bounds.holds(points[i].position) && points[i].owner_chunk_id
            == points[i].id.bits as int / 0x1_0000_0000 by {
            assert(point_fault(chunk, i) is None);
        }
    }
    if first_element_fault(chunk, 0) is None {
        assert forall|i: int, j: int| 0 <= i < j < elements.len() implies (#[trigger] elements[i]).id
            != (#[trigger] elements[j]).id by {
            assert(element_fault(chunk, j) is None);
        }
        assert forall|i: int, j: int| 0 <= i < points.len() && 0 <= j < elements.len() implies (
        #[trigger] points[i]).id != (#[trigger] elements[j]).id by {
            assert(element_fault(chunk, j) is None);
            assert(!has_point(chunk, elements[j].id));
        }
        assert forall|j: int| 0 <= j < elements.len() implies #[trigger] element_sound(
            chunk,
            elements[j],
        ) by {
            assert(element_fault(chunk, j) is None);
            let element = elements[j];
            assert forall|k: int| 0 <= k < element.point_ids@.len() implies exists|i: int|
                0 <= i < points.len() && (#[trigger] points[i]).id
                    == #[trigger] element.point_ids@[k] by {
                assert(has_point(chunk, element.point_ids@[k]));
            }
        }
    }
    if forall|j: int| 0 <= j < elements.len() ==> #[trigger] element_sound(chunk, elements[j]) {
        assert forall|j: int| 0 <= j < elements.len() implies element_connected(
            chunk,
            #[trigger] elements[j],
        ) by {
            let element = elements[j];
            assert(element_sound(chunk, element));
            assert forall|k: int| 0 <= k < element.point_ids@.len() implies has_point(
                chunk,
                #[trigger] element.point_ids@[k],
            ) by {
                let i = choose|i: int|
                    0 <= i < points.len() && (#[trigger] points[i]).id == element.point_ids@[k];
                assert(points[i].id == element.point_ids@[k]);
            }
        }
        if (forall|i: int, j: int|
            0 <= i < j < elements.len() ==> (#[trigger] elements[i]).id != (
            #[trigger] elements[j]).id) && (forall|i: int, j: int|
            0 <= i < points.len() && 0 <= j < elements.len() ==> (#[trigger] points[i]).id != (
            #[trigger] elements[j]).id) {
            assert forall|j: int| 0 <= j < elements.len() implies (#[trigger] element_fault(
                chunk,
                j,
            )) is None by {
                assert(element_connected(chunk, elements[j]));
                assert(element_sound(chunk, elements[j]));
                if has_point(chunk, elements[j].id) {
                    let i = choose|i: int|
                        0 <= i < chunk.points@.len() && (#[trigger] chunk.points@[i]).id
                            == elements[j].id;
                    assert(points[i].id == elements[j].id);
                }
            }
        }
    }
    if (forall|i: int, j: int|
        0 <= i < j < points.len() ==> (#[trigger] points[i]).id != (#[trigger] points[j]).id)
        && forall|i: int|
        0 <= i < points.len() ==> all_finite((#[trigger] points[i]).position)
            && chunk.bounds.holds(points[i].position) && points[i].owner_chunk_id
            == points[i].id.bits as int / 0x1_0000_0000 {
        assert forall|i: int| 0 <= i < points.len() implies (#[trigger] point_fault(
            chunk,
            i,
        )) is None by {
            assert(all_finite(points[i].position));
        }
    }
}

/// The element is of a known type, has as many points as that, all of them in the chunk,
/// and names faces where it is a polyhedron.
pub open spec fn element_sound(chunk: MeshChunk, element: ChunkElement) -> bool {
    &&& points_of(element.element_type@) is Some
    &&& arity_ok(element.element_type@, element.point_ids@.len())
    &&& forall|k: int|
        0 <= k < element.point_ids@.len() ==> exists|i: int|
            0 <= i < chunk.points@.len() && (#[trigger] chunk.points@[i]).id
                == #[trigger] element.point_ids@[k]
    &&& element.element_type@ == "polyhedron"@ ==> element.face_ids@.len() > 0
}

proof fn points_without_fault(chunk: MeshChunk, from: int)
    requires
        0 <= from <= chunk.points@.len(),
    ensures
        first_point_fault(chunk, from) is None <==> forall|i: int|
            from <= i < chunk.points@.len() ==> (#[trigger] point_fault(chunk, i)) is None,
    decreases chunk.points@.len() - from,
{
    if from < chunk.points@.len() {
        points_without_fault(chunk, from + 1);
        assert(point_fault(chunk, from) is None || point_fault(chunk, from) is Some);
    }
}

proof fn elements_without_fault(chunk: MeshChunk, from: int)
    requires
        0 <= from <= all_elements(chunk).len(),
    ensures
        first_element_fault(chunk, from) is None <==> forall|i: int|
            from <= i < all_elements(chunk).len() ==> (#[trigger] element_fault(chunk, i)) is None,
    decreases all_elements(chunk).len() - from,
{
    if from < all_elements(chunk).len() {
        elements_without_fault(chunk, from + 1);
        assert(element_fault(chunk, from) is None || element_fault(chunk, from) is Some);
    }
}

/// After a point the next free place is never lower than before, and past the point's own where
/// the chunk gave it its number.
pub proof fn next_place_is_free(builder: MeshChunkBuilder, id: MeshId)
    ensures
        next_point_after(builder, id) >= builder.next_point,
        id.chunk() == builder.id && id.low() < EDGE_ORDINAL ==> next_point_after(builder, id)
            > id.low(),
        next_point_after(builder, id) == builder.next_point || next_point_after(builder, id)
            == id.low() + 1,
{
}

/// A cell that is added stands last, behind all that were there, as it was asked for: with its
/// type, its points, faces, zone and source, owned by no other cell and off the boundary, under
/// a number of this chunk that no cell before it got.
pub proof fn added_cell_is_as_asked(
    before: MeshChunkBuilder,
    after: MeshChunkBuilder,
    result: MeshResult<MeshId>,
    element_type: Seq<char>,
    point_ids: Seq<MeshId>,
    face_ids: Seq<MeshId>,
    zone_id: u64,
    source_id: u64,
)
    requires
        MeshChunkBuilder::cell_added(
            before,
            after,
            result,
            element_type,
            point_ids,
            face_ids,
            zone_id,
            source_id,
        ),
    ensures
        result matches Ok(id) ==> {
            let cell = after.cells@.last();
            &&& after.cells@.len() == before.cells@.len() + 1
            &&& forall|i: int| 0 <= i < before.cells@.len() ==> #[trigger] after.cells@[i]
                == before.cells@[i]
            &&& cell.id == id
            &&& id.chunk() == before.id
            &&& id.low() == CELL_ORDINAL + before.next_cell
            &&& after.next_cell == before.next_cell + 1
            &&& cell.element_type@ == element_type
            &&& cell.point_ids@ == point_ids
            &&& cell.face_ids@ == face_ids
            &&& cell.zone_id == Some(zone_id)
            &&& cell.source_id == Some(source_id)
            &&& cell.owner_cell_id is None && cell.neighbor_cell_id is None
            &&& !cell.boundary
            &&& arity_ok(element_type, point_ids.len())
        },
        result is Err ==> after.cells == before.cells,
        after.points == before.points && after.edges == before.edges && after.faces == before.faces,
{
    if result is Ok {
        id_tells_entity(
            before.id,
            CELL_ORDINAL,
            before.next_cell,
            before.id,
            CELL_ORDINAL,
            before.next_cell,
        );
        assert forall|i: int| 0 <= i < before.cells@.len() implies #[trigger] after.cells@[i]
            == before.cells@[i] by {
            assert(after.cells@.drop_last()[i] == before.cells@[i]);
        }
    }
}

} // verus!
