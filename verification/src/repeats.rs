//! Meshing the same twice gives the same: a range of cells with its points,
//! edges or faces settles the chunk that is built of it.

use vstd::prelude::*;

#[allow(unused_imports)]
use crate::chunk::{ChunkElement, ChunkPoint, MeshChunk, MeshChunkBuilder};
#[allow(unused_imports)]
use crate::emission::{cells_filled, holds_range, points_filled, SharedPoint, TaggedEdge};
#[allow(unused_imports)]
use crate::schema::Bounds3;
#[allow(unused_imports)]
use crate::solid_emission::{holds_solid_range, TaggedFace};
#[allow(unused_imports)]
use crate::sorted::increasing_sequence_is_unique;

verus! {

/// The points say the same.
pub open spec fn same_point(a: ChunkPoint, b: ChunkPoint) -> bool {
    &&& a.id == b.id
    &&& a.owner_chunk_id == b.owner_chunk_id
    &&& a.position == b.position
    &&& a.classification@ == b.classification@
    &&& a.tag_ids@ == b.tag_ids@
}

/// The elements say the same.
pub open spec fn same_element(a: ChunkElement, b: ChunkElement) -> bool {
    &&& a.id == b.id
    &&& a.element_type@ == b.element_type@
    &&& a.point_ids@ == b.point_ids@
    &&& a.edge_ids@ == b.edge_ids@
    &&& a.face_ids@ == b.face_ids@
    &&& a.tag_ids@ == b.tag_ids@
    &&& a.owner_cell_id == b.owner_cell_id
    &&& a.neighbor_cell_id == b.neighbor_cell_id
    &&& a.zone_id == b.zone_id
    &&& a.source_id == b.source_id
    &&& a.boundary == b.boundary
}

/// The elements say the same, one by one.
pub open spec fn same_elements(a: Seq<ChunkElement>, b: Seq<ChunkElement>) -> bool {
    &&& a.len() == b.len()
    &&& forall|i: int| 0 <= i < a.len() ==> same_element(#[trigger] a[i], b[i])
}

/// The chunks say the same.
pub open spec fn same_chunk(a: MeshChunk, b: MeshChunk) -> bool {
    &&& a.id == b.id
    &&& a.bounds == b.bounds
    &&& a.points@.len() == b.points@.len()
    &&& forall|i: int|
        0 <= i < a.points@.len() ==> same_point(#[trigger] a.points@[i], b.points@[i])
    &&& same_elements(a.edges@, b.edges@)
    &&& same_elements(a.faces@, b.faces@)
    &&& same_elements(a.cells@, b.cells@)
}

proof fn points_settled<K>(
    a: MeshChunkBuilder,
    b: MeshChunkBuilder,
    used: Seq<K>,
    placed: Map<K, SharedPoint>,
    boundary: Set<K>,
)
    requires
        a.wf(),
        b.wf(),
        points_filled(a, used, used.len() as int, placed, boundary),
        points_filled(b, used, used.len() as int, placed, boundary),
    ensures
        a.points.values@.len() == b.points.values@.len(),
        forall|i: int|
            0 <= i < a.points.values@.len() ==> same_point(
                #[trigger] a.points.values@[i],
                b.points.values@[i],
            ),
{
    let left = a.points.keys@;
    let right = b.points.keys@;
    assert forall|bits: u64| left.contains(bits) == right.contains(bits) by {
        assert(a.points@.dom().contains(bits) == left.contains(bits));
        assert(b.points@.dom().contains(bits) == right.contains(bits));
        if left.contains(bits) {
            let i = choose|i: int|
                0 <= i < used.len() && placed[#[trigger] used[i]].id.bits == bits;
            assert(b.points@.dom().contains(placed[used[i]].id.bits));
        }
        if right.contains(bits) {
            let i = choose|i: int|
                0 <= i < used.len() && placed[#[trigger] used[i]].id.bits == bits;
            assert(a.points@.dom().contains(placed[used[i]].id.bits));
        }
    }
    assert(left.to_set() =~= right.to_set());
    increasing_sequence_is_unique(left, right);
    assert forall|i: int| 0 <= i < a.points.values@.len() implies same_point(
        #[trigger] a.points.values@[i],
        b.points.values@[i],
    ) by {
        a.points.entry_at(i);
        b.points.entry_at(i);
        let bits = left[i];
        assert(a.points@.dom().contains(bits));
        let k = choose|k: int| 0 <= k < used.len() && placed[#[trigger] used[k]].id.bits == bits;
        assert(placed[used[k]].id.bits == bits);
        assert(a.points.values@[i].tag_ids@ =~= b.points.values@[i].tag_ids@);
        assert(a.points.keys@[i] == b.points.keys@[i]);
    }
}

proof fn cells_settled<K>(
    dimension: u8,
    a: MeshChunkBuilder,
    b: MeshChunkBuilder,
    cells: Seq<Seq<K>>,
    start: int,
    count: int,
    placed: Map<K, SharedPoint>,
    zone: u64,
    source: u64,
)
    requires
        a.id == b.id,
        cells_filled(dimension, a, cells, start, count, placed, zone, source),
        cells_filled(dimension, b, cells, start, count, placed, zone, source),
    ensures
        same_elements(a.cells@, b.cells@),
{
    assert forall|i: int| 0 <= i < a.cells@.len() implies same_element(
        #[trigger] a.cells@[i],
        b.cells@[i],
    ) by {
        assert(a.cells@[i].edge_ids@ =~= b.cells@[i].edge_ids@);
    }
}

/// The same range of a planar mesh, with the same points and edges, under the
/// same numbers, gives the same chunk.
pub proof fn chunk_is_settled<K>(
    a: MeshChunkBuilder,
    b: MeshChunkBuilder,
    chunk_id: u32,
    bounds: Bounds3,
    used: Seq<K>,
    boundary: Set<K>,
    cells: Seq<Seq<K>>,
    start: int,
    end: int,
    placed: Map<K, SharedPoint>,
    edges: Seq<TaggedEdge<K>>,
    zone: u64,
    source: u64,
)
    requires
        holds_range(
            a,
            chunk_id,
            bounds,
            used,
            boundary,
            cells,
            start,
            end,
            placed,
            edges,
            zone,
            source,
        ),
        holds_range(
            b,
            chunk_id,
            bounds,
            used,
            boundary,
            cells,
            start,
            end,
            placed,
            edges,
            zone,
            source,
        ),
    ensures
        same_chunk(a.chunk(), b.chunk()),
{
    points_settled(a, b, used, placed, boundary);
    cells_settled(2, a, b, cells, start, end - start, placed, zone, source);
    assert forall|i: int| 0 <= i < a.edges@.len() implies same_element(
        #[trigger] a.edges@[i],
        b.edges@[i],
    ) by {
        assert(a.edges@[i].edge_ids@ =~= b.edges@[i].edge_ids@);
    }
}

/// The same range of a solid mesh, with the same points and faces, under the
/// same numbers, gives the same chunk.
pub proof fn solid_chunk_is_settled<K>(
    a: MeshChunkBuilder,
    b: MeshChunkBuilder,
    chunk_id: u32,
    bounds: Bounds3,
    used: Seq<K>,
    boundary: Set<K>,
    cells: Seq<Seq<K>>,
    start: int,
    end: int,
    placed: Map<K, SharedPoint>,
    faces: Seq<TaggedFace<K>>,
    zone: u64,
    source: u64,
)
    requires
        holds_solid_range(
            a,
            chunk_id,
            bounds,
            used,
            boundary,
            cells,
            start,
            end,
            placed,
            faces,
            zone,
            source,
        ),
        holds_solid_range(
            b,
            chunk_id,
            bounds,
            used,
            boundary,
            cells,
            start,
            end,
            placed,
            faces,
            zone,
            source,
        ),
    ensures
        same_chunk(a.chunk(), b.chunk()),
{
    points_settled(a, b, used, placed, boundary);
    cells_settled(3, a, b, cells, start, end - start, placed, zone, source);
    assert forall|i: int| 0 <= i < a.faces@.len() implies same_element(
        #[trigger] a.faces@[i],
        b.faces@[i],
    ) by {
        assert(a.faces@[i].edge_ids@ =~= b.faces@[i].edge_ids@);
    }
}

} // verus!
