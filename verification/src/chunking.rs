//! Cutting the cells of a mesh into chunks: which cells a chunk holds, which
//! chunk owns a point, and where each point is written.

use vstd::prelude::*;

#[allow(unused_imports)]
use crate::chunk::MeshChunkBuilder;
use crate::chunk::MeshId;
#[allow(unused_imports)]
use crate::emission::{chunk_cells, chunks_needed, points_filled};
use crate::emission::{PlacedPoints, SharedPoint};
use crate::number::Vector3;
use crate::sorted::{Key, SortedMap};
#[allow(unused_imports)]
use crate::sorted::increasing;

verus! {

/// The cells of the chunk at a place: from the first number up to, not
/// including, the second.
pub fn chunk_range(cells: usize, per_chunk: usize, place: usize) -> (result: (usize, usize))
    requires
        per_chunk >= 1,
        place < chunks_needed(cells as int, per_chunk as int),
    ensures
        result.0 == place * per_chunk,
        result.0 < cells,
        result.1 == (if result.0 + per_chunk < cells {
            result.0 + per_chunk
        } else {
            cells as int
        }),
        result.1 - result.0 == chunk_cells(cells as int, per_chunk as int, place as int),
{
    proof {
        let c = cells as int;
        let p = per_chunk as int;
        assert((place + 1) * p == place * p + p) by (nonlinear_arith);
        let q = chunks_needed(c, p);
        vstd::arithmetic::div_mod::lemma_fundamental_div_mod(c + p - 1, p);
        assert(place * p < c) by (nonlinear_arith)
            requires
                place + 1 <= q,
                p >= 1,
                p * q <= c + p - 1,
        ;
        assert(place * p >= 0) by (nonlinear_arith)
            requires
                p >= 1,
                place >= 0,
        ;
    }
    let start: usize = place * per_chunk;
    let end: usize = if per_chunk < cells - start {
        start + per_chunk
    } else {
        cells
    };
    (start, end)
}

/// The chunk that owns each point: that of the first cell that uses it.
pub fn owning_chunks(users: &Vec<usize>, per_chunk: usize) -> (result: Vec<usize>)
    requires
        per_chunk >= 1,
    ensures
        result@.len() == users@.len(),
        forall|i: int|
            0 <= i < users@.len() ==> #[trigger] result@[i] == users@[i] as int / per_chunk as int,
{
    let mut owners: Vec<usize> = Vec::new();
    let mut i: usize = 0;
    while i < users.len()
        invariant
            i <= users@.len(),
            per_chunk >= 1,
            owners@.len() == i,
            forall|k: int|
                0 <= k < i ==> #[trigger] owners@[k] == users@[k] as int / per_chunk as int,
        decreases users@.len() - i,
    {
        owners.push(users[i] / per_chunk);
        i += 1;
    }
    owners
}

/// Where a point is written: at the point of an earlier domain that it meets, or
/// at its own place.
pub open spec fn written_at(shared: Option<SharedPoint>, spot: Vector3) -> Vector3 {
    match shared {
        Some(other) => other.position,
        None => spot,
    }
}

/// Puts the points where they are written, under their numbers.
pub fn place_points<K: Key + Copy>(
    keys: &Vec<K>,
    ids: &Vec<MeshId>,
    spots: &Vec<Vector3>,
    shared: &Vec<Option<SharedPoint>>,
) -> (result: PlacedPoints<K>)
    requires
        increasing(keys@),
        ids@.len() == keys@.len(),
        spots@.len() == keys@.len(),
        shared@.len() == keys@.len(),
    ensures
        result.wf(),
        result.keys@ == keys@,
        forall|i: int|
            0 <= i < keys@.len() ==> result@.dom().contains(#[trigger] keys@[i])
                && result@[keys@[i]].id == ids@[i] && result@[keys@[i]].position == written_at(
                shared@[i],
                spots@[i],
            ),
{
    let mut names: Vec<K> = Vec::new();
    let mut values: Vec<SharedPoint> = Vec::new();
    let mut i: usize = 0;
    while i < keys.len()
        invariant
            i <= keys@.len(),
            ids@.len() == keys@.len(),
            spots@.len() == keys@.len(),
            shared@.len() == keys@.len(),
            names@ == keys@.take(i as int),
            values@.len() == i,
            forall|k: int|
                0 <= k < i ==> (#[trigger] values@[k]).id == ids@[k] && values@[k].position
                    == written_at(shared@[k], spots@[k]),
        decreases keys@.len() - i,
    {
        let position = match shared[i] {
            Some(other) => other.position,
            None => spots[i],
        };
        names.push(keys[i]);
        values.push(SharedPoint { id: ids[i], position });
        assert(names@ =~= keys@.take(i + 1));
        i += 1;
    }
    assert(names@ =~= keys@);
    let placed = SortedMap { keys: names, values };
    proof {
        assert forall|k: int| 0 <= k < keys@.len() implies placed@.dom().contains(
            #[trigger] keys@[k],
        ) && placed@[keys@[k]] == values@[k] by {
            placed.entry_at(k);
        }
    }
    placed
}

/// A point that two chunks use has one number in both, and lies at one position.
pub proof fn chunks_agree_on_points<K>(
    a: MeshChunkBuilder,
    b: MeshChunkBuilder,
    used_a: Seq<K>,
    used_b: Seq<K>,
    placed: Map<K, SharedPoint>,
    boundary: Set<K>,
    point: K,
)
    requires
        points_filled(a, used_a, used_a.len() as int, placed, boundary),
        points_filled(b, used_b, used_b.len() as int, placed, boundary),
        used_a.contains(point),
        used_b.contains(point),
    ensures
        a.points@.dom().contains(placed[point].id.bits),
        b.points@.dom().contains(placed[point].id.bits),
        a.points@[placed[point].id.bits].position == b.points@[placed[point].id.bits].position,
        a.points@[placed[point].id.bits].position == placed[point].position,
{
    let i = used_a.index_of(point);
    let j = used_b.index_of(point);
    assert(used_a[i] == point && used_b[j] == point);
}

} // verus!
