//! Writing a mesh out: how cells are cut into chunks, which chunk owns a
//! point, which number it gets, and what a chunk holds.

use vstd::prelude::*;
use vstd::string::StringExecFns;

use crate::algorithm::{MeshingPhase, MeshingProgress, MeshingStatistics};
use crate::assess::Assessment;
use crate::chunk::{MeshChunk, MeshChunkBuilder, MeshId, ORDINAL_MASK};
#[allow(unused_imports)]
use crate::chunk::{
    build_refused, chunk_valid, element_made, point_taken_message, CELL_ORDINAL, EDGE_ORDINAL,
};
use crate::error::{MeshError, MeshResult};
#[allow(unused_imports)]
use crate::error::{fails_input, fails_limit};
use crate::number::Vector3;
#[allow(unused_imports)]
use crate::number::all_finite;
use crate::schema::Bounds3;
#[allow(unused_imports)]
use crate::schema::arity_ok;
use crate::sorted::{Key, SortedMap, SortedSet};
use crate::text::{append_decimal, around, quoted, sentence, sentence2};
#[allow(unused_imports)]
use crate::text::{debug_text, decimal};

verus! {

/// The bytes that a cell of a 2D mesh is taken to need in a chunk.
pub const PLANAR_CELL_BYTES: usize = 2_048;

/// The bytes that a cell of a 3D mesh is taken to need in a chunk.
pub const SOLID_CELL_BYTES: usize = 4_096;

/// Why a mesh is not written.
#[derive(Debug)]
pub enum EmissionFault {
    /// There is nothing to write.
    Empty(MeshError),
    /// The audit found the mesh invalid.
    Unsound,
    /// Two edges of cells cross.
    Crossing,
    /// There are too many cells.
    TooLarge(MeshError),
}

pub open spec fn empty_message(domain: Seq<char>) -> Seq<char> {
    "domain "@ + debug_text(domain) + " produced no valid 2D elements"@
}

pub open spec fn no_solid_message(domain: Seq<char>) -> Seq<char> {
    "domain "@ + debug_text(domain) + " produced no valid 3D elements"@
}

pub open spec fn too_large_message(max_cells: u64) -> Seq<char> {
    "mesh exceeds the configured "@ + decimal(max_cells as nat) + " cell limit"@
}

/// Whether a mesh may be written; `crossing` says that two edges of its cells
/// cross.
pub fn check_emission(
    domain: &str,
    cell_count: usize,
    assessment: &Assessment,
    crossing: bool,
    max_cells: u64,
) -> (result: Result<(), EmissionFault>)
    ensures
        ({
            let sound = assessment.refine.items@.len() == 0 && assessment.score.hard_invalid == 0;
            &&& cell_count == 0 ==> (result matches Err(EmissionFault::Empty(error)) && error
                is InvalidInput && error.text() == empty_message(domain@))
            &&& cell_count > 0 && !sound ==> result == Err::<(), EmissionFault>(
                EmissionFault::Unsound,
            )
            &&& cell_count > 0 && sound && crossing ==> result == Err::<(), EmissionFault>(
                EmissionFault::Crossing,
            )
            &&& cell_count > 0 && sound && !crossing && cell_count > max_cells ==> (
            result matches Err(EmissionFault::TooLarge(error)) && error is LimitExceeded
                && error.text() == too_large_message(max_cells))
            &&& cell_count > 0 && sound && !crossing && cell_count <= max_cells ==> result is Ok
        }),
{
    if cell_count == 0 {
        let text = around("domain ", quoted(domain).as_str(), " produced no valid 2D elements");
        return Err(EmissionFault::Empty(MeshError::InvalidInput(text)));
    }
    if assessment.refine.items.len() > 0 || assessment.score.hard_invalid != 0 {
        return Err(EmissionFault::Unsound);
    }
    if crossing {
        return Err(EmissionFault::Crossing);
    }
    if cell_count as u64 > max_cells {
        let text = sentence("mesh exceeds the configured ", max_cells, " cell limit");
        return Err(EmissionFault::TooLarge(MeshError::LimitExceeded(text)));
    }
    Ok(())
}

/// The bytes that a triangulation beside a chunk is taken to need, over those
/// of its empty frame.
pub fn tile_bytes(frame: usize, vertices: usize, edges: usize, faces: usize) -> (result: usize)
    requires
        frame + 128 * vertices + 96 * edges + 64 * faces <= usize::MAX,
    ensures
        result == frame + 128 * vertices + 96 * edges + 64 * faces,
{
    frame + 128 * vertices + 96 * edges + 64 * faces
}

pub open spec fn active_message(chunk: u32, active: u64, target: usize) -> Seq<char> {
    "DistMesh chunk "@ + decimal(chunk as nat)
        + " active Spade tile and writer batch require "@ + decimal(active as nat)
        + " bytes, exceeding the configured "@ + decimal(target as nat) + " byte chunk target"@
}

/// Refuses a chunk that needs more bytes than a chunk should.
pub fn check_active_bytes(chunk: u32, active: u64, target: usize) -> (result: MeshResult<()>)
    ensures
        active <= target ==> result is Ok,
        active > target ==> fails_limit(result, active_message(chunk, active, target)),
{
    if active > target as u64 {
        let mut text = sentence2(
            "DistMesh chunk ",
            chunk as u64,
            " active Spade tile and writer batch require ",
            active,
            " bytes, exceeding the configured ",
        );
        append_decimal(&mut text, target as u64);
        text.append(" byte chunk target");
        return Err(MeshError::LimitExceeded(text));
    }
    Ok(())
}

/// Whether a 3D mesh may be written: it has cells, and not too many.
pub fn check_solid_emission(domain: &str, cell_count: usize, max_cells: u64) -> (result: MeshResult<()>)
    ensures
        cell_count == 0 ==> fails_input(result, no_solid_message(domain@)),
        cell_count > max_cells && cell_count > 0 ==> fails_limit(
            result,
            too_large_message(max_cells),
        ),
        0 < cell_count <= max_cells ==> result is Ok,
{
    if cell_count == 0 {
        let text = around("domain ", quoted(domain).as_str(), " produced no valid 3D elements");
        return Err(MeshError::InvalidInput(text));
    }
    if cell_count as u64 > max_cells {
        let text = sentence("mesh exceeds the configured ", max_cells, " cell limit");
        return Err(MeshError::LimitExceeded(text));
    }
    Ok(())
}

/// The number of cells in a chunk: as many as fit its target, at least one.
pub open spec fn chunk_capacity(target_chunk_bytes: usize, cell_bytes: usize) -> int {
    if target_chunk_bytes / cell_bytes == 0 {
        1
    } else {
        (target_chunk_bytes / cell_bytes) as int
    }
}

pub fn cells_per_chunk(target_chunk_bytes: usize, cell_bytes: usize) -> (result: usize)
    requires
        cell_bytes > 0,
    ensures
        result == chunk_capacity(target_chunk_bytes, cell_bytes),
        result >= 1,
{
    let count: usize = target_chunk_bytes / cell_bytes;
    if count == 0 {
        1
    } else {
        count
    }
}

/// The number of chunks that so many cells need.
pub open spec fn chunks_needed(cells: int, per_chunk: int) -> int {
    (cells + per_chunk - 1) / per_chunk
}

pub fn chunk_count(cells: usize, per_chunk: usize) -> (result: usize)
    requires
        per_chunk >= 1,
    ensures
        result == chunks_needed(cells as int, per_chunk as int),
        cells > 0 ==> result > 0,
        forall|index: int| 0 <= index < cells ==> #[trigger] (index / per_chunk as int) < result,
{
    let whole: usize = cells / per_chunk;
    let rest: usize = cells % per_chunk;
    let ghost c = cells as int;
    let ghost p = per_chunk as int;
    let ghost w = whole as int;
    let ghost r = rest as int;
    proof {
        vstd::arithmetic::div_mod::lemma_fundamental_div_mod(c, p);
        assert(p * w == w * p) by (nonlinear_arith);
        if r == 0 {
            vstd::arithmetic::div_mod::lemma_fundamental_div_mod_converse(
                c + p - 1,
                p,
                w,
                p - 1,
            );
        } else {
            assert((w + 1) * p == w * p + p) by (nonlinear_arith);
            vstd::arithmetic::div_mod::lemma_fundamental_div_mod_converse(
                c + p - 1,
                p,
                w + 1,
                r - 1,
            );
        }
        assert(0 <= w <= c) by (nonlinear_arith)
            requires
                c == p * w + r,
                p >= 1,
                r >= 0,
                w >= 0,
        ;
        if r > 0 {
            assert(w < c) by (nonlinear_arith)
                requires
                    c == p * w + r,
                    p >= 1,
                    r >= 1,
                    w >= 0,
            ;
        }
        let n = if r == 0 {
            w
        } else {
            w + 1
        };
        assert(n * p >= c) by (nonlinear_arith)
            requires
                c == p * w + r,
                0 <= r < p,
                n == (if r == 0 {
                    w
                } else {
                    w + 1
                }),
        ;
        if c > 0 {
            assert(n > 0) by (nonlinear_arith)
                requires
                    n * p >= c,
                    c > 0,
                    p >= 1,
            ;
        }
        assert forall|index: int| 0 <= index < c implies #[trigger] (index / p) < n by {
            vstd::arithmetic::div_mod::lemma_fundamental_div_mod(index, p);
            let q = index / p;
            let m = index % p;
            assert(q < n) by (nonlinear_arith)
                requires
                    index == p * q + m,
                    0 <= m < p,
                    index < c,
                    c <= n * p,
                    p >= 1,
            ;
        }
    }
    if rest == 0 {
        whole
    } else {
        whole + 1
    }
}

/// The points of each cell.
pub open spec fn point_lists<K>(cells: Seq<Vec<K>>) -> Seq<Seq<K>> {
    cells.map_values(|cell: Vec<K>| cell@)
}

/// Some cell among the first `count` holds the point.
pub open spec fn point_used<K>(cells: Seq<Seq<K>>, count: int, point: K) -> bool {
    exists|i: int| 0 <= i < count && (#[trigger] cells[i]).contains(point)
}

/// The first cell that holds the point.
pub open spec fn first_user<K>(cells: Seq<Seq<K>>, point: K, from: int) -> int
    decreases cells.len() - from,
{
    if from < 0 || from >= cells.len() || cells[from].contains(point) {
        from
    } else {
        first_user(cells, point, from + 1)
    }
}

proof fn first_user_is_first<K>(cells: Seq<Seq<K>>, point: K, from: int, at: int)
    requires
        0 <= from <= at < cells.len(),
        cells[at].contains(point),
        forall|i: int| from <= i < at ==> !(#[trigger] cells[i]).contains(point),
    ensures
        first_user(cells, point, from) == at,
    decreases at - from,
{
    if from < at {
        assert(!cells[from].contains(point));
        first_user_is_first(cells, point, from + 1, at);
    }
}

/// The points that cells use, each with the first cell that uses it.
pub fn point_users<K: Key + Copy>(cells: &Vec<Vec<K>>) -> (result: SortedMap<K, usize>)
    ensures
        result.wf(),
        forall|point: K| #[trigger]
            result@.dom().contains(point) <==> point_used(
                point_lists(cells@),
                cells@.len() as int,
                point,
            ),
        forall|point: K| #[trigger]
            result@.dom().contains(point) ==> result@[point] == first_user(
                point_lists(cells@),
                point,
                0,
            ) && result@[point] < cells.len(),
{
    let ghost views = point_lists(cells@);
    let mut users: SortedMap<K, usize> = SortedMap::new();
    let mut i: usize = 0;
    while i < cells.len()
        invariant
            i <= cells.len(),
            views == point_lists(cells@),
            users.wf(),
            forall|point: K| #[trigger]
                users@.dom().contains(point) <==> point_used(views, i as int, point),
            forall|point: K| #[trigger]
                users@.dom().contains(point) ==> users@[point] == first_user(views, point, 0)
                    && users@[point] < cells.len(),
        decreases cells.len() - i,
    {
        let points = &cells[i];
        let ghost before = users@;
        assert(views[i as int] == cells[i as int]@);
        let mut k: usize = 0;
        while k < points.len()
            invariant
                i < cells.len(),
                k <= points.len(),
                views == point_lists(cells@),
                points@ == views[i as int],
                users.wf(),
                forall|point: K| #[trigger]
                    before.dom().contains(point) <==> point_used(views, i as int, point),
                forall|point: K| #[trigger]
                    users@.dom().contains(point) <==> before.dom().contains(point)
                        || points@.take(k as int).contains(point),
                forall|point: K| #[trigger]
                    users@.dom().contains(point) ==> users@[point] == first_user(views, point, 0)
                        && users@[point] < cells.len(),
            decreases points.len() - k,
        {
            let point = points[k];
            let ghost partial = users@;
            if !users.contains_key(&point) {
                proof {
                    assert(points@.contains(point)) by {
                        assert(points@[k as int] == point);
                    }
                    assert(!point_used(views, i as int, point));
                    assert forall|j: int| 0 <= j < i implies !(#[trigger] views[j]).contains(
                        point,
                    ) by {
                        if views[j].contains(point) {
                            assert(point_used(views, i as int, point));
                        }
                    }
                    first_user_is_first(views, point, 0, i as int);
                }
                users.insert(point, i);
            }
            proof {
                let short = points@.take(k as int);
                let long = points@.take(k as int + 1);
                assert forall|other: K| #[trigger]
                    users@.dom().contains(other) <==> before.dom().contains(other)
                        || long.contains(other) by {
                    assert(partial.dom().contains(other) <==> before.dom().contains(other)
                        || short.contains(other));
                    if short.contains(other) {
                        let p = short.index_of(other);
                        assert(long[p] == other);
                    }
                    if long.contains(other) && other != point {
                        let p = long.index_of(other);
                        assert(short[p] == other);
                    }
                    assert(long[k as int] == point);
                }
            }
            k = k + 1;
        }
        proof {
            assert(points@.take(k as int) =~= points@);
            assert forall|point: K| #[trigger]
                users@.dom().contains(point) <==> point_used(views, i + 1, point) by {
                assert(before.dom().contains(point) <==> point_used(views, i as int, point));
                if point_used(views, i as int, point) {
                    let j = choose|j: int|
                        0 <= j < i && (#[trigger] views[j]).contains(point);
                    assert(0 <= j < i + 1 && views[j].contains(point));
                }
                if point_used(views, i + 1, point) {
                    let j = choose|j: int|
                        0 <= j < i + 1 && (#[trigger] views[j]).contains(point);
                    if j < i {
                        assert(point_used(views, i as int, point));
                    }
                }
                if points@.contains(point) {
                    assert(views[i as int].contains(point));
                }
            }
        }
        i = i + 1;
    }
    users
}

/// A point of an earlier domain that this mesh's boundary meets.
#[derive(Debug, Clone, Copy)]
pub struct SharedPoint {
    pub id: MeshId,
    pub position: Vector3,
}

/// How many of the first `count` points are the chunk's own: first used in it
/// and not shared.
pub open spec fn owned_before(
    owners: Seq<usize>,
    shared: Seq<Option<SharedPoint>>,
    chunk: int,
    count: int,
) -> nat
    decreases count,
{
    if count <= 0 {
        0
    } else {
        owned_before(owners, shared, chunk, count - 1) + (if owners[count - 1] == chunk
            && shared[count - 1] is None {
            1nat
        } else {
            0nat
        })
    }
}

/// The number of the point at a place: a shared one keeps its number, another
/// gets the next one of the chunk that uses it first.
pub open spec fn point_number(
    owners: Seq<usize>,
    shared: Seq<Option<SharedPoint>>,
    chunk_ids: Seq<u32>,
    place: int,
) -> MeshId {
    match shared[place] {
        Some(point) => point.id,
        None => MeshId {
            bits: (chunk_ids[owners[place] as int] * 0x1_0000_0000 + owned_before(
                owners,
                shared,
                owners[place] as int,
                place,
            ) + 1) as u64,
        },
    }
}

/// Some chunk would own more points than it can number.
pub open spec fn numbers_run_out(owners: Seq<usize>, shared: Seq<Option<SharedPoint>>) -> bool {
    exists|place: int|
        0 <= place < owners.len() && shared[place] is None && #[trigger] owned_before(
            owners,
            shared,
            owners[place] as int,
            place,
        ) + 1 >= u32::MAX
}

pub open spec fn exhausted_message(dimension: u8) -> Seq<char> {
    if dimension == 3 {
        "3D point ID space exhausted"@
    } else {
        "2D point ID space exhausted"@
    }
}

/// Numbers the points. `owners[i]` is the chunk that uses point `i` first and
/// `shared[i]` the point of an earlier domain that it coincides with.
pub fn number_points(
    dimension: u8,
    owners: &Vec<usize>,
    shared: &Vec<Option<SharedPoint>>,
    chunk_ids: &Vec<u32>,
) -> (result: MeshResult<Vec<MeshId>>)
    requires
        shared.len() == owners.len(),
        forall|i: int| 0 <= i < owners.len() ==> (#[trigger] owners[i]) < chunk_ids.len(),
    ensures
        numbers_run_out(owners@, shared@) ==> fails_limit(result, exhausted_message(dimension)),
        !numbers_run_out(owners@, shared@) ==> (result matches Ok(ids) && ids.len() == owners.len()
            && forall|i: int|
            0 <= i < ids.len() ==> #[trigger] ids[i] == point_number(
                owners@,
                shared@,
                chunk_ids@,
                i,
            )),
{
    let mut ordinals: Vec<u32> = Vec::new();
    let mut c: usize = 0;
    while c < chunk_ids.len()
        invariant
            c <= chunk_ids.len(),
            ordinals.len() == c,
            forall|k: int| 0 <= k < c ==> #[trigger] ordinals[k] == 1,
        decreases chunk_ids.len() - c,
    {
        ordinals.push(1);
        c = c + 1;
    }
    let mut ids: Vec<MeshId> = Vec::new();
    let mut i: usize = 0;
    while i < owners.len()
        invariant
            i <= owners.len(),
            shared.len() == owners.len(),
            ordinals.len() == chunk_ids.len(),
            forall|k: int| 0 <= k < owners.len() ==> (#[trigger] owners[k]) < chunk_ids.len(),
            forall|k: int|
                0 <= k < ordinals.len() ==> #[trigger] ordinals[k] == owned_before(
                    owners@,
                    shared@,
                    k,
                    i as int,
                ) + 1,
            forall|k: int|
                0 <= k < i && shared[k] is None ==> #[trigger] owned_before(
                    owners@,
                    shared@,
                    owners[k] as int,
                    k,
                ) + 1 < u32::MAX,
            ids.len() == i,
            forall|k: int|
                0 <= k < i ==> #[trigger] ids[k] == point_number(owners@, shared@, chunk_ids@, k),
        decreases owners.len() - i,
    {
        match &shared[i] {
            Some(point) => {
                ids.push(point.id);
            },
            None => {
                let owner: usize = owners[i];
                let ordinal: u32 = ordinals[owner];
                assert(ordinal == owned_before(owners@, shared@, owner as int, i as int) + 1);
                if ordinal == u32::MAX {
                    assert(owned_before(owners@, shared@, owners[i as int] as int, i as int) + 1
                        >= u32::MAX);
                    assert(numbers_run_out(owners@, shared@));
                    return Err(
                        if dimension == 3 {
                            MeshError::limit_exceeded("3D point ID space exhausted")
                        } else {
                            MeshError::limit_exceeded("2D point ID space exhausted")
                        },
                    );
                }
                ordinals.set(owner, ordinal + 1);
                ids.push(
                    MeshId::from_raw(chunk_ids[owner] as u64 * 0x1_0000_0000 + ordinal as u64),
                );
            },
        }
        i = i + 1;
    }
    Ok(ids)
}

/// Chunks with different numbers never give two points the same number.
pub proof fn numbers_are_distinct(
    owners: Seq<usize>,
    shared: Seq<Option<SharedPoint>>,
    chunk_ids: Seq<u32>,
    a: int,
    b: int,
)
    requires
        0 <= a < b < owners.len(),
        shared.len() == owners.len(),
        shared[a] is None,
        shared[b] is None,
        !numbers_run_out(owners, shared),
        forall|i: int| 0 <= i < owners.len() ==> (#[trigger] owners[i]) < chunk_ids.len(),
        chunk_ids.no_duplicates(),
    ensures
        point_number(owners, shared, chunk_ids, a) != point_number(owners, shared, chunk_ids, b),
{
    let x = owners[a] as int;
    let y = owners[b] as int;
    assert(owned_before(owners, shared, x, a) + 1 < u32::MAX);
    assert(owned_before(owners, shared, y, b) + 1 < u32::MAX);
    if x == y {
        owned_grows(owners, shared, x, a + 1, b);
    } else {
        assert(chunk_ids[x] != chunk_ids[y]);
    }
}

proof fn owned_grows(
    owners: Seq<usize>,
    shared: Seq<Option<SharedPoint>>,
    chunk: int,
    from: int,
    to: int,
)
    requires
        0 <= from <= to,
    ensures
        owned_before(owners, shared, chunk, from) <= owned_before(owners, shared, chunk, to),
    decreases to - from,
{
    if from < to {
        owned_grows(owners, shared, chunk, from, to - 1);
    }
}

/// The element type of a cell with so many points.
pub open spec fn element_name(dimension: u8, count: nat) -> Seq<char> {
    if dimension == 3 {
        if count == 4 {
            "tet4"@
        } else if count == 5 {
            "pyramid5"@
        } else {
            "prism6"@
        }
    } else if count == 3 {
        "tri3"@
    } else {
        "quad4"@
    }
}

/// The mesh can hold a cell with so many points.
pub open spec fn cell_shape(dimension: u8, count: nat) -> bool {
    if dimension == 3 {
        4 <= count <= 6
    } else {
        3 <= count <= 4
    }
}

/// Every element type that cells have allows their number of points.
pub(crate) proof fn cell_arities()
    ensures
        arity_ok("tri3"@, 3),
        arity_ok("quad4"@, 4),
        arity_ok("tet4"@, 4),
        arity_ok("pyramid5"@, 5),
        arity_ok("prism6"@, 6),
{
    reveal_strlit("edge2");
    reveal_strlit("edge3");
    reveal_strlit("tri3");
    reveal_strlit("tri6");
    reveal_strlit("quad4");
    reveal_strlit("quad8");
    reveal_strlit("quad9");
    reveal_strlit("polygon");
    reveal_strlit("tet4");
    reveal_strlit("tet10");
    reveal_strlit("pyramid5");
    reveal_strlit("pyramid13");
    reveal_strlit("prism6");
    assert("tri3"@.len() == 4 && "tri6"@.len() == 4 && "tet4"@.len() == 4);
    assert("edge2"@.len() == 5 && "edge3"@.len() == 5 && "quad4"@.len() == 5 && "quad8"@.len() == 5
        && "quad9"@.len() == 5 && "tet10"@.len() == 5);
    assert("polygon"@.len() == 7 && "pyramid5"@.len() == 8 && "pyramid13"@.len() == 9
        && "prism6"@.len() == 6);
    assert("quad4"@[0] == 'q');
    assert("edge2"@[0] == 'e');
    assert("edge3"@[0] == 'e');
    assert("tri3"@[3] == '3');
    assert("tri6"@[3] == '6');
    assert("tri3"@[1] == 'r' && "tri6"@[1] == 'r' && "tet4"@[1] == 'e');
}

/// An exposed edge with the tag of the region that owns it.
#[derive(Debug, Clone, Copy)]
pub struct TaggedEdge<K> {
    pub points: [K; 2],
    pub cell: usize,
    pub tag: u64,
}

/// Where each point of a mesh stands and which number it has.
pub type PlacedPoints<K> = SortedMap<K, SharedPoint>;

/// Some cell of the range uses the point.
pub open spec fn used_in<K>(cells: Seq<Seq<K>>, start: int, end: int, point: K) -> bool {
    exists|i: int| start <= i < end && (#[trigger] cells[i]).contains(point)
}

/// The points used by a range of cells.
pub fn points_in_range<K: Key + Copy>(cells: &Vec<Vec<K>>, start: usize, end: usize) -> (result: SortedSet<K>)
    requires
        start <= end <= cells.len(),
    ensures
        result.wf(),
        forall|point: K| #[trigger]
            result@.contains(point) <==> used_in(
                point_lists(cells@),
                start as int,
                end as int,
                point,
            ),
{
    let ghost views = point_lists(cells@);
    let mut used: SortedSet<K> = SortedSet::new();
    let mut i: usize = start;
    while i < end
        invariant
            start <= i <= end <= cells.len(),
            views == point_lists(cells@),
            used.wf(),
            forall|point: K| #[trigger]
                used@.contains(point) <==> used_in(views, start as int, i as int, point),
        decreases end - i,
    {
        let points = &cells[i];
        let ghost before = used@;
        assert(views[i as int] == cells[i as int]@);
        let mut k: usize = 0;
        while k < points.len()
            invariant
                k <= points.len(),
                used.wf(),
                forall|point: K| #[trigger]
                    used@.contains(point) <==> before.contains(point) || points@.take(
                        k as int,
                    ).contains(point),
            decreases points.len() - k,
        {
            let ghost partial = used@;
            used.insert(points[k]);
            proof {
                let short = points@.take(k as int);
                let long = points@.take(k as int + 1);
                assert forall|other: K| #[trigger]
                    used@.contains(other) <==> before.contains(other) || long.contains(other) by {
                    assert(partial.contains(other) <==> before.contains(other) || short.contains(
                        other,
                    ));
                    if short.contains(other) {
                        let p = short.index_of(other);
                        assert(long[p] == other);
                    }
                    if long.contains(other) && other != points@[k as int] {
                        let p = long.index_of(other);
                        assert(short[p] == other);
                    }
                    assert(long[k as int] == points@[k as int]);
                }
            }
            k = k + 1;
        }
        proof {
            assert(points@.take(k as int) =~= points@);
            assert forall|point: K| #[trigger]
                used@.contains(point) <==> used_in(views, start as int, i + 1, point) by {
                assert(before.contains(point) <==> used_in(
                    views,
                    start as int,
                    i as int,
                    point,
                ));
                if used_in(views, start as int, i as int, point) {
                    let j = choose|j: int|
                        start <= j < i && (#[trigger] views[j]).contains(point);
                    assert(start <= j < i + 1 && views[j].contains(point));
                }
                if used_in(views, start as int, i + 1, point) {
                    let j = choose|j: int|
                        start <= j < i + 1 && (#[trigger] views[j]).contains(point);
                    if j < i {
                        assert(used_in(views, start as int, i as int, point));
                    }
                }
                if points@.contains(point) {
                    assert(views[i as int].contains(point));
                }
            }
        }
        i = i + 1;
    }
    used
}

/// The numbers of a cell's points.
pub open spec fn numbered<K>(points: Seq<K>, placed: Map<K, SharedPoint>) -> Seq<MeshId> {
    points.map_values(|point: K| placed[point].id)
}

/// The words for a point on the boundary and for one inside.
pub open spec fn point_class(on_boundary: bool) -> Seq<char> {
    if on_boundary {
        "boundary"@
    } else {
        "interior"@
    }
}

/// The first `count` of the keys are in the builder, and nothing else is.
pub open spec fn points_filled<K>(
    builder: MeshChunkBuilder,
    keys: Seq<K>,
    count: int,
    placed: Map<K, SharedPoint>,
    boundary: Set<K>,
) -> bool {
    &&& forall|i: int|
        0 <= i < count ==> {
            let spot = placed[#[trigger] keys[i]];
            &&& builder.points@.dom().contains(spot.id.bits)
            &&& builder.points@[spot.id.bits].position == spot.position
            &&& builder.points@[spot.id.bits].classification@ == point_class(
                boundary.contains(keys[i]),
            )
            &&& builder.points@[spot.id.bits].tag_ids@.len() == 0
        }
    &&& forall|bits: u64| #[trigger]
        builder.points@.dom().contains(bits) ==> exists|i: int|
            0 <= i < count && placed[#[trigger] keys[i]].id.bits == bits
}

/// Each of the first `count` points can stand in the chunk, under a number of
/// its own.
pub open spec fn points_placeable<K>(
    bounds: Bounds3,
    keys: Seq<K>,
    count: int,
    placed: Map<K, SharedPoint>,
) -> bool {
    &&& forall|i: int|
        0 <= i < count ==> all_finite(placed[#[trigger] keys[i]].position) && bounds.holds(
            placed[keys[i]].position,
        )
    &&& forall|i: int, j: int|
        0 <= i < j < count ==> placed[#[trigger] keys[i]].id != placed[#[trigger] keys[j]].id
}

/// The point at a place is the first that cannot stand in the chunk, and the
/// error says why: it lies outside, or an earlier point has its number.
pub open spec fn point_refused<K, T>(
    chunk_id: u32,
    bounds: Bounds3,
    keys: Seq<K>,
    placed: Map<K, SharedPoint>,
    place: int,
    result: MeshResult<T>,
) -> bool {
    let here = placed[keys[place]];
    &&& 0 <= place < keys.len()
    &&& points_placeable(bounds, keys, place, placed)
    &&& if !(all_finite(here.position) && bounds.holds(here.position)) {
        fails_input(result, "chunk point must be finite and inside chunk bounds"@)
    } else {
        (exists|j: int| 0 <= j < place && placed[#[trigger] keys[j]].id == here.id) && fails_input(
            result,
            point_taken_message(chunk_id, here.id),
        )
    }
}

/// The error with which a chunk whose parts do not fit is refused: its number
/// and bounds first, then its points, then the numbers of its cells and edges
/// or faces.
pub open spec fn chunk_refused<K, T>(
    chunk_id: u32,
    bounds: Bounds3,
    used: Seq<K>,
    placed: Map<K, SharedPoint>,
    result: MeshResult<T>,
) -> bool {
    if chunk_id == 0 || !bounds.valid() {
        fails_input(result, "mesh chunk builder requires a nonzero ID and finite bounds"@)
    } else if !points_placeable(bounds, used, used.len() as int, placed) {
        exists|place: int| #[trigger] point_refused(chunk_id, bounds, used, placed, place, result)
    } else {
        fails_limit(result, "mesh chunk/entity ID space exhausted"@)
    }
}

pub(crate) fn fill_points<K: Key + Copy>(
    builder: &mut MeshChunkBuilder,
    keys: &Vec<K>,
    placed: &PlacedPoints<K>,
    boundary: &SortedSet<K>,
) -> (result: MeshResult<()>)
    requires
        old(builder).wf(),
        old(builder).points@ == Map::<u64, crate::chunk::ChunkPoint>::empty(),
        placed.wf(),
        boundary.wf(),
        forall|i: int| 0 <= i < keys.len() ==> placed@.dom().contains(#[trigger] keys[i]),
    ensures
        final(builder).wf(),
        final(builder).id == old(builder).id,
        final(builder).bounds == old(builder).bounds,
        final(builder).edges == old(builder).edges,
        final(builder).faces == old(builder).faces,
        final(builder).cells == old(builder).cells,
        final(builder).next_edge == old(builder).next_edge,
        final(builder).next_face == old(builder).next_face,
        final(builder).next_cell == old(builder).next_cell,
        result is Ok <==> points_placeable(
            old(builder).bounds,
            keys@,
            keys@.len() as int,
            placed@,
        ),
        result is Err ==> exists|place: int| #[trigger]
            point_refused(old(builder).id, old(builder).bounds, keys@, placed@, place, result),
        result is Ok ==> points_filled(
            *final(builder),
            keys@,
            keys@.len() as int,
            placed@,
            boundary@,
        ),
{
    let ghost bounds = builder.bounds;
    let mut i: usize = 0;
    while i < keys.len()
        invariant
            i <= keys.len(),
            bounds == old(builder).bounds,
            builder.wf(),
            builder.id == old(builder).id,
            builder.bounds == bounds,
            builder.edges == old(builder).edges,
            builder.faces == old(builder).faces,
            builder.cells == old(builder).cells,
            builder.next_edge == old(builder).next_edge,
            builder.next_face == old(builder).next_face,
            builder.next_cell == old(builder).next_cell,
            placed.wf(),
            boundary.wf(),
            forall|k: int| 0 <= k < keys.len() ==> placed@.dom().contains(#[trigger] keys[k]),
            points_placeable(bounds, keys@, i as int, placed@),
            points_filled(*builder, keys@, i as int, placed@, boundary@),
        decreases keys.len() - i,
    {
        let key = keys[i];
        let ghost before = *builder;
        let spot = match placed.get(&key) {
            Some(found) => *found,
            None => {
                return Ok(());
            },
        };
        let class = if boundary.contains(&key) {
            "boundary".to_owned()
        } else {
            "interior".to_owned()
        };
        assert(placed@[keys@[i as int]] == spot);
        match builder.point_copy(spot.id, spot.position, class, Vec::new()) {
            Ok(()) => {
                proof {
                    assert forall|p: int, q: int| 0 <= p < q < i + 1 implies placed@[#[trigger] keys@[p]].id
                        != placed@[#[trigger] keys@[q]].id by {
                        if q == i {
                            assert(before.points@.dom().contains(placed@[keys@[p]].id.bits));
                        }
                    }
                    assert forall|p: int| 0 <= p < i + 1 implies {
                        let here = placed@[#[trigger] keys@[p]];
                        &&& builder.points@.dom().contains(here.id.bits)
                        &&& builder.points@[here.id.bits].position == here.position
                        &&& builder.points@[here.id.bits].classification@ == point_class(
                            boundary@.contains(keys@[p]),
                        )
                        &&& builder.points@[here.id.bits].tag_ids@.len() == 0
                    } by {
                        if p < i {
                            assert(before.points@.dom().contains(placed@[keys@[p]].id.bits));
                        }
                    }
                    assert forall|bits: u64| #[trigger]
                        builder.points@.dom().contains(bits) implies exists|p: int|
                        0 <= p < i + 1 && placed@[#[trigger] keys@[p]].id.bits == bits by {
                        if bits == spot.id.bits {
                            assert(placed@[keys@[i as int]].id.bits == bits);
                        } else {
                            assert(before.points@.dom().contains(bits));
                            let p = choose|p: int|
                                0 <= p < i && placed@[#[trigger] keys@[p]].id.bits == bits;
                            assert(0 <= p < i + 1 && placed@[keys@[p]].id.bits == bits);
                        }
                    }
                }
            },
            Err(error) => {
                proof {
                    if points_placeable(bounds, keys@, keys@.len() as int, placed@) {
                        assert(all_finite(placed@[keys@[i as int]].position));
                        assert(before.points@.dom().contains(spot.id.bits));
                        let p = choose|p: int|
                            0 <= p < i && placed@[#[trigger] keys@[p]].id.bits == spot.id.bits;
                        assert(placed@[keys@[p]].id == placed@[keys@[i as int]].id);
                    }
                    if before.points@.dom().contains(spot.id.bits) {
                        let p = choose|p: int|
                            0 <= p < i && placed@[#[trigger] keys@[p]].id.bits == spot.id.bits;
                        assert(placed@[keys@[p]].id == placed@[keys@[i as int]].id);
                    }
                    let refusal: MeshResult<()> = Err(error);
                    assert(point_refused(
                        before.id,
                        bounds,
                        keys@,
                        placed@,
                        i as int,
                        refusal,
                    ));
                }
                return Err(error);
            },
        }
        i = i + 1;
    }
    Ok(())
}

/// The builder's cells are the first `count` of a range of cells.
pub open spec fn cells_filled<K>(
    dimension: u8,
    builder: MeshChunkBuilder,
    cells: Seq<Seq<K>>,
    start: int,
    count: int,
    placed: Map<K, SharedPoint>,
    zone: u64,
    source: u64,
) -> bool {
    &&& builder.cells@.len() == count
    &&& forall|i: int|
        0 <= i < count ==> element_made(
            #[trigger] builder.cells@[i],
            MeshId::of(builder.id, CELL_ORDINAL, (i + 1) as u32),
            element_name(dimension, cells[start + i].len()),
            numbered(cells[start + i], placed),
            Seq::empty(),
            Seq::empty(),
            false,
            Some(zone),
            Some(source),
        )
}

pub(crate) fn id_of<K: Key + Copy>(placed: &PlacedPoints<K>, key: K) -> (result: MeshId)
    requires
        placed.wf(),
        placed@.dom().contains(key),
    ensures
        result == placed@[key].id,
{
    match placed.get(&key) {
        Some(found) => found.id,
        None => MeshId::from_raw(0),
    }
}

fn push_element<K: Key + Copy>(
    dimension: u8,
    builder: &mut MeshChunkBuilder,
    points: &Vec<K>,
    placed: &PlacedPoints<K>,
    zone: u64,
    source: u64,
) -> (result: MeshResult<MeshId>)
    requires
        old(builder).wf(),
        placed.wf(),
        cell_shape(dimension, points@.len()),
        forall|k: int| 0 <= k < points@.len() ==> placed@.dom().contains(#[trigger] points@[k]),
    ensures
        final(builder).wf(),
        MeshChunkBuilder::cell_added(
            *old(builder),
            *final(builder),
            result,
            element_name(dimension, points@.len()),
            numbered(points@, placed@),
            Seq::empty(),
            zone,
            source,
        ),
{
    let a = id_of(placed, points[0]);
    let b = id_of(placed, points[1]);
    let c = id_of(placed, points[2]);
    if points.len() == 3 {
        let triangle = [a, b, c];
        assert(triangle@ =~= numbered(points@, placed@));
        return builder.tri3(triangle, zone, source);
    }
    let d = id_of(placed, points[3]);
    if points.len() == 4 {
        let four = [a, b, c, d];
        assert(four@ =~= numbered(points@, placed@));
        if dimension == 3 {
            return builder.tet4(four, zone, source);
        }
        return builder.quad4(four, zone, source);
    }
    let e = id_of(placed, points[4]);
    if points.len() == 5 {
        let five = [a, b, c, d, e];
        assert(five@ =~= numbered(points@, placed@));
        return builder.pyramid5(five, zone, source);
    }
    let f = id_of(placed, points[5]);
    let six = [a, b, c, d, e, f];
    assert(six@ =~= numbered(points@, placed@));
    builder.prism6(six, zone, source)
}

pub(crate) fn fill_cells<K: Key + Copy>(
    dimension: u8,
    builder: &mut MeshChunkBuilder,
    cells: &Vec<Vec<K>>,
    start: usize,
    end: usize,
    placed: &PlacedPoints<K>,
    zone: u64,
    source: u64,
) -> (result: MeshResult<()>)
    requires
        old(builder).wf(),
        old(builder).cells@.len() == 0,
        old(builder).next_cell == 1,
        start <= end <= cells.len(),
        placed.wf(),
        forall|i: int, k: int|
            start <= i < end && 0 <= k < cells[i]@.len() ==> placed@.dom().contains(
                #[trigger] cells[i]@[k],
            ),
        forall|i: int|
            start <= i < end ==> cell_shape(dimension, (#[trigger] cells[i])@.len()),
    ensures
        final(builder).wf(),
        final(builder).id == old(builder).id,
        final(builder).bounds == old(builder).bounds,
        final(builder).points == old(builder).points,
        final(builder).edges == old(builder).edges,
        final(builder).faces == old(builder).faces,
        final(builder).next_edge == old(builder).next_edge,
        final(builder).next_face == old(builder).next_face,
        result is Ok <==> end - start <= ORDINAL_MASK,
        result is Err ==> fails_limit(result, "mesh chunk/entity ID space exhausted"@),
        result is Ok ==> cells_filled(
            dimension,
            *final(builder),
            point_lists(cells@),
            start as int,
            end - start,
            placed@,
            zone,
            source,
        ),
{
    let ghost views = point_lists(cells@);
    let mut i: usize = start;
    while i < end
        invariant
            start <= i <= end <= cells.len(),
            views == point_lists(cells@),
            placed.wf(),
            forall|p: int, k: int|
                start <= p < end && 0 <= k < cells[p]@.len() ==> placed@.dom().contains(
                    #[trigger] cells[p]@[k],
                ),
            forall|p: int|
                start <= p < end ==> cell_shape(dimension, (#[trigger] cells[p])@.len()),
            builder.wf(),
            builder.id == old(builder).id,
            builder.bounds == old(builder).bounds,
            builder.points == old(builder).points,
            builder.edges == old(builder).edges,
            builder.faces == old(builder).faces,
            builder.next_edge == old(builder).next_edge,
            builder.next_face == old(builder).next_face,
            builder.next_cell == i - start + 1,
            cells_filled(
                dimension,
                *builder,
                views,
                start as int,
                i - start,
                placed@,
                zone,
                source,
            ),
        decreases end - i,
    {
        let points = &cells[i];
        let ghost before = *builder;
        proof {
            cell_arities();
            assert(views[i as int] == cells[i as int]@);
            assert(cell_shape(dimension, cells[i as int]@.len()));
            assert forall|k: int| 0 <= k < points@.len() implies placed@.dom().contains(
                #[trigger] points@[k],
            ) by {
                assert(placed@.dom().contains(cells[i as int]@[k]));
            }
        }
        let outcome = push_element(dimension, builder, points, placed, zone, source);
        match outcome {
            Ok(_) => {
                proof {
                    let n = i - start;
                    assert forall|k: int| 0 <= k < n + 1 implies element_made(
                        #[trigger] builder.cells@[k],
                        MeshId::of(builder.id, CELL_ORDINAL, (k + 1) as u32),
                        element_name(dimension, views[start + k].len()),
                        numbered(views[start + k], placed@),
                        Seq::empty(),
                        Seq::empty(),
                        false,
                        Some(zone),
                        Some(source),
                    ) by {
                        if k < n {
                            assert(builder.cells@[k] == builder.cells@.drop_last()[k]);
                            assert(builder.cells@[k] == before.cells@[k]);
                        }
                    }
                }
            },
            Err(error) => {
                return Err(error);
            },
        }
        i = i + 1;
    }
    Ok(())
}

/// The edges whose cell lies in the range, among the first `count`.
pub open spec fn edges_in_range<K>(edges: Seq<TaggedEdge<K>>, start: int, end: int, count: int) -> Seq<
    TaggedEdge<K>,
>
    decreases count,
{
    if count <= 0 {
        Seq::empty()
    } else {
        let rest = edges_in_range(edges, start, end, count - 1);
        if start <= edges[count - 1].cell < end {
            rest.push(edges[count - 1])
        } else {
            rest
        }
    }
}

/// The builder's edges are these.
pub open spec fn edges_filled<K>(
    builder: MeshChunkBuilder,
    edges: Seq<TaggedEdge<K>>,
    placed: Map<K, SharedPoint>,
) -> bool {
    &&& builder.edges@.len() == edges.len()
    &&& forall|i: int|
        0 <= i < edges.len() ==> element_made(
            #[trigger] builder.edges@[i],
            MeshId::of(builder.id, EDGE_ORDINAL, (i + 1) as u32),
            "edge2"@,
            numbered(edges[i].points@, placed),
            Seq::empty(),
            seq![edges[i].tag],
            true,
            None,
            None,
        )
}

fn fill_edges<K: Key + Copy>(
    builder: &mut MeshChunkBuilder,
    edges: &Vec<TaggedEdge<K>>,
    start: usize,
    end: usize,
    placed: &PlacedPoints<K>,
) -> (result: MeshResult<()>)
    requires
        old(builder).wf(),
        old(builder).edges@.len() == 0,
        old(builder).next_edge == 1,
        placed.wf(),
        forall|i: int|
            0 <= i < edges.len() && start <= edges[i].cell < end ==> placed@.dom().contains(
                (#[trigger] edges[i]).points[0],
            ) && placed@.dom().contains(edges[i].points[1]),
    ensures
        final(builder).wf(),
        final(builder).id == old(builder).id,
        final(builder).bounds == old(builder).bounds,
        final(builder).points == old(builder).points,
        final(builder).cells == old(builder).cells,
        final(builder).faces == old(builder).faces,
        result is Ok <==> edges_in_range(
            edges@,
            start as int,
            end as int,
            edges@.len() as int,
        ).len() <= ORDINAL_MASK,
        result is Err ==> fails_limit(result, "mesh chunk/entity ID space exhausted"@),
        result is Ok ==> edges_filled(
            *final(builder),
            edges_in_range(edges@, start as int, end as int, edges@.len() as int),
            placed@,
        ),
{
    let mut i: usize = 0;
    let ghost mut done: Seq<TaggedEdge<K>> = Seq::empty();
    while i < edges.len()
        invariant
            i <= edges.len(),
            placed.wf(),
            forall|k: int|
                0 <= k < edges.len() && start <= edges[k].cell < end ==> placed@.dom().contains(
                    (#[trigger] edges[k]).points[0],
                ) && placed@.dom().contains(edges[k].points[1]),
            builder.wf(),
            builder.id == old(builder).id,
            builder.bounds == old(builder).bounds,
            builder.points == old(builder).points,
            builder.cells == old(builder).cells,
            builder.faces == old(builder).faces,
            done == edges_in_range(edges@, start as int, end as int, i as int),
            builder.next_edge == done.len() + 1,
            edges_filled(*builder, done, placed@),
        decreases edges.len() - i,
    {
        let edge = edges[i];
        if start <= edge.cell && edge.cell < end {
            let ghost before = *builder;
            assert(placed@.dom().contains(edges[i as int].points[0]));
            let ids = [id_of(placed, edge.points[0]), id_of(placed, edge.points[1])];
            assert(ids@ =~= numbered(edge.points@, placed@));
            let mut tags: Vec<u64> = Vec::new();
            tags.push(edge.tag);
            assert(tags@ =~= seq![edge.tag]);
            let ghost next = done.push(edge);
            match builder.boundary_edge(ids, tags) {
                Ok(_) => {
                    proof {
                        assert forall|k: int| 0 <= k < next.len() implies element_made(
                            #[trigger] builder.edges@[k],
                            MeshId::of(builder.id, EDGE_ORDINAL, (k + 1) as u32),
                            "edge2"@,
                            numbered(next[k].points@, placed@),
                            Seq::empty(),
                            seq![next[k].tag],
                            true,
                            None,
                            None,
                        ) by {
                            if k < done.len() {
                                assert(builder.edges@[k] == builder.edges@.drop_last()[k]);
                                assert(builder.edges@[k] == before.edges@[k]);
                                assert(next[k] == done[k]);
                            }
                        }
                        done = next;
                    }
                },
                Err(error) => {
                    proof {
                        range_grows(
                            edges@,
                            start as int,
                            end as int,
                            i + 1,
                            edges@.len() as int,
                        );
                    }
                    return Err(error);
                },
            }
        }
        i = i + 1;
    }
    Ok(())
}

proof fn range_grows<K>(edges: Seq<TaggedEdge<K>>, start: int, end: int, from: int, to: int)
    requires
        0 <= from <= to,
    ensures
        edges_in_range(edges, start, end, from).len() <= edges_in_range(edges, start, end, to).len(),
    decreases to - from,
{
    if from < to {
        range_grows(edges, start, end, from, to - 1);
    }
}

/// The chunk's parts fit: its number and bounds are good, its points can stand
/// in it, and its cells and edges can be numbered.
pub open spec fn chunk_fits<K>(
    chunk_id: u32,
    bounds: Bounds3,
    used: Seq<K>,
    placed: Map<K, SharedPoint>,
    cell_count: int,
    edge_count: int,
) -> bool {
    &&& chunk_id != 0
    &&& bounds.valid()
    &&& points_placeable(bounds, used, used.len() as int, placed)
    &&& cell_count <= ORDINAL_MASK
    &&& edge_count <= ORDINAL_MASK
}

/// The builder holds exactly a range of cells with its points and edges.
pub open spec fn holds_range<K>(
    builder: MeshChunkBuilder,
    chunk_id: u32,
    bounds: Bounds3,
    used: Seq<K>,
    boundary: Set<K>,
    cells: Seq<Seq<K>>,
    start: int,
    end: int,
    placed: Map<K, SharedPoint>,
    edges: Seq<TaggedEdge<K>>,
    zone: u64,
    source: u64,
) -> bool {
    &&& builder.wf()
    &&& builder.id == chunk_id
    &&& builder.bounds == bounds
    &&& builder.faces@.len() == 0
    &&& points_filled(builder, used, used.len() as int, placed, boundary)
    &&& cells_filled(2, builder, cells, start, end - start, placed, zone, source)
    &&& edges_filled(builder, edges, placed)
}

/// Builds the chunk of a range of cells. `used` are the points of those cells,
/// in order.
pub fn build_chunk<K: Key + Copy>(
    chunk_id: u32,
    bounds: Bounds3,
    cells: &Vec<Vec<K>>,
    start: usize,
    end: usize,
    used: &SortedSet<K>,
    placed: &PlacedPoints<K>,
    boundary: &SortedSet<K>,
    edges: &Vec<TaggedEdge<K>>,
    zone: u64,
    source: u64,
) -> (result: MeshResult<MeshChunk>)
    requires
        start <= end <= cells.len(),
        placed.wf(),
        boundary.wf(),
        used.wf(),
        forall|point: K| #[trigger]
            used@.contains(point) <==> used_in(
                point_lists(cells@),
                start as int,
                end as int,
                point,
            ),
        forall|point: K| #[trigger] used@.contains(point) ==> placed@.dom().contains(point),
        forall|i: int|
            start <= i < end ==> cell_shape(2, (#[trigger] cells[i])@.len()),
        forall|i: int|
            0 <= i < edges.len() && start <= edges[i].cell < end ==> used@.contains(
                (#[trigger] edges[i]).points[0],
            ) && used@.contains(edges[i].points[1]),
    ensures
        ({
            let views = point_lists(cells@);
            let kept = edges_in_range(edges@, start as int, end as int, edges@.len() as int);
            let fits = chunk_fits(
                chunk_id,
                bounds,
                used.items@,
                placed@,
                end - start,
                kept.len() as int,
            );
            &&& !fits ==> chunk_refused(chunk_id, bounds, used.items@, placed@, result)
            &&& fits ==> exists|builder: MeshChunkBuilder|
                {
                    &&& #[trigger] holds_range(
                        builder,
                        chunk_id,
                        bounds,
                        used.items@,
                        boundary@,
                        views,
                        start as int,
                        end as int,
                        placed@,
                        kept,
                        zone,
                        source,
                    )
                    &&& chunk_valid(builder.chunk(), 2) ==> result == Ok::<MeshChunk, MeshError>(
                        builder.chunk(),
                    )
                    &&& !chunk_valid(builder.chunk(), 2) ==> build_refused(
                        builder.chunk(),
                        2,
                        result,
                    )
                }
        }),
{
    let ghost views = point_lists(cells@);
    proof {
        assert forall|i: int, k: int|
            start <= i < end && 0 <= k < cells[i]@.len() implies placed@.dom().contains(
            #[trigger] cells[i]@[k],
        ) by {
            assert(views[i] == cells[i]@);
            assert(views[i].contains(cells[i]@[k]));
            assert(used_in(views, start as int, end as int, cells[i]@[k]));
            assert(used@.contains(cells[i]@[k]));
        }
        assert forall|i: int| 0 <= i < used.items@.len() implies placed@.dom().contains(
            #[trigger] used.items@[i],
        ) by {
            assert(used@.contains(used.items@[i]));
        }
    }
    let mut builder = match MeshChunkBuilder::new(chunk_id, bounds) {
        Ok(value) => value,
        Err(error) => {
            return Err(error);
        },
    };
    match fill_points(&mut builder, &used.items, placed, boundary) {
        Ok(()) => {},
        Err(error) => {
            proof {
                let inner: MeshResult<()> = Err(error);
                let refusal: MeshResult<MeshChunk> = Err(error);
                let place = choose|place: int| #[trigger]
                    point_refused(chunk_id, bounds, used.items@, placed@, place, inner);
                assert(point_refused(chunk_id, bounds, used.items@, placed@, place, refusal));
            }
            return Err(error);
        },
    }
    match fill_cells(2, &mut builder, cells, start, end, placed, zone, source) {
        Ok(()) => {},
        Err(error) => {
            return Err(error);
        },
    }
    proof {
        assert forall|i: int|
            0 <= i < edges.len() && start <= edges[i].cell < end implies placed@.dom().contains(
            (#[trigger] edges[i]).points[0],
        ) && placed@.dom().contains(edges[i].points[1]) by {
            assert(used@.contains(edges[i].points[0]) && used@.contains(edges[i].points[1]));
        }
    }
    match fill_edges(&mut builder, edges, start, end, placed) {
        Ok(()) => {},
        Err(error) => {
            return Err(error);
        },
    }
    let ghost kept = edges_in_range(edges@, start as int, end as int, edges@.len() as int);
    proof {
        assert(holds_range(
            builder,
            chunk_id,
            bounds,
            used.items@,
            boundary@,
            views,
            start as int,
            end as int,
            placed@,
            kept,
            zone,
            source,
        ));
        crate::chunk::built_points_are_sound(builder, 0);
    }
    builder.build(2)
}

/// The statistics with one more chunk.
pub open spec fn recorded(
    statistics: MeshingStatistics,
    points: u64,
    cells: u64,
    active: u64,
) -> MeshingStatistics {
    MeshingStatistics {
        chunks: (statistics.chunks + 1) as u64,
        points: (statistics.points + points) as u64,
        cells: (statistics.cells + cells) as u64,
        peak_active_bytes: if active > statistics.peak_active_bytes {
            active
        } else {
            statistics.peak_active_bytes
        },
        ..statistics
    }
}

/// Adds a written chunk to the statistics.
pub fn record_chunk(statistics: &mut MeshingStatistics, points: u64, cells: u64, active: u64)
    requires
        old(statistics).chunks < u64::MAX,
        old(statistics).points + points <= u64::MAX,
        old(statistics).cells + cells <= u64::MAX,
    ensures
        *final(statistics) == recorded(*old(statistics), points, cells, active),
{
    statistics.chunks = statistics.chunks + 1;
    statistics.points = statistics.points + points;
    statistics.cells = statistics.cells + cells;
    if active > statistics.peak_active_bytes {
        statistics.peak_active_bytes = active;
    }
}

/// What to report after a chunk was written.
pub fn chunk_progress(statistics: &MeshingStatistics, chunk_total: u64, active: u64) -> (result: MeshingProgress)
    ensures
        result == (MeshingProgress {
            phase: MeshingPhase::Generating,
            phase_completed: statistics.chunks,
            phase_total: chunk_total,
            completed_chunks: statistics.chunks,
            cells_committed: statistics.cells,
            active_bytes: active,
        }),
{
    MeshingProgress {
        phase: MeshingPhase::Generating,
        phase_completed: statistics.chunks,
        phase_total: chunk_total,
        completed_chunks: statistics.chunks,
        cells_committed: statistics.cells,
        active_bytes: active,
    }
}

/// How many cells the chunk at a place holds.
pub open spec fn chunk_cells(cells: int, per_chunk: int, place: int) -> int {
    let start = place * per_chunk;
    let end = (place + 1) * per_chunk;
    if end < cells {
        end - start
    } else {
        cells - start
    }
}

/// The statistics after the first chunks of so many cells, each with its points
/// and the bytes that were in use.
pub open spec fn after_chunks(
    statistics: MeshingStatistics,
    cells: int,
    per_chunk: int,
    written: Seq<(u64, u64)>,
    count: int,
) -> MeshingStatistics
    decreases count,
{
    if count <= 0 {
        statistics
    } else {
        recorded(
            after_chunks(statistics, cells, per_chunk, written, count - 1),
            written[count - 1].0,
            chunk_cells(cells, per_chunk, count - 1) as u64,
            written[count - 1].1,
        )
    }
}

proof fn first_chunks_are_counted(
    statistics: MeshingStatistics,
    cells: int,
    per_chunk: int,
    written: Seq<(u64, u64)>,
    count: int,
)
    requires
        per_chunk >= 1,
        0 <= cells,
        0 <= count <= chunks_needed(cells, per_chunk),
        statistics.cells + cells <= u64::MAX,
        statistics.chunks + chunks_needed(cells, per_chunk) <= u64::MAX,
    ensures
        ({
            let last = after_chunks(statistics, cells, per_chunk, written, count);
            let seen = if count * per_chunk < cells {
                count * per_chunk
            } else {
                cells
            };
            last.cells == statistics.cells + seen && last.chunks == statistics.chunks + count
        }),
    decreases count,
{
    if count > 0 {
        first_chunks_are_counted(statistics, cells, per_chunk, written, count - 1);
        let all = chunks_needed(cells, per_chunk);
        let rest = (cells + per_chunk - 1) % per_chunk;
        vstd::arithmetic::div_mod::lemma_fundamental_div_mod(cells + per_chunk - 1, per_chunk);
        assert((count - 1) * per_chunk < cells) by (nonlinear_arith)
            requires
                cells + per_chunk - 1 == per_chunk * all + rest,
                0 <= rest < per_chunk,
                count <= all,
                per_chunk >= 1,
        ;
        assert((count - 1) * per_chunk + per_chunk == count * per_chunk && 0 <= (count - 1)
            * per_chunk) by (nonlinear_arith)
            requires
                count >= 1,
                per_chunk >= 1,
        ;
    } else {
        assert(count * per_chunk == 0) by (nonlinear_arith)
            requires
                count == 0,
        ;
    }
}

/// Once all chunks of a mesh are recorded, the statistics have grown by its cells
/// and by its chunks.
pub proof fn all_chunks_are_counted(
    statistics: MeshingStatistics,
    cells: int,
    per_chunk: int,
    written: Seq<(u64, u64)>,
)
    requires
        per_chunk >= 1,
        0 <= cells,
        statistics.cells + cells <= u64::MAX,
        statistics.chunks + chunks_needed(cells, per_chunk) <= u64::MAX,
    ensures
        ({
            let all = chunks_needed(cells, per_chunk);
            let last = after_chunks(statistics, cells, per_chunk, written, all);
            last.cells == statistics.cells + cells && last.chunks == statistics.chunks + all
        }),
{
    let all = chunks_needed(cells, per_chunk);
    let rest = (cells + per_chunk - 1) % per_chunk;
    vstd::arithmetic::div_mod::lemma_fundamental_div_mod(cells + per_chunk - 1, per_chunk);
    assert(0 <= all && all * per_chunk >= cells) by (nonlinear_arith)
        requires
            cells + per_chunk - 1 == per_chunk * all + rest,
            0 <= rest < per_chunk,
            per_chunk >= 1,
            0 <= cells,
    ;
    first_chunks_are_counted(statistics, cells, per_chunk, written, all);
}

/// Every cell is written in exactly one chunk: the one its place falls into.
pub proof fn chunks_cover_cells(cell: int, cells: int, per_chunk: int)
    requires
        0 <= cell < cells,
        per_chunk >= 1,
    ensures
        0 <= cell / per_chunk < chunks_needed(cells, per_chunk),
        (cell / per_chunk) * per_chunk <= cell < (cell / per_chunk + 1) * per_chunk,
        forall|chunk: int|
            #![trigger chunk * per_chunk]
            chunk * per_chunk <= cell < (chunk + 1) * per_chunk ==> chunk == cell / per_chunk,
{
    vstd::arithmetic::div_mod::lemma_fundamental_div_mod(cell, per_chunk);
    vstd::arithmetic::div_mod::lemma_fundamental_div_mod(cells + per_chunk - 1, per_chunk);
    let q = cell / per_chunk;
    let r = cell % per_chunk;
    let n = (cells + per_chunk - 1) / per_chunk;
    let m = (cells + per_chunk - 1) % per_chunk;
    assert(0 <= q && q * per_chunk <= cell < (q + 1) * per_chunk) by (nonlinear_arith)
        requires
            cell == per_chunk * q + r,
            0 <= r < per_chunk,
            0 <= cell,
    ;
    assert(q < n) by (nonlinear_arith)
        requires
            cell == per_chunk * q + r,
            0 <= r < per_chunk,
            cells + per_chunk - 1 == per_chunk * n + m,
            0 <= m < per_chunk,
            cell < cells,
    ;
    assert forall|chunk: int|
        #![trigger chunk * per_chunk]
        chunk * per_chunk <= cell < (chunk + 1) * per_chunk implies chunk == q by {
        assert(chunk == q) by (nonlinear_arith)
            requires
                chunk * per_chunk <= cell,
                cell < (chunk + 1) * per_chunk,
                q * per_chunk <= cell,
                cell < (q + 1) * per_chunk,
                per_chunk >= 1,
        ;
    }
}

/// The shared points with those of the first new boundary points added: the
/// ones that were not shared before.
pub open spec fn shared_with(
    known: Seq<SharedPoint>,
    shared: Seq<Option<SharedPoint>>,
    ids: Seq<MeshId>,
    positions: Seq<Vector3>,
    boundary: Seq<bool>,
    count: int,
) -> Seq<SharedPoint>
    decreases count,
{
    if count <= 0 {
        known
    } else {
        let rest = shared_with(known, shared, ids, positions, boundary, count - 1);
        if boundary[count - 1] && shared[count - 1] is None {
            rest.push(SharedPoint { id: ids[count - 1], position: positions[count - 1] })
        } else {
            rest
        }
    }
}

/// Keeps the boundary points of a domain for the domains to come.
pub fn remember_shared(
    known: &mut Vec<SharedPoint>,
    shared: &Vec<Option<SharedPoint>>,
    ids: &Vec<MeshId>,
    positions: &Vec<Vector3>,
    boundary: &Vec<bool>,
)
    requires
        shared@.len() == ids@.len(),
        positions@.len() == ids@.len(),
        boundary@.len() == ids@.len(),
    ensures
        final(known)@ == shared_with(
            old(known)@,
            shared@,
            ids@,
            positions@,
            boundary@,
            ids@.len() as int,
        ),
{
    let mut i: usize = 0;
    while i < ids.len()
        invariant
            i <= ids@.len(),
            shared@.len() == ids@.len(),
            positions@.len() == ids@.len(),
            boundary@.len() == ids@.len(),
            known@ == shared_with(
                old(known)@,
                shared@,
                ids@,
                positions@,
                boundary@,
                i as int,
            ),
        decreases ids@.len() - i,
    {
        if boundary[i] && shared[i].is_none() {
            known.push(SharedPoint { id: ids[i], position: positions[i] });
        }
        i = i + 1;
    }
}

/// The first cell that holds a point is found.
pub proof fn first_user_holds_point<K>(cells: Seq<Seq<K>>, point: K, from: int)
    requires
        0 <= from <= cells.len(),
    ensures
        from <= first_user(cells, point, from) <= cells.len(),
        first_user(cells, point, from) < cells.len() ==> cells[first_user(
            cells,
            point,
            from,
        )].contains(point),
        forall|i: int|
            from <= i < first_user(cells, point, from) ==> !(#[trigger] cells[i]).contains(point),
    decreases cells.len() - from,
{
    if from < cells.len() && !cells[from].contains(point) {
        first_user_holds_point(cells, point, from + 1);
    }
}

/// A point that is not shared is numbered in the chunk that uses it first, and a chunk
/// numbers its points from 1 on without a gap. A shared point keeps its number.
pub proof fn points_are_numbered_in_chunks(
    owners: Seq<usize>,
    shared: Seq<Option<SharedPoint>>,
    chunk_ids: Seq<u32>,
    place: int,
)
    requires
        0 <= place < owners.len(),
        shared.len() == owners.len(),
        !numbers_run_out(owners, shared),
        owners[place] < chunk_ids.len(),
    ensures
        shared[place] matches Some(point) ==> point_number(owners, shared, chunk_ids, place)
            == point.id,
        shared[place] is None ==> {
            let number = point_number(owners, shared, chunk_ids, place);
            let before = owned_before(owners, shared, owners[place] as int, place);
            &&& number.bits / 0x1_0000_0000 == chunk_ids[owners[place] as int]
            &&& number.bits % 0x1_0000_0000 == before + 1
            &&& owned_before(owners, shared, owners[place] as int, place + 1) == before + 1
        },
        owned_before(owners, shared, owners[place] as int, 0) == 0,
        forall|chunk: int|
            chunk != owners[place] || shared[place] is Some ==> #[trigger] owned_before(
                owners,
                shared,
                chunk,
                place + 1,
            ) == owned_before(owners, shared, chunk, place),
{
    if shared[place] is None {
        let before = owned_before(owners, shared, owners[place] as int, place);
        assert(before + 1 < u32::MAX);
        let id = chunk_ids[owners[place] as int] as int;
        assert(id * 0x1_0000_0000 + before + 1 <= u64::MAX);
        vstd::arithmetic::div_mod::lemma_fundamental_div_mod_converse(
            id * 0x1_0000_0000 + before + 1,
            0x1_0000_0000,
            id,
            (before + 1) as int,
        );
    }
}

/// The edges of a range are those whose cell lies in it, in order.
pub proof fn range_has_its_edges<K>(edges: Seq<TaggedEdge<K>>, start: int, end: int, count: int) -> (places:
    Seq<int>)
    requires
        0 <= count <= edges.len(),
    ensures
        edges_in_range(edges, start, end, count).len() == places.len(),
        forall|i: int, j: int|
            0 <= i < j < places.len() ==> (#[trigger] places[i]) < (#[trigger] places[j]),
        forall|e: int|
            #[trigger] places.contains(e) <==> 0 <= e < count && start <= edges[e].cell < end,
        forall|i: int|
            0 <= i < places.len() ==> edges_in_range(edges, start, end, count)[i] == edges[
            #[trigger] places[i]],
    decreases count,
{
    if count == 0 {
        Seq::empty()
    } else {
        let list = range_has_its_edges(edges, start, end, count - 1);
        let takes = start <= edges[count - 1].cell < end;
        let places = if takes {
            list.push(count - 1)
        } else {
            list
        };
        assert forall|i: int| 0 <= i < list.len() implies 0 <= (#[trigger] list[i]) < count - 1 by {
            assert(list.contains(list[i]));
        }
        assert forall|e: int|
            #[trigger] places.contains(e) <==> 0 <= e < count && start <= edges[e].cell < end by {
            if places.contains(e) {
                let k = places.index_of(e);
                if k < list.len() {
                    assert(list[k] == e);
                    assert(list.contains(e));
                }
            }
            if list.contains(e) {
                let k = list.index_of(e);
                assert(places[k] == e);
            }
            if e == count - 1 && takes {
                assert(places[list.len() as int] == e);
            }
        }
        places
    }
}

/// The points that come to be shared are those on the boundary that were not yet, each
/// under its number and at its place; those known before stay.
pub proof fn boundary_points_are_shared(
    known: Seq<SharedPoint>,
    shared: Seq<Option<SharedPoint>>,
    ids: Seq<MeshId>,
    positions: Seq<Vector3>,
    boundary: Seq<bool>,
    count: int,
) -> (places: Seq<int>)
    requires
        0 <= count,
    ensures
        ({
            let after = shared_with(known, shared, ids, positions, boundary, count);
            &&& after.len() == known.len() + places.len()
            &&& forall|i: int| 0 <= i < known.len() ==> after[i] == #[trigger] known[i]
            &&& forall|i: int, j: int|
                0 <= i < j < places.len() ==> (#[trigger] places[i]) < (#[trigger] places[j])
            &&& forall|e: int|
                #[trigger] places.contains(e) <==> 0 <= e < count && boundary[e]
                    && shared[e] is None
            &&& forall|i: int|
                0 <= i < places.len() ==> after[known.len() + i].id == ids[#[trigger] places[i]]
                    && after[known.len() + i].position == positions[places[i]]
        }),
    decreases count,
{
    if count == 0 {
        Seq::empty()
    } else {
        let list = boundary_points_are_shared(known, shared, ids, positions, boundary, count - 1);
        let takes = boundary[count - 1] && shared[count - 1] is None;
        let places = if takes {
            list.push(count - 1)
        } else {
            list
        };
        assert forall|i: int| 0 <= i < list.len() implies 0 <= (#[trigger] list[i]) < count - 1 by {
            assert(list.contains(list[i]));
        }
        assert forall|e: int|
            #[trigger] places.contains(e) <==> 0 <= e < count && boundary[e]
                && shared[e] is None by {
            if places.contains(e) {
                let k = places.index_of(e);
                if k < list.len() {
                    assert(list[k] == e);
                    assert(list.contains(e));
                }
            }
            if list.contains(e) {
                let k = list.index_of(e);
                assert(places[k] == e);
            }
            if e == count - 1 && takes {
                assert(places[list.len() as int] == e);
            }
        }
        places
    }
}

/// The name of a cell's type is that of an element of its dimension with as many points.
pub proof fn cell_names_have_their_points(dimension: u8, count: nat)
    requires
        dimension == 2 || dimension == 3,
        cell_shape(dimension, count),
    ensures
        crate::schema::points_of(element_name(dimension, count)) == Some(
            (count as usize, count as usize),
        ),
        crate::schema::dimension_of(element_name(dimension, count)) == Some(dimension),
{
    reveal_strlit("edge2");
    reveal_strlit("edge3");
    reveal_strlit("tri3");
    reveal_strlit("tri6");
    reveal_strlit("quad4");
    reveal_strlit("quad8");
    reveal_strlit("quad9");
    reveal_strlit("polygon");
    reveal_strlit("tet4");
    reveal_strlit("tet10");
    reveal_strlit("pyramid5");
    reveal_strlit("pyramid13");
    reveal_strlit("prism6");
    reveal_strlit("prism15");
    reveal_strlit("hex8");
    reveal_strlit("hex20");
    reveal_strlit("hex27");
    reveal_strlit("polyhedron");
    assert("edge2"@[0] == 'e' && "edge2"@[1] == 'd' && "edge2"@[4] == '2');
    assert("edge3"@[0] == 'e' && "edge3"@[1] == 'd' && "edge3"@[4] == '3');
    assert("tri3"@[0] == 't' && "tri3"@[1] == 'r' && "tri3"@[3] == '3');
    assert("tri6"@[0] == 't' && "tri6"@[1] == 'r' && "tri6"@[3] == '6');
    assert("quad4"@[0] == 'q' && "quad4"@[1] == 'u' && "quad4"@[4] == '4');
    assert("quad8"@[0] == 'q' && "quad8"@[1] == 'u' && "quad8"@[4] == '8');
    assert("quad9"@[0] == 'q' && "quad9"@[1] == 'u' && "quad9"@[4] == '9');
    assert("polygon"@[0] == 'p' && "polygon"@[1] == 'o' && "polygon"@[6] == 'n');
    assert("tet4"@[0] == 't' && "tet4"@[1] == 'e' && "tet4"@[3] == '4');
    assert("tet10"@[0] == 't' && "tet10"@[1] == 'e' && "tet10"@[4] == '0');
    assert("pyramid5"@[0] == 'p' && "pyramid5"@[1] == 'y' && "pyramid5"@[7] == '5');
    assert("pyramid13"@[0] == 'p' && "pyramid13"@[1] == 'y' && "pyramid13"@[8] == '3');
    assert("prism6"@[0] == 'p' && "prism6"@[1] == 'r' && "prism6"@[5] == '6');
    assert("prism15"@[0] == 'p' && "prism15"@[1] == 'r' && "prism15"@[6] == '5');
    assert("hex8"@[0] == 'h' && "hex8"@[1] == 'e' && "hex8"@[3] == '8');
    assert("hex20"@[0] == 'h' && "hex20"@[1] == 'e' && "hex20"@[4] == '0');
    assert("hex27"@[0] == 'h' && "hex27"@[1] == 'e' && "hex27"@[4] == '7');
    assert("polyhedron"@[0] == 'p' && "polyhedron"@[1] == 'o' && "polyhedron"@[9] == 'n');
}

/// A chunk holds as many cells as fit its target and no more, but at least one.
pub proof fn chunk_is_filled(target_chunk_bytes: usize, cell_bytes: usize)
    requires
        cell_bytes > 0,
    ensures
        ({
            let capacity = chunk_capacity(target_chunk_bytes, cell_bytes);
            &&& capacity >= 1
            &&& capacity > 1 ==> capacity * cell_bytes <= target_chunk_bytes
            &&& (capacity + 1) * cell_bytes > target_chunk_bytes
        }),
{
    let t = target_chunk_bytes as int;
    let b = cell_bytes as int;
    let q = t / b;
    assert(q * b <= t && t < (q + 1) * b && q >= 0) by (nonlinear_arith)
        requires
            b > 0,
            t >= 0,
            q == t / b,
    ;
    assert(1 * b == b && 2 * b >= b);
    assert((0 + 1) * b == b);
}

} // verus!
