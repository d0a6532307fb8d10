//! Smoothing a volume mesh: which points may move, in which order they are
//! tried, and when it ends.

use vstd::prelude::*;

use crate::algorithm::QualityTermination;
#[allow(unused_imports)]
use crate::assess::capped;
use crate::assess::QUALITY_TARGET_BITS;
use crate::layers::saturating_product;
use crate::number::Real;
use crate::sorted::SortedSet;
use crate::sweep_runs::MAX_OPTIMIZATION_BYTES;
use crate::sweeps::SKEWNESS_TARGET_BITS;
use crate::volume::VolumeMesh;

verus! {

/// The most passes over a mesh.
pub const MAX_PASSES: usize = 4;

/// The most points that one pass tries to move.
pub const MAX_VERTICES_PER_PASS: usize = 512;

/// The bytes that smoothing is taken to need: 96 of a point, and of a cell four
/// times the bytes of its four numbers.
pub open spec fn smoothing_bytes(points: nat, cells: nat) -> nat {
    capped(96 * points + 2 * usize::BITS as nat * cells)
}

/// Whether smoothing a mesh would need too much memory.
pub fn over_memory_budget(points: usize, cells: usize) -> (result: bool)
    ensures
        result == (smoothing_bytes(points as nat, cells as nat) > MAX_OPTIMIZATION_BYTES),
{
    let word: usize = usize::BITS as usize;
    let of_points: usize = saturating_product(points, 96);
    let of_cells: usize = saturating_product(cells, 2 * word);
    proof {
        let c = cells as int;
        let w = word as int;
        assert(c * (2 * w) == 2 * w * c) by (nonlinear_arith);
        assert(2 * w * c >= 0) by (nonlinear_arith)
            requires
                w >= 0,
                c >= 0,
        ;
    }
    of_points.saturating_add(of_cells) > MAX_OPTIMIZATION_BYTES
}

/// A prism or a pyramid has the point, or it is on the boundary.
pub open spec fn held(mesh: VolumeMesh, vertex: usize) -> bool {
    ||| mesh.boundary_points@.contains(vertex)
    ||| exists|i: int| 0 <= i < mesh.prisms@.len() && (#[trigger] mesh.prisms@[i])@.contains(vertex)
    ||| exists|i: int|
        0 <= i < mesh.pyramids@.len() && (#[trigger] mesh.pyramids@[i])@.contains(vertex)
}

/// Whether a point of a mesh must stay.
pub fn is_held(mesh: &VolumeMesh, vertex: usize) -> (result: bool)
    requires
        mesh.boundary_points.wf(),
    ensures
        result == held(*mesh, vertex),
{
    if mesh.boundary_points.contains(&vertex) {
        return true;
    }
    let mut i: usize = 0;
    while i < mesh.prisms.len()
        invariant
            i <= mesh.prisms@.len(),
            forall|k: int| 0 <= k < i ==> !(#[trigger] mesh.prisms@[k])@.contains(vertex),
        decreases mesh.prisms@.len() - i,
    {
        let prism = mesh.prisms[i];
        let mut k: usize = 0;
        while k < 6
            invariant
                k <= 6,
                i < mesh.prisms@.len(),
                prism == mesh.prisms@[i as int],
                forall|p: int| 0 <= p < k ==> prism@[p] != vertex,
            decreases 6 - k,
        {
            if prism[k] == vertex {
                assert(prism@[k as int] == vertex);
                assert(mesh.prisms@[i as int]@.contains(vertex));
                return true;
            }
            k = k + 1;
        }
        i = i + 1;
    }
    let mut j: usize = 0;
    while j < mesh.pyramids.len()
        invariant
            j <= mesh.pyramids@.len(),
            forall|k: int| 0 <= k < j ==> !(#[trigger] mesh.pyramids@[k])@.contains(vertex),
        decreases mesh.pyramids@.len() - j,
    {
        let pyramid = mesh.pyramids[j];
        let mut k: usize = 0;
        while k < 5
            invariant
                k <= 5,
                j < mesh.pyramids@.len(),
                pyramid == mesh.pyramids@[j as int],
                forall|p: int| 0 <= p < k ==> pyramid@[p] != vertex,
            decreases 5 - k,
        {
            if pyramid[k] == vertex {
                assert(pyramid@[k as int] == vertex);
                assert(mesh.pyramids@[j as int]@.contains(vertex));
                return true;
            }
            k = k + 1;
        }
        j = j + 1;
    }
    false
}

/// The places of the first cells at a point, once for each corner there.
pub open spec fn cells_at(cells: Seq<[usize; 4]>, vertex: usize, count: int) -> Seq<usize>
    decreases count,
{
    if count <= 0 {
        Seq::empty()
    } else {
        corners_at(cells, vertex, count - 1, 4)
    }
}

/// The places of the first cells at a point, and of the first corners of the
/// next cell.
pub open spec fn corners_at(cells: Seq<[usize; 4]>, vertex: usize, cell: int, corners: int) -> Seq<
    usize,
>
    decreases cell, corners + 1,
{
    if corners <= 0 {
        if cell <= 0 {
            Seq::empty()
        } else {
            corners_at(cells, vertex, cell - 1, 4)
        }
    } else {
        let rest = corners_at(cells, vertex, cell, corners - 1);
        if cells[cell]@[corners - 1] == vertex {
            rest.push(cell as usize)
        } else {
            rest
        }
    }
}

/// The point is joined to the vertex by an edge of a cell.
pub open spec fn joined(cells: Seq<[usize; 4]>, vertex: usize, other: usize) -> bool {
    other != vertex && exists|i: int|
        0 <= i < cells.len() && #[trigger] cells[i]@.contains(vertex) && cells[i]@.contains(other)
}

/// The cells at a point and the points that it is joined to.
#[derive(Debug)]
pub struct Neighborhood {
    pub cells: Vec<usize>,
    pub neighbors: SortedSet<usize>,
}

/// The surroundings of a point of a mesh.
pub fn neighborhood(cells: &Vec<[usize; 4]>, vertex: usize) -> (result: Neighborhood)
    ensures
        result.neighbors.wf(),
        result.cells@ == cells_at(cells@, vertex, cells@.len() as int),
        forall|other: usize| #[trigger]
            result.neighbors@.contains(other) <==> joined(cells@, vertex, other),
{
    let mut list: Vec<usize> = Vec::new();
    let mut neighbors = SortedSet::<usize>::new();
    let mut i: usize = 0;
    while i < cells.len()
        invariant
            i <= cells@.len(),
            list@ == cells_at(cells@, vertex, i as int),
            neighbors.wf(),
            forall|other: usize| #[trigger]
                neighbors@.contains(other) <==> joined(cells@.take(i as int), vertex, other),
        decreases cells@.len() - i,
    {
        let cell = cells[i];
        let ghost before = neighbors@;
        let mut at = false;
        let mut k: usize = 0;
        assert(corners_at(cells@, vertex, i as int, 0) == cells_at(cells@, vertex, i as int));
        while k < 4
            invariant
                k <= 4,
                i < cells@.len(),
                cell == cells@[i as int],
                list@ == corners_at(cells@, vertex, i as int, k as int),
                at <==> exists|p: int| 0 <= p < k && cell@[p] == vertex,
            decreases 4 - k,
        {
            if cell[k] == vertex {
                assert(cell@[k as int] == vertex);
                list.push(i);
                at = true;
            }
            k = k + 1;
        }
        if at {
            let mut c: usize = 0;
            while c < 4
                invariant
                    c <= 4,
                    neighbors.wf(),
                    forall|other: usize| #[trigger]
                        neighbors@.contains(other) <==> before.contains(other) || (other != vertex
                            && exists|p: int| 0 <= p < c && cell@[p] == other),
                decreases 4 - c,
            {
                let ghost so_far = neighbors@;
                if cell[c] != vertex {
                    neighbors.insert(cell[c]);
                }
                assert forall|other: usize| #[trigger]
                    neighbors@.contains(other) <==> before.contains(other) || (other != vertex
                        && exists|p: int| 0 <= p < c + 1 && cell@[p] == other) by {
                    assert(so_far.contains(other) <==> before.contains(other) || (other != vertex
                        && exists|p: int| 0 <= p < c && cell@[p] == other));
                    if other == cell@[c as int] {
                        assert(cell@[c as int] == other);
                    }
                }
                c = c + 1;
            }
        }
        assert forall|other: usize| #[trigger] neighbors@.contains(other) <==> joined(
            cells@.take(i + 1),
            vertex,
            other,
        ) by {
            let less = cells@.take(i as int);
            let more = cells@.take(i + 1);
            assert(more[i as int] == cell);
            assert(before.contains(other) <==> joined(less, vertex, other));
            assert(at <==> cell@.contains(vertex));
            if joined(less, vertex, other) {
                let p = choose|p: int|
                    0 <= p < less.len() && #[trigger] less[p]@.contains(vertex)
                        && less[p]@.contains(other);
                assert(more[p]@.contains(vertex));
            }
            if joined(more, vertex, other) {
                let p = choose|p: int|
                    0 <= p < more.len() && #[trigger] more[p]@.contains(vertex)
                        && more[p]@.contains(other);
                if p < i {
                    assert(less[p]@.contains(vertex));
                } else {
                    let q = cell@.index_of(other);
                    assert(cell@[q] == other);
                }
            }
            if at && other != vertex && exists|p: int| 0 <= p < 4 && cell@[p] == other {
                assert(cell@.contains(other));
                assert(more[i as int]@.contains(vertex));
            }
        }
        i = i + 1;
    }
    assert(cells@.take(i as int) =~= cells@);
    Neighborhood { cells: list, neighbors }
}

/// The cells around a point are good enough to be left alone: the worst Scaled
/// Jacobian reaches `0.4` and the greatest skewness is at most `0.6`.
pub fn is_good_enough(minimum_jacobian: Real, maximum_skewness: Real) -> (result: bool)
    ensures
        result == ((Real { bits: QUALITY_TARGET_BITS }).le(minimum_jacobian)
            && maximum_skewness.le(Real { bits: SKEWNESS_TARGET_BITS })),
{
    let target = Real { bits: QUALITY_TARGET_BITS };
    let limit = Real { bits: SKEWNESS_TARGET_BITS };
    target.at_most(minimum_jacobian) && maximum_skewness.at_most(limit)
}

/// What a pass does next.
#[derive(Debug, Clone, Copy, PartialEq, Eq, Structural)]
pub enum SmoothStep {
    /// Look at the point.
    Look(usize),
    /// The pass is over; it moved a point or not.
    Over(bool),
}

/// One pass over the points of a mesh.
#[derive(Debug, Clone, Copy, PartialEq, Eq, Structural)]
pub struct SmoothPass {
    pub points: usize,
    pub vertex: usize,
    pub attempted: usize,
    pub changed: bool,
}

impl SmoothPass {
    pub open spec fn wf(self) -> bool {
        self.vertex <= self.points && self.attempted <= MAX_VERTICES_PER_PASS
    }

    pub fn new(points: usize) -> (result: SmoothPass)
        ensures
            result.wf(),
            result == (SmoothPass { points, vertex: 0, attempted: 0, changed: false }),
    {
        SmoothPass { points, vertex: 0, attempted: 0, changed: false }
    }

    pub fn next(&self) -> (result: SmoothStep)
        requires
            self.wf(),
        ensures
            result == (if self.vertex < self.points {
                SmoothStep::Look(self.vertex)
            } else {
                SmoothStep::Over(self.changed)
            }),
    {
        if self.vertex < self.points {
            SmoothStep::Look(self.vertex)
        } else {
            SmoothStep::Over(self.changed)
        }
    }

    /// Leaves the point as it is.
    pub fn pass_over(&mut self)
        requires
            old(self).wf(),
            old(self).vertex < old(self).points,
        ensures
            final(self).wf(),
            *final(self) == (SmoothPass { vertex: (old(self).vertex + 1) as usize, ..*old(self) }),
    {
        self.vertex = self.vertex + 1;
    }

    /// Whether the point may be tried. The pass is over where too many have
    /// been tried already.
    pub fn may_try(&mut self) -> (result: bool)
        requires
            old(self).wf(),
            old(self).vertex < old(self).points,
        ensures
            final(self).wf(),
            result == (old(self).attempted < MAX_VERTICES_PER_PASS),
            *final(self) == (if result {
                SmoothPass { attempted: (old(self).attempted + 1) as usize, ..*old(self) }
            } else {
                SmoothPass { vertex: old(self).points, ..*old(self) }
            }),
    {
        if self.attempted == MAX_VERTICES_PER_PASS {
            self.vertex = self.points;
            false
        } else {
            self.attempted = self.attempted + 1;
            true
        }
    }

    /// Notes whether the point that was tried has moved.
    pub fn settle(&mut self, moved: bool)
        requires
            old(self).wf(),
            old(self).vertex < old(self).points,
        ensures
            final(self).wf(),
            *final(self) == (SmoothPass {
                vertex: (old(self).vertex + 1) as usize,
                changed: old(self).changed || moved,
                ..*old(self)
            }),
    {
        self.changed = self.changed || moved;
        self.vertex = self.vertex + 1;
    }
}

/// How smoothing ends after a pass, where it does.
pub fn after_pass(pass: usize, changed: bool) -> (result: Option<QualityTermination>)
    requires
        pass < MAX_PASSES,
    ensures
        !changed ==> result == Some(QualityTermination::Converged),
        changed && pass == MAX_PASSES - 1 ==> result == Some(QualityTermination::IterationLimit),
        changed && pass < MAX_PASSES - 1 ==> result is None,
{
    if !changed {
        Some(QualityTermination::Converged)
    } else if pass + 1 == MAX_PASSES {
        Some(QualityTermination::IterationLimit)
    } else {
        None
    }
}

/// How the tetrahedra around a vertex compare with what they were.
#[derive(Debug, Clone, Copy)]
pub struct PatchComparison {
    /// The worst Scaled Jacobian is clearly greater.
    pub worst_more: bool,
    /// The worst Scaled Jacobian is about the same.
    pub worst_equal: bool,
    /// The greatest skewness is clearly less.
    pub skewness_less: bool,
    /// The greatest skewness is about the same.
    pub skewness_equal: bool,
    /// The mean Scaled Jacobian is clearly greater.
    pub mean_more: bool,
}

/// Whether a vertex has a better place: the worst tetrahedron comes first, then
/// the skewness, then the mean.
pub fn is_patch_better(comparison: PatchComparison) -> (result: bool)
    ensures
        result == (comparison.worst_more || comparison.worst_equal && (comparison.skewness_less
            || comparison.skewness_equal && comparison.mean_more)),
{
    comparison.worst_more || comparison.worst_equal && (comparison.skewness_less
        || comparison.skewness_equal && comparison.mean_more)
}

proof fn corners_are_listed(cells: Seq<[usize; 4]>, vertex: usize, cell: int, corners: int)
    requires
        0 <= cell < cells.len() <= usize::MAX,
        0 <= corners <= 4,
    ensures
        forall|c: int| #![trigger corners_at(cells, vertex, cell, corners).contains(c as usize)]
            0 <= c < cells.len() ==> (corners_at(cells, vertex, cell, corners).contains(c as usize)
                <==> (c < cell && exists|k: int| 0 <= k < 4 && #[trigger] cells[c]@[k] == vertex) || (c
                == cell && exists|k: int| 0 <= k < corners && #[trigger] cells[c]@[k] == vertex)),
        forall|i: int|
            0 <= i < corners_at(cells, vertex, cell, corners).len() ==> (#[trigger] corners_at(
                cells,
                vertex,
                cell,
                corners,
            )[i]) <= cell,
        forall|i: int, j: int|
            0 <= i < j < corners_at(cells, vertex, cell, corners).len() ==> (#[trigger] corners_at(
                cells,
                vertex,
                cell,
                corners,
            )[i]) <= (#[trigger] corners_at(cells, vertex, cell, corners)[j]),
    decreases cell, corners,
{
    let all = corners_at(cells, vertex, cell, corners);
    if corners == 0 {
        if cell > 0 {
            corners_are_listed(cells, vertex, cell - 1, 4);
            assert(all == corners_at(cells, vertex, cell - 1, 4));
        } else {
            assert(all.len() == 0);
        }
    } else {
        corners_are_listed(cells, vertex, cell, corners - 1);
        let rest = corners_at(cells, vertex, cell, corners - 1);
        let hit = cells[cell]@[corners - 1] == vertex;
        assert(all == if hit {
            rest.push(cell as usize)
        } else {
            rest
        });
        assert forall|c: int| #![trigger all.contains(c as usize)] 0 <= c < cells.len() implies (
        all.contains(c as usize) <==> (c < cell && exists|k: int|
            0 <= k < 4 && #[trigger] cells[c]@[k] == vertex) || (c == cell && exists|k: int|
            0 <= k < corners && #[trigger] cells[c]@[k] == vertex)) by {
            assert(rest.contains(c as usize) == rest.contains(c as usize));
            if all.contains(c as usize) {
                let m = all.index_of(c as usize);
                if m < rest.len() {
                    assert(rest[m] == c as usize);
                    assert(rest.contains(c as usize));
                } else {
                    assert(cells[c]@[corners - 1] == vertex);
                }
            }
            if rest.contains(c as usize) {
                let m = rest.index_of(c as usize);
                assert(all[m] == c as usize);
            }
            if c == cell && hit {
                assert(all[rest.len() as int] == c as usize);
            }
        }
    }
}

/// The tetrahedra listed at a point are exactly those of the first ones that have it as a
/// corner, in order.
pub proof fn tets_at_point_are_listed(cells: Seq<[usize; 4]>, vertex: usize, count: int)
    requires
        0 <= count <= cells.len() <= usize::MAX,
    ensures
        forall|c: int| #![trigger cells_at(cells, vertex, count).contains(c as usize)]
            0 <= c < cells.len() ==> (cells_at(cells, vertex, count).contains(c as usize) <==> c
                < count && exists|k: int| 0 <= k < 4 && #[trigger] cells[c]@[k] == vertex),
        forall|i: int|
            0 <= i < cells_at(cells, vertex, count).len() ==> (#[trigger] cells_at(
                cells,
                vertex,
                count,
            )[i]) < count,
        forall|i: int, j: int|
            0 <= i < j < cells_at(cells, vertex, count).len() ==> (#[trigger] cells_at(
                cells,
                vertex,
                count,
            )[i]) <= (#[trigger] cells_at(cells, vertex, count)[j]),
{
    if count > 0 {
        corners_are_listed(cells, vertex, count - 1, 4);
    }
}

} // verus!
