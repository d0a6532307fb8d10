//! The balanced octree behind 3D meshing.
//!
//! The same scheme as in 2D: positions count in fine cells, the cubes of the
//! deepest level, and lattice points in half fine cells.

use vstd::arithmetic::power2::pow2;
use vstd::prelude::*;

use crate::algorithm::JobControl;
use crate::error::{MeshError, MeshResult};
#[allow(unused_imports)]
use crate::error::fails_limit;
use crate::quadtree::{power, LeafClass};
#[allow(unused_imports)]
use crate::quadtree::{along, axis_cover};
use crate::sorted::{sort_keys, Key, SortedSet};
#[allow(unused_imports)]
use crate::sorted::{ordered, rearranged};

verus! {

#[derive(Debug, Clone, Copy, PartialEq, Eq, Structural)]
pub struct Leaf {
    pub level: u8,
    pub x: u32,
    pub y: u32,
    pub z: u32,
}

impl Key for Leaf {
    open spec fn before(self, other: Self) -> bool {
        self.level < other.level || (self.level == other.level && (self.x < other.x || (self.x
            == other.x && (self.y < other.y || (self.y == other.y && self.z < other.z)))))
    }

    proof fn irreflexive(a: Self) {
    }

    proof fn transitive(a: Self, b: Self, c: Self) {
    }

    proof fn total(a: Self, b: Self) {
    }

    fn precedes(&self, other: &Self) -> (result: bool) {
        self.level < other.level || (self.level == other.level && (self.x < other.x || (self.x
            == other.x && (self.y < other.y || (self.y == other.y && self.z < other.z)))))
    }
}

/// A point of the lattice, in half fine cells.
#[derive(Debug, Clone, Copy, PartialEq, Eq, Structural)]
pub struct Lattice {
    pub x: u64,
    pub y: u64,
    pub z: u64,
}

impl Key for Lattice {
    open spec fn before(self, other: Self) -> bool {
        self.x < other.x || (self.x == other.x && (self.y < other.y || (self.y == other.y && self.z
            < other.z)))
    }

    proof fn irreflexive(a: Self) {
    }

    proof fn transitive(a: Self, b: Self, c: Self) {
    }

    proof fn total(a: Self, b: Self) {
    }

    fn precedes(&self, other: &Self) -> (result: bool) {
        self.x < other.x || (self.x == other.x && (self.y < other.y || (self.y == other.y && self.z
            < other.z)))
    }
}

/// The lattice point halfway, rounded towards the origin.
pub open spec fn middle(a: Lattice, b: Lattice) -> Lattice {
    Lattice {
        x: ((a.x + b.x) / 2) as u64,
        y: ((a.y + b.y) / 2) as u64,
        z: ((a.z + b.z) / 2) as u64,
    }
}

/// The coordinates are small enough to be added.
pub open spec fn within(a: Lattice) -> bool {
    a.x <= 0x2_0000_0000 && a.y <= 0x2_0000_0000 && a.z <= 0x2_0000_0000
}

pub fn midpoint(a: Lattice, b: Lattice) -> (result: Lattice)
    requires
        a.x + b.x <= u64::MAX,
        a.y + b.y <= u64::MAX,
        a.z + b.z <= u64::MAX,
    ensures
        result == middle(a, b),
{
    Lattice { x: (a.x + b.x) / 2, y: (a.y + b.y) / 2, z: (a.z + b.z) / 2 }
}

/// Whether the place counts as the upper half on an axis.
pub open spec fn upper_half(index: int, axis: int) -> int {
    if axis == 0 {
        index % 2
    } else if axis == 1 {
        (index / 2) % 2
    } else {
        (index / 4) % 2
    }
}

impl Leaf {
    /// The eight parts; the place's bits tell the halves on x, y and z.
    pub open spec fn parts(self) -> Seq<Leaf> {
        Seq::new(
            8,
            |index: int|
                Leaf {
                    level: (self.level + 1) as u8,
                    x: (self.x * 2 + upper_half(index, 0)) as u32,
                    y: (self.y * 2 + upper_half(index, 1)) as u32,
                    z: (self.z * 2 + upper_half(index, 2)) as u32,
                },
        )
    }

    /// The parts' coordinates fit.
    pub open spec fn divisible(self) -> bool {
        self.level < u8::MAX && self.x * 2 + 1 <= u32::MAX && self.y * 2 + 1 <= u32::MAX && self.z
            * 2 + 1 <= u32::MAX
    }

    pub fn children(self) -> (result: [Leaf; 8])
        requires
            self.divisible(),
        ensures
            result@ == self.parts(),
    {
        let level: u8 = self.level + 1;
        let x: u32 = self.x * 2;
        let y: u32 = self.y * 2;
        let z: u32 = self.z * 2;
        let result = [
            Leaf { level, x, y, z },
            Leaf { level, x: x + 1, y, z },
            Leaf { level, x, y: y + 1, z },
            Leaf { level, x: x + 1, y: y + 1, z },
            Leaf { level, x, y, z: z + 1 },
            Leaf { level, x: x + 1, y, z: z + 1 },
            Leaf { level, x, y: y + 1, z: z + 1 },
            Leaf { level, x: x + 1, y: y + 1, z: z + 1 },
        ];
        assert(result@ =~= self.parts());
        result
    }
}

/// The shape of the tree: root cubes per axis and the deepest level.
#[derive(Debug, Clone, Copy, PartialEq, Eq, Structural)]
pub struct Grid {
    pub columns: u32,
    pub rows: u32,
    pub layers: u32,
    pub max_depth: u8,
}

impl Grid {
    /// Every leaf's coordinates fit in 32 bits at the deepest level.
    pub open spec fn wf(self) -> bool {
        &&& 1 <= self.columns
        &&& 1 <= self.rows
        &&& 1 <= self.layers
        &&& self.max_depth <= 24
        &&& self.columns * pow2(self.max_depth as nat) <= 0x1_0000_0000
        &&& self.rows * pow2(self.max_depth as nat) <= 0x1_0000_0000
        &&& self.layers * pow2(self.max_depth as nat) <= 0x1_0000_0000
    }

    /// The leaf is one of this grid's cubes.
    pub open spec fn has(self, leaf: Leaf) -> bool {
        &&& leaf.level <= self.max_depth
        &&& leaf.x < self.columns * pow2(leaf.level as nat)
        &&& leaf.y < self.rows * pow2(leaf.level as nat)
        &&& leaf.z < self.layers * pow2(leaf.level as nat)
    }

    /// The side of a leaf in fine cells.
    pub open spec fn scale(self, level: u8) -> nat {
        pow2((self.max_depth - level) as nat)
    }

    /// The leaf holds the fine cell.
    pub open spec fn covers(self, leaf: Leaf, x: int, y: int, z: int) -> bool {
        let scale = self.scale(leaf.level) as int;
        leaf.x * scale <= x < (leaf.x + 1) * scale && leaf.y * scale <= y < (leaf.y + 1) * scale
            && leaf.z * scale <= z < (leaf.z + 1) * scale
    }

    /// The whole grid in fine cells.
    pub open spec fn width(self) -> int {
        self.columns * pow2(self.max_depth as nat)
    }

    pub open spec fn height(self) -> int {
        self.rows * pow2(self.max_depth as nat)
    }

    pub open spec fn depth(self) -> int {
        self.layers * pow2(self.max_depth as nat)
    }

    /// Whether the grid's coordinates fit.
    pub fn fits(self) -> (result: bool)
        ensures
            result == self.wf(),
    {
        if self.columns == 0 || self.rows == 0 || self.layers == 0 || self.max_depth > 24 {
            return false;
        }
        let fine: u64 = power(self.max_depth);
        proof {
            vstd::arithmetic::power2::lemma2_to64();
            if self.max_depth < 24 {
                vstd::arithmetic::power2::lemma_pow2_strictly_increases(self.max_depth as nat, 24);
            }
            let a = self.columns as int;
            let b = self.rows as int;
            let d = self.layers as int;
            let c = fine as int;
            assert(0 <= a * c <= 0xffff_ffff * 0x100_0000) by (nonlinear_arith)
                requires
                    0 <= a <= 0xffff_ffff,
                    0 <= c <= 0x100_0000,
            ;
            assert(0 <= b * c <= 0xffff_ffff * 0x100_0000) by (nonlinear_arith)
                requires
                    0 <= b <= 0xffff_ffff,
                    0 <= c <= 0x100_0000,
            ;
            assert(0 <= d * c <= 0xffff_ffff * 0x100_0000) by (nonlinear_arith)
                requires
                    0 <= d <= 0xffff_ffff,
                    0 <= c <= 0x100_0000,
            ;
        }
        self.columns as u64 * fine <= 0x1_0000_0000 && self.rows as u64 * fine <= 0x1_0000_0000
            && self.layers as u64 * fine <= 0x1_0000_0000
    }

    pub(crate) proof fn scale_facts(self, leaf: Leaf)
        requires
            self.wf(),
            self.has(leaf),
        ensures
            1 <= self.scale(leaf.level) <= 0x100_0000,
            (leaf.x + 1) * self.scale(leaf.level) <= self.width(),
            (leaf.y + 1) * self.scale(leaf.level) <= self.height(),
            (leaf.z + 1) * self.scale(leaf.level) <= self.depth(),
            0 <= leaf.x * self.scale(leaf.level) < (leaf.x + 1) * self.scale(leaf.level),
            0 <= leaf.y * self.scale(leaf.level) < (leaf.y + 1) * self.scale(leaf.level),
            0 <= leaf.z * self.scale(leaf.level) < (leaf.z + 1) * self.scale(leaf.level),
    {
        let up = (self.max_depth - leaf.level) as nat;
        let down = leaf.level as nat;
        let s = pow2(up) as int;
        let p = pow2(down) as int;
        vstd::arithmetic::power2::lemma_pow2_pos(up);
        vstd::arithmetic::power2::lemma_pow2_adds(up, down);
        vstd::arithmetic::power2::lemma2_to64();
        if up < 24 {
            vstd::arithmetic::power2::lemma_pow2_strictly_increases(up, 24);
        }
        axis_facts(leaf.x as int, self.columns as int, s, p);
        axis_facts(leaf.y as int, self.rows as int, s, p);
        axis_facts(leaf.z as int, self.layers as int, s, p);
    }

    pub fn fine_scale(self, leaf: Leaf) -> (result: u64)
        requires
            self.wf(),
            self.has(leaf),
        ensures
            result == self.scale(leaf.level),
            0 < result,
    {
        power(self.max_depth - leaf.level)
    }

    /// The leaf's fine cells, as `[x0, x1, y0, y1, z0, z1]`.
    pub fn fine_bounds(self, leaf: Leaf) -> (result: [u64; 6])
        requires
            self.wf(),
            self.has(leaf),
        ensures
            result[0] == leaf.x * self.scale(leaf.level),
            result[1] == (leaf.x + 1) * self.scale(leaf.level),
            result[2] == leaf.y * self.scale(leaf.level),
            result[3] == (leaf.y + 1) * self.scale(leaf.level),
            result[4] == leaf.z * self.scale(leaf.level),
            result[5] == (leaf.z + 1) * self.scale(leaf.level),
            result[0] < result[1] <= self.width(),
            result[2] < result[3] <= self.height(),
            result[4] < result[5] <= self.depth(),
    {
        proof {
            self.scale_facts(leaf);
        }
        let scale: u64 = self.fine_scale(leaf);
        let x: u64 = leaf.x as u64;
        let y: u64 = leaf.y as u64;
        let z: u64 = leaf.z as u64;
        [x * scale, (x + 1) * scale, y * scale, (y + 1) * scale, z * scale, (z + 1) * scale]
    }

    /// The lattice points at the leaf's corners: the lower four
    /// counterclockwise, then the upper four.
    pub open spec fn corner_points(self, leaf: Leaf) -> Seq<Lattice> {
        let scale = self.scale(leaf.level);
        let x0 = (2 * (leaf.x * scale)) as u64;
        let x1 = (2 * ((leaf.x + 1) * scale)) as u64;
        let y0 = (2 * (leaf.y * scale)) as u64;
        let y1 = (2 * ((leaf.y + 1) * scale)) as u64;
        let z0 = (2 * (leaf.z * scale)) as u64;
        let z1 = (2 * ((leaf.z + 1) * scale)) as u64;
        seq![
            Lattice { x: x0, y: y0, z: z0 },
            Lattice { x: x1, y: y0, z: z0 },
            Lattice { x: x1, y: y1, z: z0 },
            Lattice { x: x0, y: y1, z: z0 },
            Lattice { x: x0, y: y0, z: z1 },
            Lattice { x: x1, y: y0, z: z1 },
            Lattice { x: x1, y: y1, z: z1 },
            Lattice { x: x0, y: y1, z: z1 },
        ]
    }

    pub fn corners(self, leaf: Leaf) -> (result: [Lattice; 8])
        requires
            self.wf(),
            self.has(leaf),
        ensures
            result@ == self.corner_points(leaf),
            forall|i: int| 0 <= i < 8 ==> within(#[trigger] result[i]),
    {
        let b = self.fine_bounds(leaf);
        let x0: u64 = 2 * b[0];
        let x1: u64 = 2 * b[1];
        let y0: u64 = 2 * b[2];
        let y1: u64 = 2 * b[3];
        let z0: u64 = 2 * b[4];
        let z1: u64 = 2 * b[5];
        let result = [
            Lattice { x: x0, y: y0, z: z0 },
            Lattice { x: x1, y: y0, z: z0 },
            Lattice { x: x1, y: y1, z: z0 },
            Lattice { x: x0, y: y1, z: z0 },
            Lattice { x: x0, y: y0, z: z1 },
            Lattice { x: x1, y: y0, z: z1 },
            Lattice { x: x1, y: y1, z: z1 },
            Lattice { x: x0, y: y1, z: z1 },
        ];
        assert(result@ =~= self.corner_points(leaf));
        result
    }

    /// The lattice point in the middle of the leaf.
    pub open spec fn center_point(self, leaf: Leaf) -> Lattice {
        let scale = self.scale(leaf.level);
        Lattice {
            x: (leaf.x * scale + (leaf.x + 1) * scale) as u64,
            y: (leaf.y * scale + (leaf.y + 1) * scale) as u64,
            z: (leaf.z * scale + (leaf.z + 1) * scale) as u64,
        }
    }

    pub fn center(self, leaf: Leaf) -> (result: Lattice)
        requires
            self.wf(),
            self.has(leaf),
        ensures
            result == self.center_point(leaf),
    {
        let b = self.fine_bounds(leaf);
        Lattice { x: b[0] + b[1], y: b[2] + b[3], z: b[4] + b[5] }
    }

    /// The level-0 leaves: x runs fastest, z slowest.
    pub open spec fn root_at(self, index: int) -> Leaf {
        let plane = self.columns * self.rows;
        Leaf {
            level: 0,
            x: ((index % plane) % (self.columns as int)) as u32,
            y: ((index % plane) / (self.columns as int)) as u32,
            z: (index / plane) as u32,
        }
    }

    pub open spec fn root_list(self) -> Seq<Leaf> {
        Seq::new((self.columns * self.rows * self.layers) as nat, |i: int| self.root_at(i))
    }

    pub fn roots(self) -> (result: Vec<Leaf>)
        requires
            self.wf(),
        ensures
            result@ == self.root_list(),
            forall|i: int| 0 <= i < result.len() ==> self.has(#[trigger] result[i]),
    {
        let mut leaves: Vec<Leaf> = Vec::new();
        let ghost columns = self.columns as int;
        let ghost rows = self.rows as int;
        let ghost plane = columns * rows;
        let mut z: u32 = 0;
        proof {
            vstd::arithmetic::power2::lemma2_to64();
            assert(plane >= 1) by (nonlinear_arith)
                requires
                    columns >= 1,
                    rows >= 1,
                    plane == columns * rows,
            ;
        }
        while z < self.layers
            invariant
                self.wf(),
                columns == self.columns,
                rows == self.rows,
                plane == columns * rows,
                plane >= 1,
                pow2(0) == 1,
                z <= self.layers,
                leaves.len() == z * plane,
                forall|i: int| 0 <= i < leaves.len() ==> #[trigger] leaves[i] == self.root_at(i),
                forall|i: int| 0 <= i < leaves.len() ==> self.has(#[trigger] leaves[i]),
            decreases self.layers - z,
        {
            let mut y: u32 = 0;
            proof {
                assert(0 * columns == 0) by (nonlinear_arith);
            }
            while y < self.rows
                invariant
                    self.wf(),
                    columns == self.columns,
                    rows == self.rows,
                    plane == columns * rows,
                    plane >= 1,
                    pow2(0) == 1,
                    z < self.layers,
                    y <= self.rows,
                    leaves.len() == z * plane + y * columns,
                    forall|i: int|
                        0 <= i < leaves.len() ==> #[trigger] leaves[i] == self.root_at(i),
                    forall|i: int| 0 <= i < leaves.len() ==> self.has(#[trigger] leaves[i]),
                decreases self.rows - y,
            {
                let mut x: u32 = 0;
                while x < self.columns
                    invariant
                        self.wf(),
                        columns == self.columns,
                        rows == self.rows,
                        plane == columns * rows,
                        plane >= 1,
                        pow2(0) == 1,
                        z < self.layers,
                        y < self.rows,
                        x <= self.columns,
                        leaves.len() == z * plane + y * columns + x,
                        forall|i: int|
                            0 <= i < leaves.len() ==> #[trigger] leaves[i] == self.root_at(i),
                        forall|i: int| 0 <= i < leaves.len() ==> self.has(#[trigger] leaves[i]),
                    decreases self.columns - x,
                {
                    proof {
                        let inner = y * columns + x;
                        let i = z * plane + inner;
                        let yy = y as int;
                        let xx = x as int;
                        assert(0 <= inner < plane) by (nonlinear_arith)
                            requires
                                inner == yy * columns + xx,
                                0 <= xx < columns,
                                0 <= yy < rows,
                                plane == columns * rows,
                        ;
                        vstd::arithmetic::div_mod::lemma_fundamental_div_mod_converse(
                            i,
                            plane,
                            z as int,
                            inner,
                        );
                        vstd::arithmetic::div_mod::lemma_fundamental_div_mod_converse(
                            inner,
                            columns,
                            y as int,
                            x as int,
                        );
                        let unit = pow2(0) as int;
                        let layers = self.layers as int;
                        assert(columns * unit == columns && rows * unit == rows && layers * unit
                            == layers) by (nonlinear_arith)
                            requires
                                unit == 1,
                        ;
                        assert(self.has(Leaf { level: 0, x, y, z }));
                        assert(self.root_at(i) == (Leaf { level: 0, x, y, z }));
                    }
                    leaves.push(Leaf { level: 0, x, y, z });
                    x = x + 1;
                }
                proof {
                    assert((y + 1) * columns == y * columns + columns) by (nonlinear_arith);
                }
                y = y + 1;
            }
            proof {
                assert(rows * columns == columns * rows) by (nonlinear_arith);
                assert((z + 1) * plane == z * plane + plane) by (nonlinear_arith);
            }
            z = z + 1;
        }
        proof {
            let layers = self.layers as int;
            assert(layers * plane == plane * layers) by (nonlinear_arith);
            assert(leaves@ =~= self.root_list());
        }
        leaves
    }
}

proof fn axis_facts(a: int, count: int, s: int, p: int)
    requires
        0 <= a < count * p,
        s >= 1,
    ensures
        (a + 1) * s <= count * (s * p),
        0 <= a * s < (a + 1) * s,
{
    assert((a + 1) * s <= count * (s * p)) by (nonlinear_arith)
        requires
            a + 1 <= count * p,
            s >= 1,
    ;
    assert(0 <= a * s < (a + 1) * s) by (nonlinear_arith)
        requires
            a >= 0,
            s >= 1,
    ;
}

/// A fine cell lies in a leaf exactly where the divided coordinates name it.
pub proof fn covering_leaf(grid: Grid, leaf: Leaf, x: int, y: int, z: int)
    requires
        leaf.level <= grid.max_depth,
        0 <= x,
        0 <= y,
        0 <= z,
    ensures
        grid.covers(leaf, x, y, z) <==> x / (grid.scale(leaf.level) as int) == leaf.x && y / (
        grid.scale(leaf.level) as int) == leaf.y && z / (grid.scale(leaf.level) as int) == leaf.z,
{
    let scale = grid.scale(leaf.level) as int;
    vstd::arithmetic::power2::lemma_pow2_pos((grid.max_depth - leaf.level) as nat);
    axis_cover(leaf.x as int, scale, x);
    axis_cover(leaf.y as int, scale, y);
    axis_cover(leaf.z as int, scale, z);
}

/// Above the deepest level a leaf of the grid can be divided.
pub proof fn inner_leaf_divides(grid: Grid, leaf: Leaf)
    requires
        grid.wf(),
        grid.has(leaf),
        leaf.level < grid.max_depth,
    ensures
        leaf.divisible(),
{
    let p = pow2(leaf.level as nat) as int;
    let q = pow2((leaf.level + 1) as nat) as int;
    let m = pow2(grid.max_depth as nat) as int;
    vstd::arithmetic::power2::lemma_pow2_unfold((leaf.level + 1) as nat);
    if leaf.level + 1 < grid.max_depth {
        vstd::arithmetic::power2::lemma_pow2_strictly_increases(
            (leaf.level + 1) as nat,
            grid.max_depth as nat,
        );
    }
    axis_doubles(leaf.x as int, grid.columns as int, p, q, m);
    axis_doubles(leaf.y as int, grid.rows as int, p, q, m);
    axis_doubles(leaf.z as int, grid.layers as int, p, q, m);
}

proof fn axis_doubles(a: int, count: int, p: int, q: int, m: int)
    requires
        a < count * p,
        q == 2 * p,
        q <= m,
        count >= 0,
    ensures
        2 * a + 1 < count * m,
        2 * a + 1 < count * q,
{
    assert(2 * a + 1 < count * q) by (nonlinear_arith)
        requires
            a < count * p,
            q == 2 * p,
    ;
    assert(count * q <= count * m) by (nonlinear_arith)
        requires
            q <= m,
            count >= 0,
    ;
}

/// On one axis the lower and the upper half share the parent's cells.
proof fn axis_halves(a: int, half: int, x: int)
    requires
        half >= 1,
    ensures
        (a * (2 * half) <= x < (a + 1) * (2 * half)) <==> ((2 * a) * half <= x < (2 * a + 1) * half)
            || ((2 * a + 1) * half <= x < (2 * a + 2) * half),
        !(((2 * a) * half <= x < (2 * a + 1) * half) && ((2 * a + 1) * half <= x < (2 * a + 2)
            * half)),
{
    assert(a * (2 * half) == (2 * a) * half) by (nonlinear_arith);
    assert((a + 1) * (2 * half) == (2 * a + 2) * half) by (nonlinear_arith);
    assert((2 * a + 1) * half == (2 * a) * half + half) by (nonlinear_arith);
    assert((2 * a + 2) * half == (2 * a) * half + 2 * half) by (nonlinear_arith);
}

/// The parts of a leaf split its fine cells: each belongs to exactly one.
pub proof fn children_partition_parent(grid: Grid, leaf: Leaf, x: int, y: int, z: int)
    requires
        grid.wf(),
        grid.has(leaf),
        leaf.level < grid.max_depth,
        leaf.divisible(),
    ensures
        forall|i: int| 0 <= i < 8 ==> grid.has(#[trigger] leaf.parts()[i]),
        grid.covers(leaf, x, y, z) <==> exists|i: int|
            0 <= i < 8 && grid.covers(#[trigger] leaf.parts()[i], x, y, z),
        forall|i: int, j: int|
            0 <= i < 8 && 0 <= j < 8 && grid.covers(#[trigger] leaf.parts()[i], x, y, z)
                && grid.covers(#[trigger] leaf.parts()[j], x, y, z) ==> i == j,
{
    let parts = leaf.parts();
    let half = grid.scale((leaf.level + 1) as u8) as int;
    vstd::arithmetic::power2::lemma_pow2_unfold((grid.max_depth - leaf.level) as nat);
    vstd::arithmetic::power2::lemma_pow2_unfold((leaf.level + 1) as nat);
    vstd::arithmetic::power2::lemma_pow2_pos((grid.max_depth - leaf.level - 1) as nat);
    assert(grid.scale(leaf.level) == 2 * half);
    let a = leaf.x as int;
    let b = leaf.y as int;
    let c = leaf.z as int;
    let p = pow2(leaf.level as nat) as int;
    let q = pow2((leaf.level + 1) as nat) as int;
    axis_doubles(a, grid.columns as int, p, q, q);
    axis_doubles(b, grid.rows as int, p, q, q);
    axis_doubles(c, grid.layers as int, p, q, q);
    axis_halves(a, half, x);
    axis_halves(b, half, y);
    axis_halves(c, half, z);
    assert forall|i: int| 0 <= i < 8 implies grid.has(#[trigger] parts[i]) by {
        assert(0 <= upper_half(i, 0) <= 1);
        assert(0 <= upper_half(i, 1) <= 1);
        assert(0 <= upper_half(i, 2) <= 1);
    }
    if grid.covers(leaf, x, y, z) {
        let right: int = if x >= (2 * a + 1) * half {
            1
        } else {
            0
        };
        let back: int = if y >= (2 * b + 1) * half {
            1
        } else {
            0
        };
        let top: int = if z >= (2 * c + 1) * half {
            1
        } else {
            0
        };
        let i = right + 2 * back + 4 * top;
        assert(upper_half(i, 0) == right);
        assert(upper_half(i, 1) == back);
        assert(upper_half(i, 2) == top);
        assert(grid.covers(parts[i], x, y, z));
    }
    if exists|i: int| 0 <= i < 8 && grid.covers(#[trigger] parts[i], x, y, z) {
        let i = choose|i: int| 0 <= i < 8 && grid.covers(#[trigger] parts[i], x, y, z);
        assert(0 <= upper_half(i, 0) <= 1);
        assert(0 <= upper_half(i, 1) <= 1);
        assert(0 <= upper_half(i, 2) <= 1);
        assert(grid.covers(leaf, x, y, z));
    }
    assert forall|i: int, j: int|
        0 <= i < 8 && 0 <= j < 8 && grid.covers(#[trigger] parts[i], x, y, z) && grid.covers(
            #[trigger] parts[j],
            x,
            y,
            z,
        ) implies i == j by {
        assert(upper_half(i, 0) == upper_half(j, 0));
        assert(upper_half(i, 1) == upper_half(j, 1));
        assert(upper_half(i, 2) == upper_half(j, 2));
        assert(i == upper_half(i, 0) + 2 * upper_half(i, 1) + 4 * upper_half(i, 2));
        assert(j == upper_half(j, 0) + 2 * upper_half(j, 1) + 4 * upper_half(j, 2));
    }
}

/// The deepest leaf of the set, of a level up to `level`, that holds the fine
/// cell.
pub open spec fn owner_from(grid: Grid, leaves: Set<Leaf>, level: nat, x: int, y: int, z: int) -> Option<
    Leaf,
>
    decreases level,
{
    let scale = grid.scale(level as u8) as int;
    let leaf = Leaf { level: level as u8, x: (x / scale) as u32, y: (y / scale) as u32, z: (z / scale) as u32 };
    if leaves.contains(leaf) {
        Some(leaf)
    } else if level == 0 {
        None
    } else {
        owner_from(grid, leaves, (level - 1) as nat, x, y, z)
    }
}

/// The deepest leaf of the set that holds the fine cell.
pub open spec fn owner_of(grid: Grid, leaves: Set<Leaf>, x: int, y: int, z: int) -> Option<Leaf> {
    owner_from(grid, leaves, grid.max_depth as nat, x, y, z)
}

/// The owner of a fine cell is the deepest leaf over it; there is none exactly
/// where no leaf of the set covers the cell.
pub proof fn owner_is_deepest_cover(grid: Grid, leaves: Set<Leaf>, level: nat, x: int, y: int, z: int)
    requires
        grid.wf(),
        level <= grid.max_depth,
        0 <= x < grid.width(),
        0 <= y < grid.height(),
        0 <= z < grid.depth(),
    ensures
        match owner_from(grid, leaves, level, x, y, z) {
            Some(leaf) => leaves.contains(leaf) && leaf.level <= level && grid.covers(leaf, x, y, z)
                && forall|other: Leaf|
                #![trigger leaves.contains(other)]
                leaves.contains(other) && other.level <= level && grid.covers(other, x, y, z)
                    ==> other.level <= leaf.level,
            None => forall|other: Leaf|
                #![trigger leaves.contains(other)]
                leaves.contains(other) && other.level <= level ==> !grid.covers(other, x, y, z),
        },
    decreases level,
{
    let scale = grid.scale(level as u8) as int;
    vstd::arithmetic::power2::lemma_pow2_pos((grid.max_depth - level) as nat);
    let leaf = Leaf { level: level as u8, x: (x / scale) as u32, y: (y / scale) as u32, z: (z / scale) as u32 };
    assert(0 <= x / scale <= x) by (nonlinear_arith)
        requires
            scale >= 1,
            x >= 0,
    ;
    assert(0 <= y / scale <= y) by (nonlinear_arith)
        requires
            scale >= 1,
            y >= 0,
    ;
    assert(0 <= z / scale <= z) by (nonlinear_arith)
        requires
            scale >= 1,
            z >= 0,
    ;
    covering_leaf(grid, leaf, x, y, z);
    if leaves.contains(leaf) {
    } else {
        if level > 0 {
            owner_is_deepest_cover(grid, leaves, (level - 1) as nat, x, y, z);
        }
        assert forall|other: Leaf| #[trigger]
            leaves.contains(other) && other.level == level implies !grid.covers(other, x, y, z) by {
            covering_leaf(grid, other, x, y, z);
            if grid.covers(other, x, y, z) {
                assert(other == leaf);
            }
        }
    }
}

/// The two axes that span a side; sides 0 and 1 lie across z, 2 and 4 across
/// y, 3 and 5 across x.
pub open spec fn on_upper(place: int, second: bool) -> bool {
    if second {
        place >= 2
    } else {
        place == 1 || place == 2
    }
}

/// The fine cell beyond a side of the leaf, near one of the side's corners;
/// `None` where the side lies on the edge of the grid.
pub open spec fn probe(grid: Grid, leaf: Leaf, side: int, place: int) -> Option<(int, int, int)> {
    let scale = grid.scale(leaf.level);
    let x0 = leaf.x * scale;
    let x1 = (leaf.x + 1) * scale;
    let y0 = leaf.y * scale;
    let y1 = (leaf.y + 1) * scale;
    let z0 = leaf.z * scale;
    let z1 = (leaf.z + 1) * scale;
    let first = on_upper(place, false);
    let second = on_upper(place, true);
    if side == 0 && z0 > 0 {
        Some((along(x0, x1, first), along(y0, y1, second), z0 - 1))
    } else if side == 1 && z1 < grid.depth() {
        Some((along(x0, x1, first), along(y0, y1, second), z1))
    } else if side == 2 && y0 > 0 {
        Some((along(x0, x1, first), y0 - 1, along(z0, z1, second)))
    } else if side == 3 && x1 < grid.width() {
        Some((x1, along(y0, y1, first), along(z0, z1, second)))
    } else if side == 4 && y1 < grid.height() {
        Some((along(x0, x1, first), y1, along(z0, z1, second)))
    } else if side == 5 && x0 > 0 {
        Some((x0 - 1, along(y0, y1, first), along(z0, z1, second)))
    } else {
        None
    }
}

/// The leaf that touches a side of `leaf` near one of the side's corners.
pub open spec fn neighbor_of(
    grid: Grid,
    leaves: Set<Leaf>,
    leaf: Leaf,
    side: int,
    place: int,
) -> Option<Leaf> {
    match probe(grid, leaf, side, place) {
        Some((x, y, z)) => owner_of(grid, leaves, x, y, z),
        None => None,
    }
}

pub open spec fn deeper(neighbor: Option<Leaf>, level: int) -> bool {
    neighbor matches Some(leaf) && leaf.level > level
}

/// A neighbour on that side lies deeper than the level.
pub open spec fn side_deeper(grid: Grid, leaves: Set<Leaf>, leaf: Leaf, side: int, level: int) -> bool {
    deeper(neighbor_of(grid, leaves, leaf, side, 0), level) || deeper(
        neighbor_of(grid, leaves, leaf, side, 1),
        level,
    ) || deeper(neighbor_of(grid, leaves, leaf, side, 2), level) || deeper(
        neighbor_of(grid, leaves, leaf, side, 3),
        level,
    )
}

/// Some neighbour of the leaf is smaller by more than one level.
pub open spec fn must_split(grid: Grid, leaves: Set<Leaf>, leaf: Leaf) -> bool {
    exists|side: int| 0 <= side < 6 && #[trigger] side_deeper(grid, leaves, leaf, side, leaf.level + 1)
}

/// Every leaf is one of the grid's cubes.
pub open spec fn all_in_grid(grid: Grid, leaves: Seq<Leaf>) -> bool {
    forall|i: int| 0 <= i < leaves.len() ==> grid.has(#[trigger] leaves[i])
}

/// No leaf has a neighbour more than one level deeper.
pub open spec fn balanced(grid: Grid, leaves: Seq<Leaf>) -> bool {
    forall|i: int|
        0 <= i < leaves.len() ==> !must_split(grid, leaves.to_set(), #[trigger] leaves[i])
}

/// The leaves of a grid, by position.
pub struct LeafIndex {
    pub grid: Grid,
    pub leaves: SortedSet<Leaf>,
}

impl LeafIndex {
    pub open spec fn wf(self) -> bool {
        self.grid.wf() && self.leaves.wf()
    }

    pub fn new(grid: Grid, leaves: &Vec<Leaf>) -> (result: LeafIndex)
        requires
            grid.wf(),
        ensures
            result.wf(),
            result.grid == grid,
            result.leaves@ == leaves@.to_set(),
    {
        let mut set: SortedSet<Leaf> = SortedSet::new();
        let mut i: usize = 0;
        proof {
            assert(leaves@.take(0).to_set() =~= Set::<Leaf>::empty());
        }
        while i < leaves.len()
            invariant
                i <= leaves.len(),
                set.wf(),
                set@ == leaves@.take(i as int).to_set(),
            decreases leaves.len() - i,
        {
            proof {
                let before = leaves@.take(i as int);
                assert(leaves@.take(i as int + 1) =~= before.push(leaves[i as int]));
                before.lemma_push_to_set_commute(leaves[i as int]);
            }
            set.insert(leaves[i]);
            i = i + 1;
        }
        assert(leaves@.take(i as int) =~= leaves@);
        LeafIndex { grid, leaves: set }
    }

    /// The deepest leaf over the fine cell.
    pub fn owner(&self, x: u64, y: u64, z: u64) -> (result: Option<Leaf>)
        requires
            self.wf(),
            x < self.grid.width(),
            y < self.grid.height(),
            z < self.grid.depth(),
        ensures
            result == owner_of(self.grid, self.leaves@, x as int, y as int, z as int),
    {
        let mut level: u8 = self.grid.max_depth;
        loop
            invariant
                self.wf(),
                level <= self.grid.max_depth,
                x < self.grid.width(),
                y < self.grid.height(),
                z < self.grid.depth(),
                owner_of(self.grid, self.leaves@, x as int, y as int, z as int) == owner_from(
                    self.grid,
                    self.leaves@,
                    level as nat,
                    x as int,
                    y as int,
                    z as int,
                ),
            decreases level,
        {
            let scale: u64 = power(self.grid.max_depth - level);
            proof {
                assert(0 <= x / scale <= x) by (nonlinear_arith)
                    requires
                        scale >= 1,
                ;
                assert(0 <= y / scale <= y) by (nonlinear_arith)
                    requires
                        scale >= 1,
                ;
                assert(0 <= z / scale <= z) by (nonlinear_arith)
                    requires
                        scale >= 1,
                ;
            }
            let leaf = Leaf {
                level,
                x: (x / scale) as u32,
                y: (y / scale) as u32,
                z: (z / scale) as u32,
            };
            if self.leaves.contains(&leaf) {
                return Some(leaf);
            }
            if level == 0 {
                return None;
            }
            level = level - 1;
        }
    }

    fn fraction(a: u64, b: u64, upper: bool) -> (result: u64)
        requires
            a < b <= 0x1_0000_0000,
        ensures
            result == along(a as int, b as int, upper),
            a <= result < b,
    {
        if b - a <= 1 {
            a
        } else if upper {
            a + 3 * (b - a) / 4
        } else {
            a + (b - a) / 4
        }
    }

    /// The leaf that touches a side near one of the side's corners.
    pub fn neighbor(&self, leaf: Leaf, side: usize, place: usize) -> (result: Option<Leaf>)
        requires
            self.wf(),
            self.grid.has(leaf),
        ensures
            result == neighbor_of(self.grid, self.leaves@, leaf, side as int, place as int),
    {
        let b = self.grid.fine_bounds(leaf);
        let fine: u64 = power(self.grid.max_depth);
        let width: u64 = self.grid.columns as u64 * fine;
        let height: u64 = self.grid.rows as u64 * fine;
        let depth: u64 = self.grid.layers as u64 * fine;
        let first = place == 1 || place == 2;
        let second = place >= 2;
        if side == 0 && b[4] > 0 {
            self.owner(
                Self::fraction(b[0], b[1], first),
                Self::fraction(b[2], b[3], second),
                b[4] - 1,
            )
        } else if side == 1 && b[5] < depth {
            self.owner(
                Self::fraction(b[0], b[1], first),
                Self::fraction(b[2], b[3], second),
                b[5],
            )
        } else if side == 2 && b[2] > 0 {
            self.owner(
                Self::fraction(b[0], b[1], first),
                b[2] - 1,
                Self::fraction(b[4], b[5], second),
            )
        } else if side == 3 && b[1] < width {
            self.owner(
                b[1],
                Self::fraction(b[2], b[3], first),
                Self::fraction(b[4], b[5], second),
            )
        } else if side == 4 && b[3] < height {
            self.owner(
                Self::fraction(b[0], b[1], first),
                b[3],
                Self::fraction(b[4], b[5], second),
            )
        } else if side == 5 && b[0] > 0 {
            self.owner(
                b[0] - 1,
                Self::fraction(b[2], b[3], first),
                Self::fraction(b[4], b[5], second),
            )
        } else {
            None
        }
    }

    /// The leaves that touch a side near its corners.
    pub fn neighbors(&self, leaf: Leaf, side: usize) -> (result: [Option<Leaf>; 4])
        requires
            self.wf(),
            self.grid.has(leaf),
        ensures
            forall|place: int|
                0 <= place < 4 ==> #[trigger] result[place] == neighbor_of(
                    self.grid,
                    self.leaves@,
                    leaf,
                    side as int,
                    place,
                ),
    {
        [
            self.neighbor(leaf, side, 0),
            self.neighbor(leaf, side, 1),
            self.neighbor(leaf, side, 2),
            self.neighbor(leaf, side, 3),
        ]
    }

    fn is_deeper(neighbor: Option<Leaf>, level: u8) -> (result: bool)
        ensures
            result == deeper(neighbor, level as int),
    {
        match neighbor {
            Some(leaf) => leaf.level > level,
            None => false,
        }
    }

    fn some_deeper(&self, leaf: Leaf, side: usize, level: u8) -> (result: bool)
        requires
            self.wf(),
            self.grid.has(leaf),
        ensures
            result == side_deeper(self.grid, self.leaves@, leaf, side as int, level as int),
    {
        let around = self.neighbors(leaf, side);
        Self::is_deeper(around[0], level) || Self::is_deeper(around[1], level) || Self::is_deeper(
            around[2],
            level,
        ) || Self::is_deeper(around[3], level)
    }

    pub fn has_finer_neighbor(&self, leaf: Leaf, side: usize) -> (result: bool)
        requires
            self.wf(),
            self.grid.has(leaf),
        ensures
            result == side_deeper(
                self.grid,
                self.leaves@,
                leaf,
                side as int,
                leaf.level as int,
            ),
    {
        self.some_deeper(leaf, side, leaf.level)
    }

    /// Whether some neighbour is smaller by more than one level.
    pub fn needs_split(&self, leaf: Leaf) -> (result: bool)
        requires
            self.wf(),
            self.grid.has(leaf),
        ensures
            result == must_split(self.grid, self.leaves@, leaf),
    {
        let level: u8 = leaf.level + 1;
        let mut side: usize = 0;
        while side < 6
            invariant
                side <= 6,
                self.wf(),
                self.grid.has(leaf),
                level == leaf.level + 1,
                forall|s: int|
                    0 <= s < side ==> !#[trigger] side_deeper(
                        self.grid,
                        self.leaves@,
                        leaf,
                        s,
                        leaf.level + 1,
                    ),
            decreases 6 - side,
        {
            if self.some_deeper(leaf, side, level) {
                return true;
            }
            side = side + 1;
        }
        false
    }
}

/// Twice the cell limit, capped at the largest count.
pub open spec fn leaf_budget(max_cells: u64) -> int {
    if 2 * max_cells > u64::MAX {
        u64::MAX as int
    } else {
        2 * max_cells
    }
}

pub fn leaf_limit(max_cells: u64) -> (result: u64)
    ensures
        result == leaf_budget(max_cells),
{
    if max_cells > u64::MAX / 2 {
        u64::MAX
    } else {
        max_cells * 2
    }
}

/// The leaves with each one of the set replaced by its parts.
pub open spec fn refined(leaves: Seq<Leaf>, split: Set<Leaf>) -> Seq<Leaf>
    decreases leaves.len(),
{
    if leaves.len() == 0 {
        Seq::empty()
    } else {
        let head = refined(leaves.drop_last(), split);
        if split.contains(leaves.last()) {
            head + leaves.last().parts()
        } else {
            head.push(leaves.last())
        }
    }
}

/// Replaces each leaf of the set by its parts and sorts the leaves. Where
/// that makes too many leaves, the list is emptied and the error returned.
pub fn refine_leaves(max_cells: u64, leaves: &mut Vec<Leaf>, split: &SortedSet<Leaf>) -> (result:
    MeshResult<()>)
    requires
        split.wf(),
        forall|leaf: Leaf| #[trigger] split@.contains(leaf) ==> leaf.divisible(),
    ensures
        refined(old(leaves)@, split@).len() > leaf_budget(max_cells) ==> fails_limit(
            result,
            "adaptive 3D refinement exceeded the configured cell limit"@,
        ) && final(leaves)@.len() == 0,
        refined(old(leaves)@, split@).len() <= leaf_budget(max_cells) ==> result is Ok && ordered(
            final(leaves)@,
        ) && final(leaves)@.to_multiset() == refined(old(leaves)@, split@).to_multiset(),
{
    let mut list: Vec<Leaf> = Vec::new();
    let mut i: usize = 0;
    let ghost all = leaves@;
    while i < leaves.len()
        invariant
            i <= leaves.len(),
            leaves@ == all,
            split.wf(),
            forall|leaf: Leaf| #[trigger] split@.contains(leaf) ==> leaf.divisible(),
            list@ == refined(all.take(i as int), split@),
        decreases leaves.len() - i,
    {
        let leaf = leaves[i];
        assert(all.take(i as int + 1).drop_last() =~= all.take(i as int));
        if split.contains(&leaf) {
            let parts = leaf.children();
            list.push(parts[0]);
            list.push(parts[1]);
            list.push(parts[2]);
            list.push(parts[3]);
            list.push(parts[4]);
            list.push(parts[5]);
            list.push(parts[6]);
            list.push(parts[7]);
            assert(list@ =~= refined(all.take(i as int), split@) + leaf.parts());
        } else {
            list.push(leaf);
        }
        i = i + 1;
    }
    assert(all.take(i as int) =~= all);
    if list.len() as u64 > leaf_limit(max_cells) {
        leaves.clear();
        return Err(
            MeshError::limit_exceeded("adaptive 3D refinement exceeded the configured cell limit"),
        );
    }
    sort_keys(&mut list);
    *leaves = list;
    Ok(())
}
/// Some leaf of the list holds the fine cell.
pub open spec fn covered(grid: Grid, leaves: Seq<Leaf>, x: int, y: int, z: int) -> bool {
    exists|i: int| 0 <= i < leaves.len() && grid.covers(#[trigger] leaves[i], x, y, z)
}

/// No fine cell lies in two places of the list.
pub open spec fn disjoint(grid: Grid, leaves: Seq<Leaf>) -> bool {
    forall|i: int, j: int, x: int, y: int, z: int|
        0 <= i < leaves.len() && 0 <= j < leaves.len() && #[trigger] grid.covers(leaves[i], x, y, z)
            && #[trigger] grid.covers(leaves[j], x, y, z) ==> i == j
}
/// Dividing leaves keeps them in the grid, keeps the covered cells, and
/// keeps distinct leaves apart.
pub proof fn refinement_keeps_cover(grid: Grid, leaves: Seq<Leaf>, split: Set<Leaf>)
    requires
        grid.wf(),
        all_in_grid(grid, leaves),
        forall|leaf: Leaf| #[trigger] split.contains(leaf) ==> leaf.level < grid.max_depth,
    ensures
        all_in_grid(grid, refined(leaves, split)),
        forall|x: int, y: int, z: int| #[trigger]
            covered(grid, refined(leaves, split), x, y, z) == covered(grid, leaves, x, y, z),
        disjoint(grid, leaves) ==> disjoint(grid, refined(leaves, split)),
        refined(leaves, split).len() >= leaves.len(),
    decreases leaves.len(),
{
    let after = refined(leaves, split);
    if leaves.len() == 0 {
        assert forall|x: int, y: int, z: int| #[trigger]
            covered(grid, after, x, y, z) == covered(grid, leaves, x, y, z) by {}
    } else {
        let front = leaves.drop_last();
        let last = leaves.last();
        let head = refined(front, split);
        assert(all_in_grid(grid, front));
        refinement_keeps_cover(grid, front, split);
        assert(grid.has(leaves[leaves.len() - 1]));
        let tail = if split.contains(last) {
            last.parts()
        } else {
            seq![last]
        };
        assert(after =~= head + tail);
        if split.contains(last) {
            inner_leaf_divides(grid, last);
        }
        assert forall|i: int| 0 <= i < after.len() implies grid.has(#[trigger] after[i]) by {
            if i >= head.len() {
                assert(after[i] == tail[i - head.len()]);
                if split.contains(last) {
                    children_partition_parent(grid, last, 0, 0, 0);
                }
            }
        }
        assert forall|x: int, y: int, z: int| #[trigger]
            covered(grid, after, x, y, z) == covered(grid, leaves, x, y, z) by {
            tail_cover(grid, last, split, tail, x, y, z);
            if covered(grid, after, x, y, z) {
                let i = choose|i: int| 0 <= i < after.len() && grid.covers(#[trigger] after[i], x, y, z);
                if i < head.len() {
                    assert(grid.covers(head[i], x, y, z));
                    assert(covered(grid, head, x, y, z));
                    assert(covered(grid, front, x, y, z));
                    let j = choose|j: int|
                        0 <= j < front.len() && grid.covers(#[trigger] front[j], x, y, z);
                    assert(grid.covers(leaves[j], x, y, z));
                } else {
                    assert(grid.covers(tail[i - head.len()], x, y, z));
                    assert(grid.covers(leaves[leaves.len() - 1], x, y, z));
                }
            }
            if covered(grid, leaves, x, y, z) {
                let j = choose|j: int|
                    0 <= j < leaves.len() && grid.covers(#[trigger] leaves[j], x, y, z);
                if j < front.len() {
                    assert(grid.covers(front[j], x, y, z));
                    assert(covered(grid, front, x, y, z));
                    assert(covered(grid, head, x, y, z));
                    let i = choose|i: int|
                        0 <= i < head.len() && grid.covers(#[trigger] head[i], x, y, z);
                    assert(grid.covers(after[i], x, y, z));
                } else {
                    let i = choose|i: int|
                        0 <= i < tail.len() && grid.covers(#[trigger] tail[i], x, y, z);
                    assert(grid.covers(after[head.len() + i], x, y, z));
                }
            }
        }
        if disjoint(grid, leaves) {
            assert(disjoint(grid, front)) by {
                assert forall|i: int, j: int, x: int, y: int, z: int|
                    0 <= i < front.len() && 0 <= j < front.len() && #[trigger] grid.covers(
                        front[i],
                        x,
                        y,
                        z,
                    ) && #[trigger] grid.covers(front[j], x, y, z) implies i == j by {
                    assert(grid.covers(leaves[i], x, y, z));
                    assert(grid.covers(leaves[j], x, y, z));
                }
            }
            assert forall|i: int, j: int, x: int, y: int, z: int|
                0 <= i < after.len() && 0 <= j < after.len() && #[trigger] grid.covers(
                    after[i],
                    x,
                    y,
                    z,
                ) && #[trigger] grid.covers(after[j], x, y, z) implies i == j by {
                tail_cover(grid, last, split, tail, x, y, z);
                let n = head.len();
                if i < n && j < n {
                    assert(grid.covers(head[i], x, y, z));
                    assert(grid.covers(head[j], x, y, z));
                } else if i >= n && j >= n {
                    assert(grid.covers(tail[i - n], x, y, z));
                    assert(grid.covers(tail[j - n], x, y, z));
                } else {
                    let low = if i < n {
                        i
                    } else {
                        j
                    };
                    let high = if i < n {
                        j
                    } else {
                        i
                    };
                    assert(grid.covers(head[low], x, y, z));
                    assert(covered(grid, head, x, y, z));
                    assert(covered(grid, front, x, y, z));
                    let k = choose|k: int|
                        0 <= k < front.len() && grid.covers(#[trigger] front[k], x, y, z);
                    assert(grid.covers(leaves[k], x, y, z));
                    assert(grid.covers(tail[high - n], x, y, z));
                    assert(grid.covers(leaves[leaves.len() - 1], x, y, z));
                }
            }
        }
    }
}

proof fn tail_cover(grid: Grid, last: Leaf, split: Set<Leaf>, tail: Seq<Leaf>, x: int, y: int, z: int)
    requires
        grid.wf(),
        grid.has(last),
        split.contains(last) ==> last.level < grid.max_depth,
        tail == (if split.contains(last) {
            last.parts()
        } else {
            seq![last]
        }),
    ensures
        grid.covers(last, x, y, z) <==> exists|i: int|
            0 <= i < tail.len() && grid.covers(#[trigger] tail[i], x, y, z),
        forall|i: int, j: int|
            0 <= i < tail.len() && 0 <= j < tail.len() && grid.covers(#[trigger] tail[i], x, y, z)
                && grid.covers(#[trigger] tail[j], x, y, z) ==> i == j,
{
    if split.contains(last) {
        inner_leaf_divides(grid, last);
        children_partition_parent(grid, last, x, y, z);
    } else {
        assert(tail[0] == last);
    }
}

proof fn refinement_grows(leaves: Seq<Leaf>, split: Set<Leaf>)
    ensures
        refined(leaves, split).len() >= leaves.len(),
        (exists|i: int| 0 <= i < leaves.len() && split.contains(#[trigger] leaves[i])) ==> refined(
            leaves,
            split,
        ).len() > leaves.len(),
    decreases leaves.len(),
{
    if leaves.len() > 0 {
        let front = leaves.drop_last();
        refinement_grows(front, split);
        if exists|i: int| 0 <= i < leaves.len() && split.contains(#[trigger] leaves[i]) {
            let i = choose|i: int| 0 <= i < leaves.len() && split.contains(#[trigger] leaves[i]);
            if i < front.len() {
                assert(split.contains(front[i]));
            }
        }
    }
}

/// A rearrangement covers the same cells.
proof fn rearrangement_keeps_cover(grid: Grid, a: Seq<Leaf>, b: Seq<Leaf>)
    requires
        a.to_multiset() == b.to_multiset(),
    ensures
        all_in_grid(grid, a) ==> all_in_grid(grid, b),
        forall|x: int, y: int, z: int| covered(grid, a, x, y, z) == #[trigger] covered(grid, b, x, y, z),
        a.to_set() == b.to_set(),
{
    rearranged(a, b);
    assert(a.to_set() =~= b.to_set()) by {
        assert forall|k: Leaf| a.to_set().contains(k) == b.to_set().contains(k) by {
            assert(a.contains(k) == b.contains(k));
        }
    }
    if all_in_grid(grid, a) {
        assert forall|i: int| 0 <= i < b.len() implies grid.has(#[trigger] b[i]) by {
            assert(b.contains(b[i]));
            assert(a.contains(b[i]));
            let j = a.index_of(b[i]);
            assert(grid.has(a[j]));
        }
    }
    assert forall|x: int, y: int, z: int| covered(grid, a, x, y, z) == #[trigger] covered(grid, b, x, y, z) by {
        if covered(grid, a, x, y, z) {
            let i = choose|i: int| 0 <= i < a.len() && grid.covers(#[trigger] a[i], x, y, z);
            assert(a.contains(a[i]));
            assert(b.contains(a[i]));
            let j = b.index_of(a[i]);
            assert(grid.covers(b[j], x, y, z));
        }
        if covered(grid, b, x, y, z) {
            let i = choose|i: int| 0 <= i < b.len() && grid.covers(#[trigger] b[i], x, y, z);
            assert(b.contains(b[i]));
            assert(a.contains(b[i]));
            let j = a.index_of(b[i]);
            assert(grid.covers(a[j], x, y, z));
        }
    }
}

/// The leaves that must be split for balance.
pub open spec fn unbalanced(grid: Grid, leaves: Seq<Leaf>) -> Set<Leaf> {
    Set::new(|leaf: Leaf| leaves.contains(leaf) && must_split(grid, leaves.to_set(), leaf))
}

proof fn owner_level(grid: Grid, leaves: Set<Leaf>, level: nat, x: int, y: int, z: int)
    requires
        level <= 255,
    ensures
        owner_from(grid, leaves, level, x, y, z) matches Some(leaf) ==> leaf.level <= level,
    decreases level,
{
    if level > 0 {
        owner_level(grid, leaves, (level - 1) as nat, x, y, z);
    }
}
proof fn unbalanced_leaf_is_shallow(grid: Grid, leaves: Set<Leaf>, leaf: Leaf)
    requires
        grid.max_depth <= 24,
        must_split(grid, leaves, leaf),
    ensures
        leaf.level < grid.max_depth,
{
    let side = choose|side: int|
        0 <= side < 6 && #[trigger] side_deeper(grid, leaves, leaf, side, leaf.level + 1);
    assert forall|place: int| deeper(
        #[trigger] neighbor_of(grid, leaves, leaf, side, place),
        leaf.level + 1,
    ) implies leaf.level < grid.max_depth by {
        if let Some((x, y, z)) = probe(grid, leaf, side, place) {
            owner_level(grid, leaves, grid.max_depth as nat, x, y, z);
        }
    }
}

/// The leaves that must be split for balance, unless the job is cancelled.
fn unbalanced_leaves(control: &JobControl, grid: Grid, leaves: &Vec<Leaf>) -> (result: MeshResult<
    SortedSet<Leaf>,
>)
    requires
        grid.wf(),
        all_in_grid(grid, leaves@),
    ensures
        match result {
            Ok(split) => split.wf() && split@ == unbalanced(grid, leaves@),
            Err(error) => error is Cancelled,
        },
{
    let index = LeafIndex::new(grid, leaves);
    let mut split: SortedSet<Leaf> = SortedSet::new();
    let mut i: usize = 0;
    while i < leaves.len()
        invariant
            i <= leaves.len(),
            grid.wf(),
            all_in_grid(grid, leaves@),
            index.wf(),
            index.grid == grid,
            index.leaves@ == leaves@.to_set(),
            split.wf(),
            forall|leaf: Leaf| #[trigger]
                split@.contains(leaf) <==> leaves@.take(i as int).contains(leaf) && must_split(
                    grid,
                    leaves@.to_set(),
                    leaf,
                ),
        decreases leaves.len() - i,
    {
        if i % 128 == 0 {
            control.check()?;
        }
        let leaf = leaves[i];
        let ghost before = split@;
        if index.needs_split(leaf) {
            split.insert(leaf);
        }
        proof {
            let old_take = leaves@.take(i as int);
            let new_take = leaves@.take(i as int + 1);
            assert(new_take =~= old_take.push(leaf));
            assert forall|k: Leaf| #[trigger]
                split@.contains(k) <==> new_take.contains(k) && must_split(
                    grid,
                    leaves@.to_set(),
                    k,
                ) by {
                if new_take.contains(k) && k != leaf {
                    let j = new_take.index_of(k);
                    assert(old_take[j] == k);
                }
                if old_take.contains(k) {
                    let j = old_take.index_of(k);
                    assert(new_take[j] == k);
                }
                assert(new_take[i as int] == leaf);
                assert(before.contains(k) <==> old_take.contains(k) && must_split(
                    grid,
                    leaves@.to_set(),
                    k,
                ));
            }
        }
        i = i + 1;
    }
    assert(leaves@.take(i as int) =~= leaves@);
    assert(split@ =~= unbalanced(grid, leaves@));
    Ok(split)
}

/// Splits leaves until no neighbour of a leaf is more than one level deeper.
/// The covered cells stay the same.
pub fn balance(control: &JobControl, max_cells: u64, grid: Grid, leaves: &mut Vec<Leaf>) -> (result:
    MeshResult<()>)
    requires
        grid.wf(),
        all_in_grid(grid, old(leaves)@),
    ensures
        match result {
            Ok(()) => {
                &&& balanced(grid, final(leaves)@)
                &&& all_in_grid(grid, final(leaves)@)
                &&& forall|x: int, y: int, z: int| #[trigger]
                    covered(grid, final(leaves)@, x, y, z) == covered(grid, old(leaves)@, x, y, z)
                &&& balanced(grid, old(leaves)@) ==> final(leaves)@ == old(leaves)@
            },
            Err(error) => error is Cancelled || fails_limit(
                result,
                "adaptive 3D refinement exceeded the configured cell limit"@,
            ),
        },
{
    let ghost start = leaves@;
    let ghost budget = leaf_budget(max_cells);
    loop
        invariant
            grid.wf(),
            start == old(leaves)@,
            budget == leaf_budget(max_cells),
            all_in_grid(grid, leaves@),
            forall|x: int, y: int, z: int| #[trigger]
                covered(grid, leaves@, x, y, z) == covered(grid, start, x, y, z),
            balanced(grid, start) ==> leaves@ == start,
        decreases budget - leaves.len(),
    {
        control.check()?;
        let split = unbalanced_leaves(control, grid, leaves)?;
        if split.items.len() == 0 {
            proof {
                assert forall|i: int| 0 <= i < leaves.len() implies !must_split(
                    grid,
                    leaves@.to_set(),
                    #[trigger] leaves@[i],
                ) by {
                    if must_split(grid, leaves@.to_set(), leaves@[i]) {
                        assert(leaves@.contains(leaves@[i]));
                        assert(split@.contains(leaves@[i]));
                    }
                }
            }
            return Ok(());
        }
        let ghost before = leaves@;
        proof {
            assert forall|leaf: Leaf| #[trigger] split@.contains(leaf) implies leaf.level
                < grid.max_depth && leaf.divisible() by {
                unbalanced_leaf_is_shallow(grid, before.to_set(), leaf);
                let j = before.index_of(leaf);
                assert(grid.has(before[j]));
                inner_leaf_divides(grid, leaf);
            }
            refinement_keeps_cover(grid, before, split@);
            refinement_grows(before, split@);
            let first = split.items@[0];
            assert(split@.contains(first));
            let j = before.index_of(first);
            assert(split@.contains(before[j]));
            assert(must_split(grid, before.to_set(), before[j]));
        }
        refine_leaves(max_cells, leaves, &split)?;
        proof {
            rearrangement_keeps_cover(grid, refined(before, split@), leaves@);
            rearranged(refined(before, split@), leaves@);
        }
    }
}

/// The search for the leaves that touch the domain.
pub struct Discovery {
    pub grid: Grid,
    pub pending: Vec<Leaf>,
    pub leaves: Vec<Leaf>,
}

impl Discovery {
    pub open spec fn wf(self) -> bool {
        self.grid.wf() && all_in_grid(self.grid, self.pending@) && all_in_grid(
            self.grid,
            self.leaves@,
        )
    }

    /// Starts with every root leaf pending, the first one on top.
    pub fn new(grid: Grid) -> (result: Discovery)
        requires
            grid.wf(),
            grid.columns * grid.rows * grid.layers <= usize::MAX,
        ensures
            result.wf(),
            result.grid == grid,
            result.pending@ == grid.root_list().reverse(),
            result.leaves@.len() == 0,
    {
        let roots = grid.roots();
        let mut pending: Vec<Leaf> = Vec::new();
        let mut i: usize = roots.len();
        while i > 0
            invariant
                i <= roots.len(),
                roots@ == grid.root_list(),
                forall|k: int| 0 <= k < roots.len() ==> grid.has(#[trigger] roots[k]),
                pending.len() == roots.len() - i,
                forall|k: int|
                    0 <= k < pending.len() ==> #[trigger] pending[k] == roots[roots.len() - 1 - k],
            decreases i,
        {
            i = i - 1;
            pending.push(roots[i]);
        }
        assert(pending@ =~= grid.root_list().reverse());
        Discovery { grid, pending, leaves: Vec::new() }
    }

    /// The next leaf to look at.
    pub fn next(&mut self) -> (result: Option<Leaf>)
        requires
            old(self).wf(),
        ensures
            final(self).wf(),
            final(self).grid == old(self).grid,
            final(self).leaves@ == old(self).leaves@,
            match result {
                Some(leaf) => old(self).pending@ == final(self).pending@.push(leaf)
                    && final(self).grid.has(leaf),
                None => old(self).pending@.len() == 0 && final(self).pending@ == old(self).pending@,
            },
    {
        let ghost before = self.pending@;
        let result = self.pending.pop();
        proof {
            if before.len() > 0 {
                assert(self.grid.has(before[before.len() - 1]));
                assert(before =~= self.pending@.push(before.last()));
            }
        }
        result
    }

    /// Divides the leaf, keeps it or drops it, then checks the budget.
    pub fn settle(&mut self, max_cells: u64, leaf: Leaf, class: LeafClass, split: bool) -> (result:
        MeshResult<()>)
        requires
            old(self).wf(),
            old(self).grid.has(leaf),
            old(self).pending@.len() + old(self).leaves@.len() + 8 <= usize::MAX,
        ensures
            final(self).wf(),
            final(self).grid == old(self).grid,
            split && leaf.level < old(self).grid.max_depth ==> final(self).leaves@ == old(
                self,
            ).leaves@ && final(self).pending@ == old(self).pending@ + leaf.parts().reverse(),
            !(split && leaf.level < old(self).grid.max_depth) ==> final(self).pending@ == old(
                self,
            ).pending@ && final(self).leaves@ == (if class.outside() {
                old(self).leaves@
            } else {
                old(self).leaves@.push(leaf)
            }),
            final(self).pending@.len() + final(self).leaves@.len() <= leaf_budget(max_cells)
                ==> result is Ok,
            final(self).pending@.len() + final(self).leaves@.len() > leaf_budget(max_cells)
                ==> fails_limit(
                result,
                "adaptive 3D discovery exceeded the configured cell limit"@,
            ),
    {
        if split && leaf.level < self.grid.max_depth {
            proof {
                inner_leaf_divides(self.grid, leaf);
                children_partition_parent(self.grid, leaf, 0, 0, 0);
            }
            let parts = leaf.children();
            let ghost before = self.pending@;
            self.pending.push(parts[7]);
            self.pending.push(parts[6]);
            self.pending.push(parts[5]);
            self.pending.push(parts[4]);
            self.pending.push(parts[3]);
            self.pending.push(parts[2]);
            self.pending.push(parts[1]);
            self.pending.push(parts[0]);
            proof {
                assert(self.pending@ =~= before + leaf.parts().reverse());
                assert forall|i: int| 0 <= i < self.pending@.len() implies self.grid.has(
                    #[trigger] self.pending@[i],
                ) by {
                    if i >= before.len() {
                        assert(self.pending@[i] == leaf.parts()[7 - (i - before.len())]);
                    } else {
                        assert(self.pending@[i] == before[i]);
                    }
                }
            }
        } else if !class.certified_outside || class.negative > 0 || class.on_boundary > 0 {
            self.leaves.push(leaf);
        }
        let total: u64 = (self.leaves.len() + self.pending.len()) as u64;
        if total > leaf_limit(max_cells) {
            return Err(
                MeshError::limit_exceeded(
                    "adaptive 3D discovery exceeded the configured cell limit",
                ),
            );
        }
        Ok(())
    }

    /// The leaves found, sorted.
    pub fn finish(self) -> (result: Vec<Leaf>)
        requires
            self.wf(),
        ensures
            ordered(result@),
            result@.to_multiset() == self.leaves@.to_multiset(),
            all_in_grid(self.grid, result@),
    {
        let grid = self.grid;
        let mut leaves = self.leaves;
        let ghost before = leaves@;
        sort_keys(&mut leaves);
        proof {
            rearrangement_keeps_cover(grid, before, leaves@);
        }
        leaves
    }
}

/// In a balanced grid every leaf that touches a face of another is at most one level deeper,
/// and a grid in which all are is balanced.
pub proof fn balanced_leaves_are_close(grid: Grid, leaves: Seq<Leaf>)
    ensures
        balanced(grid, leaves) <==> forall|i: int, side: int, part: int|
            0 <= i < leaves.len() && 0 <= side < 6 && 0 <= part < 4 ==> match #[trigger] neighbor_of(
                grid,
                leaves.to_set(),
                leaves[i],
                side,
                part,
            ) {
                Some(other) => other.level <= leaves[i].level + 1,
                None => true,
            },
{
    let set = leaves.to_set();
    if balanced(grid, leaves) {
        assert forall|i: int, side: int, part: int|
            0 <= i < leaves.len() && 0 <= side < 6 && 0 <= part < 4 implies match #[trigger] neighbor_of(
            grid,
            set,
            leaves[i],
            side,
            part,
        ) {
            Some(other) => other.level <= leaves[i].level + 1,
            None => true,
        } by {
            assert(!must_split(grid, set, leaves[i]));
            assert(!side_deeper(grid, set, leaves[i], side, leaves[i].level + 1));
            assert(part == 0 || part == 1 || part == 2 || part == 3);
        }
    }
    if forall|i: int, side: int, part: int|
        0 <= i < leaves.len() && 0 <= side < 6 && 0 <= part < 4 ==> match #[trigger] neighbor_of(
            grid,
            set,
            leaves[i],
            side,
            part,
        ) {
            Some(other) => other.level <= leaves[i].level + 1,
            None => true,
        } {
        assert forall|i: int| 0 <= i < leaves.len() implies !must_split(
            grid,
            set,
            #[trigger] leaves[i],
        ) by {
            assert forall|side: int| 0 <= side < 6 implies !#[trigger] side_deeper(
                grid,
                set,
                leaves[i],
                side,
                leaves[i].level + 1,
            ) by {
                let first = neighbor_of(grid, set, leaves[i], side, 0);
                let second = neighbor_of(grid, set, leaves[i], side, 1);
                let third = neighbor_of(grid, set, leaves[i], side, 2);
                let fourth = neighbor_of(grid, set, leaves[i], side, 3);
                assert(!deeper(first, leaves[i].level + 1));
                assert(!deeper(second, leaves[i].level + 1));
                assert(!deeper(third, leaves[i].level + 1));
                assert(!deeper(fourth, leaves[i].level + 1));
            }
        }
    }
}

/// The leaves that a grid starts with are its columns, rows and layers, each cube once.
pub proof fn roots_are_all_cubes(grid: Grid, leaf: Leaf)
    requires
        grid.columns >= 1,
        grid.rows >= 1,
    ensures
        grid.root_list().contains(leaf) <==> leaf.level == 0 && leaf.x < grid.columns && leaf.y
            < grid.rows && leaf.z < grid.layers,
        grid.root_list().no_duplicates(),
{
    let columns = grid.columns as int;
    let rows = grid.rows as int;
    let layers = grid.layers as int;
    let plane = columns * rows;
    let roots = grid.root_list();
    assert(plane >= 1) by (nonlinear_arith)
        requires
            columns >= 1,
            rows >= 1,
            plane == columns * rows,
    ;
    assert(plane * layers >= 0) by (nonlinear_arith)
        requires
            plane >= 1,
            layers >= 0,
    ;
    assert forall|i: int| 0 <= i < roots.len() implies (#[trigger] roots[i]).level == 0 && roots[i].x
        < columns && roots[i].y < rows && roots[i].z < layers && i == plane * roots[i].z + columns
        * roots[i].y + roots[i].x by {
        root_has_place(columns, rows, layers, i);
    }
    if roots.contains(leaf) {
        let m = roots.index_of(leaf);
        assert(roots[m] == leaf);
    }
    if leaf.level == 0 && leaf.x < columns && leaf.y < rows && leaf.z < layers {
        let (x, y, z) = (leaf.x as int, leaf.y as int, leaf.z as int);
        let i = plane * z + (columns * y + x);
        let r = columns * y + x;
        assert(0 <= r < plane) by (nonlinear_arith)
            requires
                0 <= x < columns,
                0 <= y < rows,
                r == columns * y + x,
                plane == columns * rows,
        ;
        assert(0 <= i < plane * layers) by (nonlinear_arith)
            requires
                0 <= r < plane,
                0 <= z < layers,
                i == plane * z + r,
        ;
        assert(i % plane == r && i / plane == z) by (nonlinear_arith)
            requires
                0 <= r < plane,
                i == plane * z + r,
        ;
        assert(r % columns == x && r / columns == y) by (nonlinear_arith)
            requires
                0 <= x < columns,
                r == columns * y + x,
        ;
        assert(roots[i] == leaf);
    }
    assert forall|i: int, j: int|
        0 <= i < roots.len() && 0 <= j < roots.len() && i != j implies roots[i] != roots[j] by {
        if roots[i] == roots[j] {
            assert(i == plane * roots[i].z + columns * roots[i].y + roots[i].x);
            assert(j == plane * roots[j].z + columns * roots[j].y + roots[j].x);
        }
    }
}

proof fn root_has_place(columns: int, rows: int, layers: int, i: int)
    requires
        columns >= 1,
        rows >= 1,
        0 <= i < columns * rows * layers,
    ensures
        ({
            let plane = columns * rows;
            let r = i % plane;
            &&& 0 <= r % columns < columns
            &&& 0 <= r / columns < rows
            &&& 0 <= i / plane < layers
            &&& i == plane * (i / plane) + columns * (r / columns) + r % columns
        }),
{
    let plane = columns * rows;
    assert(plane >= 1) by (nonlinear_arith)
        requires
            columns >= 1,
            rows >= 1,
            plane == columns * rows,
    ;
    let r = i % plane;
    assert(i == plane * (i / plane) + r && 0 <= r < plane) by (nonlinear_arith)
        requires
            plane >= 1,
            i >= 0,
            r == i % plane,
    ;
    assert(0 <= i / plane < layers) by (nonlinear_arith)
        requires
            plane >= 1,
            0 <= i < plane * layers,
    ;
    assert(r == columns * (r / columns) + r % columns && 0 <= r % columns < columns) by (nonlinear_arith)
        requires
            columns >= 1,
            r >= 0,
    ;
    assert(0 <= r / columns < rows) by (nonlinear_arith)
        requires
            columns >= 1,
            0 <= r < columns * rows,
    ;
}

} // verus!
