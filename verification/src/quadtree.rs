//! The balanced quadtree behind 2D meshing.
//!
//! A grid splits the domain's local rectangle into `base[0] * base[1]` root
//! leaves; a leaf of level `l` is one of the squares that `l` halvings give.
//! Positions are counted in fine cells, the squares of the deepest level, and
//! lattice points in half fine cells, so that every edge has an exact middle.

use vstd::arithmetic::power2::pow2;
use vstd::prelude::*;

use crate::algorithm::JobControl;
use crate::error::{MeshError, MeshResult};
#[allow(unused_imports)]
use crate::error::fails_limit;
use crate::number::Real;
use crate::sorted::{sort_keys, Key, SortedSet};
#[allow(unused_imports)]
use crate::sorted::{ordered, rearranged};

verus! {

#[derive(Debug, Clone, Copy, PartialEq, Eq, Structural)]
pub struct Leaf {
    pub level: u8,
    pub x: u32,
    pub y: u32,
}

impl Key for Leaf {
    open spec fn before(self, other: Self) -> bool {
        self.level < other.level || (self.level == other.level && (self.x < other.x || (self.x
            == other.x && self.y < other.y)))
    }

    proof fn irreflexive(a: Self) {
    }

    proof fn transitive(a: Self, b: Self, c: Self) {
    }

    proof fn total(a: Self, b: Self) {
    }

    fn precedes(&self, other: &Self) -> (result: bool) {
        self.level < other.level || (self.level == other.level && (self.x < other.x || (self.x
            == other.x && self.y < other.y)))
    }
}

/// A point of the lattice, in half fine cells.
#[derive(Debug, Clone, Copy, PartialEq, Eq, Structural)]
pub struct Lattice {
    pub x: u64,
    pub y: u64,
}

impl Key for Lattice {
    open spec fn before(self, other: Self) -> bool {
        self.x < other.x || (self.x == other.x && self.y < other.y)
    }

    proof fn irreflexive(a: Self) {
    }

    proof fn transitive(a: Self, b: Self, c: Self) {
    }

    proof fn total(a: Self, b: Self) {
    }

    fn precedes(&self, other: &Self) -> (result: bool) {
        self.x < other.x || (self.x == other.x && self.y < other.y)
    }
}

/// The lattice point halfway, rounded towards the origin.
pub open spec fn middle(a: Lattice, b: Lattice) -> Lattice {
    Lattice { x: ((a.x + b.x) / 2) as u64, y: ((a.y + b.y) / 2) as u64 }
}

pub fn midpoint(a: Lattice, b: Lattice) -> (result: Lattice)
    requires
        a.x + b.x <= u64::MAX,
        a.y + b.y <= u64::MAX,
    ensures
        result == middle(a, b),
{
    Lattice { x: (a.x + b.x) / 2, y: (a.y + b.y) / 2 }
}

impl Leaf {
    /// The four quarters, counterclockwise from the lower left.
    pub open spec fn quarters(self) -> Seq<Leaf> {
        let level = (self.level + 1) as u8;
        let x = (self.x * 2) as u32;
        let y = (self.y * 2) as u32;
        let right = (self.x * 2 + 1) as u32;
        let top = (self.y * 2 + 1) as u32;
        seq![
            Leaf { level, x, y },
            Leaf { level, x: right, y },
            Leaf { level, x: right, y: top },
            Leaf { level, x, y: top },
        ]
    }

    /// The quarters' coordinates fit.
    pub open spec fn divisible(self) -> bool {
        self.level < u8::MAX && self.x * 2 + 1 <= u32::MAX && self.y * 2 + 1 <= u32::MAX
    }

    pub fn children(self) -> (result: [Leaf; 4])
        requires
            self.divisible(),
        ensures
            result@ == self.quarters(),
    {
        let level: u8 = self.level + 1;
        let x: u32 = self.x * 2;
        let y: u32 = self.y * 2;
        let right: u32 = self.x * 2 + 1;
        let top: u32 = self.y * 2 + 1;
        let result = [
            Leaf { level, x, y },
            Leaf { level, x: right, y },
            Leaf { level, x: right, y: top },
            Leaf { level, x, y: top },
        ];
        assert(result@ =~= self.quarters());
        result
    }
}

/// The shape of the tree: root squares per axis and the deepest level.
#[derive(Debug, Clone, Copy, PartialEq, Eq, Structural)]
pub struct Grid {
    pub columns: u32,
    pub rows: u32,
    pub max_depth: u8,
}

/// `2^exponent`.
pub fn power(exponent: u8) -> (result: u64)
    requires
        exponent <= 32,
    ensures
        result == pow2(exponent as nat),
        0 < result <= 0x1_0000_0000,
{
    let mut result: u64 = 1;
    let mut step: u8 = 0;
    proof {
        vstd::arithmetic::power2::lemma2_to64();
    }
    while step < exponent
        invariant
            step <= exponent <= 32,
            result == pow2(step as nat),
            0 < result <= 0x1_0000_0000,
            pow2(32) == 0x1_0000_0000,
        decreases exponent - step,
    {
        proof {
            vstd::arithmetic::power2::lemma_pow2_unfold((step + 1) as nat);
            if step + 1 < 32 {
                vstd::arithmetic::power2::lemma_pow2_strictly_increases((step + 1) as nat, 32);
            }
        }
        result = result * 2;
        step = step + 1;
    }
    result
}

impl Grid {
    /// Every leaf's coordinates fit in 32 bits at the deepest level.
    pub open spec fn wf(self) -> bool {
        &&& 1 <= self.columns
        &&& 1 <= self.rows
        &&& self.max_depth <= 30
        &&& self.columns * pow2(self.max_depth as nat) <= 0x1_0000_0000
        &&& self.rows * pow2(self.max_depth as nat) <= 0x1_0000_0000
    }

    /// The leaf is one of this grid's squares.
    pub open spec fn has(self, leaf: Leaf) -> bool {
        &&& leaf.level <= self.max_depth
        &&& leaf.x < self.columns * pow2(leaf.level as nat)
        &&& leaf.y < self.rows * pow2(leaf.level as nat)
    }

    /// The side of a leaf in fine cells.
    pub open spec fn scale(self, level: u8) -> nat {
        pow2((self.max_depth - level) as nat)
    }

    /// The leaf holds the fine cell.
    pub open spec fn covers(self, leaf: Leaf, x: int, y: int) -> bool {
        let scale = self.scale(leaf.level) as int;
        leaf.x * scale <= x < (leaf.x + 1) * scale && leaf.y * scale <= y < (leaf.y + 1) * scale
    }

    /// The whole grid in fine cells.
    pub open spec fn width(self) -> int {
        self.columns * pow2(self.max_depth as nat)
    }

    pub open spec fn height(self) -> int {
        self.rows * pow2(self.max_depth as nat)
    }

    pub(crate) proof fn scale_facts(self, leaf: Leaf)
        requires
            self.wf(),
            self.has(leaf),
        ensures
            1 <= self.scale(leaf.level) <= 0x4000_0000,
            self.scale(leaf.level) * pow2(leaf.level as nat) == pow2(self.max_depth as nat),
            (leaf.x + 1) * self.scale(leaf.level) <= self.width(),
            (leaf.y + 1) * self.scale(leaf.level) <= self.height(),
            leaf.x * self.scale(leaf.level) < (leaf.x + 1) * self.scale(leaf.level),
            leaf.y * self.scale(leaf.level) < (leaf.y + 1) * self.scale(leaf.level),
            0 <= leaf.x * self.scale(leaf.level),
            0 <= leaf.y * self.scale(leaf.level),
    {
        let up = (self.max_depth - leaf.level) as nat;
        let down = leaf.level as nat;
        let s = pow2(up);
        let p = pow2(down);
        vstd::arithmetic::power2::lemma_pow2_pos(up);
        vstd::arithmetic::power2::lemma_pow2_adds(up, down);
        vstd::arithmetic::power2::lemma2_to64();
        if up < 30 {
            vstd::arithmetic::power2::lemma_pow2_strictly_increases(up, 30);
        }
        let columns = self.columns;
        let rows = self.rows;
        let x = leaf.x;
        let y = leaf.y;
        assert((x + 1) * s <= columns * (s * p)) by (nonlinear_arith)
            requires
                x + 1 <= columns * p,
                s >= 1,
        ;
        assert((y + 1) * s <= rows * (s * p)) by (nonlinear_arith)
            requires
                y + 1 <= rows * p,
                s >= 1,
        ;
        assert(0 <= x * s < (x + 1) * s) by (nonlinear_arith)
            requires
                s >= 1,
        ;
        assert(0 <= y * s < (y + 1) * s) by (nonlinear_arith)
            requires
                s >= 1,
        ;
    }

    /// Refuses a base grid with more squares than the leaf budget.
    pub fn within_limit(columns: u32, rows: u32, max_cells: u64) -> (result: MeshResult<()>)
        ensures
            columns * rows <= leaf_budget(max_cells) ==> result is Ok,
            columns * rows > leaf_budget(max_cells) ==> fails_limit(
                result,
                "adaptive 2D base grid exceeds the configured cell limit"@,
            ),
    {
        proof {
            let a = columns as int;
            let b = rows as int;
            assert(0 <= a * b <= 0xffff_ffff * 0xffff_ffff) by (nonlinear_arith)
                requires
                    0 <= a <= 0xffff_ffff,
                    0 <= b <= 0xffff_ffff,
            ;
        }
        if columns as u64 * rows as u64 > leaf_limit(max_cells) {
            Err(MeshError::limit_exceeded("adaptive 2D base grid exceeds the configured cell limit"))
        } else {
            Ok(())
        }
    }

    /// Whether the grid's coordinates fit.
    pub fn fits(self) -> (result: bool)
        ensures
            result == self.wf(),
    {
        if self.columns == 0 || self.rows == 0 || self.max_depth > 30 {
            return false;
        }
        let fine: u64 = power(self.max_depth);
        proof {
            vstd::arithmetic::power2::lemma2_to64();
            if self.max_depth < 30 {
                vstd::arithmetic::power2::lemma_pow2_strictly_increases(self.max_depth as nat, 30);
            }
            let a = self.columns as int;
            let b = self.rows as int;
            let c = fine as int;
            assert(0 <= a * c <= 0xffff_ffff * 0x4000_0000) by (nonlinear_arith)
                requires
                    0 <= a <= 0xffff_ffff,
                    0 <= c <= 0x4000_0000,
            ;
            assert(0 <= b * c <= 0xffff_ffff * 0x4000_0000) by (nonlinear_arith)
                requires
                    0 <= b <= 0xffff_ffff,
                    0 <= c <= 0x4000_0000,
            ;
        }
        self.columns as u64 * fine <= 0x1_0000_0000 && self.rows as u64 * fine <= 0x1_0000_0000
    }

    pub fn fine_scale(self, leaf: Leaf) -> (result: u64)
        requires
            self.wf(),
            self.has(leaf),
        ensures
            result == self.scale(leaf.level),
            0 < result,
    {
        power(self.max_depth - leaf.level)
    }

    /// The leaf's fine cells: `x0 .. x1` by `y0 .. y1`, as `[x0, x1, y0, y1]`.
    pub fn fine_bounds(self, leaf: Leaf) -> (result: [u64; 4])
        requires
            self.wf(),
            self.has(leaf),
        ensures
            result[0] == leaf.x * self.scale(leaf.level),
            result[1] == (leaf.x + 1) * self.scale(leaf.level),
            result[2] == leaf.y * self.scale(leaf.level),
            result[3] == (leaf.y + 1) * self.scale(leaf.level),
            result[0] < result[1] <= self.width(),
            result[2] < result[3] <= self.height(),
    {
        proof {
            self.scale_facts(leaf);
        }
        let scale: u64 = self.fine_scale(leaf);
        let x: u64 = leaf.x as u64;
        let y: u64 = leaf.y as u64;
        [x * scale, (x + 1) * scale, y * scale, (y + 1) * scale]
    }

    /// The lattice points at the leaf's corners, counterclockwise.
    pub open spec fn corner_points(self, leaf: Leaf) -> Seq<Lattice> {
        let scale = self.scale(leaf.level);
        let x0 = (2 * (leaf.x * scale)) as u64;
        let x1 = (2 * ((leaf.x + 1) * scale)) as u64;
        let y0 = (2 * (leaf.y * scale)) as u64;
        let y1 = (2 * ((leaf.y + 1) * scale)) as u64;
        seq![
            Lattice { x: x0, y: y0 },
            Lattice { x: x1, y: y0 },
            Lattice { x: x1, y: y1 },
            Lattice { x: x0, y: y1 },
        ]
    }

    pub fn corners(self, leaf: Leaf) -> (result: [Lattice; 4])
        requires
            self.wf(),
            self.has(leaf),
        ensures
            result@ == self.corner_points(leaf),
            forall|i: int| 0 <= i < 4 ==> (#[trigger] result[i]).x <= 0x2_0000_0000 && result[i].y
                <= 0x2_0000_0000,
    {
        let bounds = self.fine_bounds(leaf);
        let result = [
            Lattice { x: 2 * bounds[0], y: 2 * bounds[2] },
            Lattice { x: 2 * bounds[1], y: 2 * bounds[2] },
            Lattice { x: 2 * bounds[1], y: 2 * bounds[3] },
            Lattice { x: 2 * bounds[0], y: 2 * bounds[3] },
        ];
        assert(result@ =~= self.corner_points(leaf));
        result
    }

    /// The lattice point in the middle of the leaf.
    pub open spec fn center_point(self, leaf: Leaf) -> Lattice {
        let scale = self.scale(leaf.level);
        Lattice {
            x: (leaf.x * scale + (leaf.x + 1) * scale) as u64,
            y: (leaf.y * scale + (leaf.y + 1) * scale) as u64,
        }
    }

    pub fn center(self, leaf: Leaf) -> (result: Lattice)
        requires
            self.wf(),
            self.has(leaf),
        ensures
            result == self.center_point(leaf),
    {
        let bounds = self.fine_bounds(leaf);
        Lattice { x: bounds[0] + bounds[1], y: bounds[2] + bounds[3] }
    }

    /// The level-0 leaves, row by row.
    pub open spec fn roots(self) -> Seq<Leaf> {
        Seq::new(
            (self.columns * self.rows) as nat,
            |i: int|
                Leaf { level: 0, x: (i % self.columns as int) as u32, y: (i / self.columns as int) as u32 },
        )
    }

    pub fn root_leaves(self) -> (result: Vec<Leaf>)
        requires
            self.wf(),
            self.columns * self.rows <= usize::MAX,
        ensures
            result@ == self.roots(),
            forall|i: int| 0 <= i < result.len() ==> self.has(#[trigger] result[i]),
    {
        let mut leaves: Vec<Leaf> = Vec::new();
        let ghost columns = self.columns as int;
        let mut y: u32 = 0;
        proof {
            vstd::arithmetic::power2::lemma2_to64();
        }
        while y < self.rows
            invariant
                self.wf(),
                columns == self.columns,
                pow2(0) == 1,
                y <= self.rows,
                leaves.len() == y * columns,
                forall|i: int|
                    0 <= i < leaves.len() ==> #[trigger] leaves[i] == (Leaf {
                        level: 0,
                        x: (i % columns) as u32,
                        y: (i / columns) as u32,
                    }),
                forall|i: int| 0 <= i < leaves.len() ==> self.has(#[trigger] leaves[i]),
            decreases self.rows - y,
        {
            let mut x: u32 = 0;
            while x < self.columns
                invariant
                    self.wf(),
                    columns == self.columns,
                    pow2(0) == 1,
                    x <= self.columns,
                    y < self.rows,
                    leaves.len() == y * columns + x,
                    forall|i: int|
                        0 <= i < leaves.len() ==> #[trigger] leaves[i] == (Leaf {
                            level: 0,
                            x: (i % columns) as u32,
                            y: (i / columns) as u32,
                        }),
                    forall|i: int| 0 <= i < leaves.len() ==> self.has(#[trigger] leaves[i]),
                decreases self.columns - x,
            {
                proof {
                    let i = y * columns + x;
                    assert(i / columns == y && i % columns == x) by {
                        vstd::arithmetic::div_mod::lemma_fundamental_div_mod_converse(
                            i,
                            columns,
                            y as int,
                            x as int,
                        );
                    }
                }
                proof {
                    let unit = pow2(0) as int;
                    let rows = self.rows as int;
                    assert(columns * unit == columns && rows * unit == rows) by (nonlinear_arith)
                        requires
                            unit == 1,
                    ;
                    assert(self.has(Leaf { level: 0, x, y }));
                }
                leaves.push(Leaf { level: 0, x, y });
                x = x + 1;
            }
            proof {
                assert((y + 1) * columns == y * columns + columns) by (nonlinear_arith);
            }
            y = y + 1;
        }
        proof {
            assert(self.rows * columns == columns * self.rows) by (nonlinear_arith);
            assert(leaves@ =~= self.roots());
        }
        leaves
    }
}

/// A fine cell lies in a leaf exactly where the divided coordinates name it.
pub proof fn covering_leaf(grid: Grid, leaf: Leaf, x: int, y: int)
    requires
        leaf.level <= grid.max_depth,
        0 <= x,
        0 <= y,
    ensures
        grid.covers(leaf, x, y) <==> x / (grid.scale(leaf.level) as int) == leaf.x && y / (grid.scale(
            leaf.level,
        ) as int) == leaf.y,
{
    let scale = grid.scale(leaf.level) as int;
    vstd::arithmetic::power2::lemma_pow2_pos((grid.max_depth - leaf.level) as nat);
    axis_cover(leaf.x as int, scale, x);
    axis_cover(leaf.y as int, scale, y);
}

pub(crate) proof fn axis_cover(a: int, scale: int, x: int)
    requires
        scale > 0,
        0 <= x,
        0 <= a,
    ensures
        (a * scale <= x < (a + 1) * scale) <==> x / scale == a,
{
    vstd::arithmetic::div_mod::lemma_fundamental_div_mod(x, scale);
    let q = x / scale;
    let r = x % scale;
    assert(x == scale * q + r);
    assert(0 <= r < scale);
    if q == a {
        assert(a * scale <= x < (a + 1) * scale) by (nonlinear_arith)
            requires
                x == scale * q + r,
                0 <= r < scale,
                q == a,
        ;
    } else if a * scale <= x < (a + 1) * scale {
        assert(q == a) by (nonlinear_arith)
            requires
                x == scale * q + r,
                0 <= r < scale,
                a * scale <= x,
                x < (a + 1) * scale,
        ;
    }
}

/// The quarters of a leaf split its fine cells: each belongs to exactly one.
pub proof fn children_partition_parent(grid: Grid, leaf: Leaf, x: int, y: int)
    requires
        grid.wf(),
        grid.has(leaf),
        leaf.level < grid.max_depth,
        leaf.divisible(),
    ensures
        forall|i: int| 0 <= i < 4 ==> grid.has(#[trigger] leaf.quarters()[i]),
        grid.covers(leaf, x, y) <==> exists|i: int|
            0 <= i < 4 && grid.covers(#[trigger] leaf.quarters()[i], x, y),
        forall|i: int, j: int|
            0 <= i < 4 && 0 <= j < 4 && grid.covers(#[trigger] leaf.quarters()[i], x, y)
                && grid.covers(#[trigger] leaf.quarters()[j], x, y) ==> i == j,
{
    let quarters = leaf.quarters();
    let half = grid.scale((leaf.level + 1) as u8) as int;
    vstd::arithmetic::power2::lemma_pow2_unfold((grid.max_depth - leaf.level) as nat);
    vstd::arithmetic::power2::lemma_pow2_unfold((leaf.level + 1) as nat);
    assert(grid.scale(leaf.level) == 2 * half);
    let a = leaf.x as int;
    let b = leaf.y as int;
    let p = pow2(leaf.level as nat) as int;
    let columns = grid.columns as int;
    let rows = grid.rows as int;
    assert(2 * a + 1 < columns * (2 * p)) by (nonlinear_arith)
        requires
            a < columns * p,
    ;
    assert(2 * b + 1 < rows * (2 * p)) by (nonlinear_arith)
        requires
            b < rows * p,
    ;
    assert(a * (2 * half) == (2 * a) * half) by (nonlinear_arith);
    assert((a + 1) * (2 * half) == (2 * a + 2) * half) by (nonlinear_arith);
    assert(b * (2 * half) == (2 * b) * half) by (nonlinear_arith);
    assert((b + 1) * (2 * half) == (2 * b + 2) * half) by (nonlinear_arith);
    assert((2 * a + 1) * half == (2 * a) * half + half) by (nonlinear_arith);
    assert((2 * a + 2) * half == (2 * a) * half + 2 * half) by (nonlinear_arith);
    assert((2 * b + 1) * half == (2 * b) * half + half) by (nonlinear_arith);
    assert((2 * b + 2) * half == (2 * b) * half + 2 * half) by (nonlinear_arith);
    vstd::arithmetic::power2::lemma_pow2_pos((grid.max_depth - leaf.level - 1) as nat);
    assert(grid.has(quarters[0]) && grid.has(quarters[1]) && grid.has(quarters[2]) && grid.has(
        quarters[3],
    ));
    if grid.covers(leaf, x, y) {
        let right = x >= (2 * a + 1) * half;
        let top = y >= (2 * b + 1) * half;
        let i: int = if right {
            if top {
                2
            } else {
                1
            }
        } else if top {
            3
        } else {
            0
        };
        assert(grid.covers(quarters[i], x, y));
    }
}

/// The deepest leaf of the set, of a level up to `level`, that holds the fine
/// cell.
pub open spec fn owner_from(grid: Grid, leaves: Set<Leaf>, level: nat, x: int, y: int) -> Option<Leaf>
    decreases level,
{
    let scale = grid.scale(level as u8) as int;
    let leaf = Leaf { level: level as u8, x: (x / scale) as u32, y: (y / scale) as u32 };
    if leaves.contains(leaf) {
        Some(leaf)
    } else if level == 0 {
        None
    } else {
        owner_from(grid, leaves, (level - 1) as nat, x, y)
    }
}

/// The deepest leaf of the set that holds the fine cell.
pub open spec fn owner_of(grid: Grid, leaves: Set<Leaf>, x: int, y: int) -> Option<Leaf> {
    owner_from(grid, leaves, grid.max_depth as nat, x, y)
}

/// The owner of a fine cell is the deepest leaf over it; there is none exactly
/// where no leaf of the set covers the cell.
pub proof fn owner_is_deepest_cover(grid: Grid, leaves: Set<Leaf>, level: nat, x: int, y: int)
    requires
        grid.wf(),
        level <= grid.max_depth,
        0 <= x < grid.width(),
        0 <= y < grid.height(),
    ensures
        match owner_from(grid, leaves, level, x, y) {
            Some(leaf) => leaves.contains(leaf) && leaf.level <= level && grid.covers(leaf, x, y)
                && forall|other: Leaf|
                #![trigger leaves.contains(other)]
                leaves.contains(other) && other.level <= level && grid.covers(other, x, y)
                    ==> other.level <= leaf.level,
            None => forall|other: Leaf|
                #![trigger leaves.contains(other)]
                leaves.contains(other) && other.level <= level ==> !grid.covers(other, x, y),
        },
    decreases level,
{
    let scale = grid.scale(level as u8) as int;
    vstd::arithmetic::power2::lemma_pow2_pos((grid.max_depth - level) as nat);
    let leaf = Leaf { level: level as u8, x: (x / scale) as u32, y: (y / scale) as u32 };
    assert(0 <= x / scale <= x) by (nonlinear_arith)
        requires
            scale >= 1,
            x >= 0,
    ;
    assert(0 <= y / scale <= y) by (nonlinear_arith)
        requires
            scale >= 1,
            y >= 0,
    ;
    covering_leaf(grid, leaf, x, y);
    if leaves.contains(leaf) {
    } else {
        if level > 0 {
            owner_is_deepest_cover(grid, leaves, (level - 1) as nat, x, y);
        }
        assert forall|other: Leaf| #[trigger]
            leaves.contains(other) && other.level == level implies !grid.covers(other, x, y) by {
            covering_leaf(grid, other, x, y);
            if grid.covers(other, x, y) {
                assert(other == leaf);
            }
        }
    }
}

/// A quarter or three quarters of the way from `a` to `b`.
pub open spec fn along(a: int, b: int, upper: bool) -> int {
    if b - a <= 1 {
        a
    } else if upper {
        a + 3 * (b - a) / 4
    } else {
        a + (b - a) / 4
    }
}

/// The leaf that touches a side of `leaf` near the lower or the upper end of
/// the side. Sides count counterclockwise from the bottom.
pub open spec fn neighbor_of(
    grid: Grid,
    leaves: Set<Leaf>,
    leaf: Leaf,
    side: int,
    upper: bool,
) -> Option<Leaf> {
    let scale = grid.scale(leaf.level);
    let x0 = leaf.x * scale;
    let x1 = (leaf.x + 1) * scale;
    let y0 = leaf.y * scale;
    let y1 = (leaf.y + 1) * scale;
    if side == 0 && y0 > 0 {
        owner_of(grid, leaves, along(x0, x1, upper), y0 - 1)
    } else if side == 1 && x1 < grid.width() {
        owner_of(grid, leaves, x1, along(y0, y1, upper))
    } else if side == 2 && y1 < grid.height() {
        owner_of(grid, leaves, along(x0, x1, upper), y1)
    } else if side == 3 && x0 > 0 {
        owner_of(grid, leaves, x0 - 1, along(y0, y1, upper))
    } else {
        None
    }
}

pub open spec fn deeper(neighbor: Option<Leaf>, level: int) -> bool {
    neighbor matches Some(leaf) && leaf.level > level
}

/// A neighbour on that side is smaller than the leaf.
pub open spec fn finer_neighbor(grid: Grid, leaves: Set<Leaf>, leaf: Leaf, side: int) -> bool {
    deeper(neighbor_of(grid, leaves, leaf, side, false), leaf.level as int) || deeper(
        neighbor_of(grid, leaves, leaf, side, true),
        leaf.level as int,
    )
}

/// A neighbour on that side is smaller by more than one level.
pub open spec fn too_fine_neighbor(grid: Grid, leaves: Set<Leaf>, leaf: Leaf, side: int) -> bool {
    deeper(neighbor_of(grid, leaves, leaf, side, false), leaf.level + 1) || deeper(
        neighbor_of(grid, leaves, leaf, side, true),
        leaf.level + 1,
    )
}

/// Some neighbour of the leaf is smaller by more than one level.
pub open spec fn must_split(grid: Grid, leaves: Set<Leaf>, leaf: Leaf) -> bool {
    too_fine_neighbor(grid, leaves, leaf, 0) || too_fine_neighbor(grid, leaves, leaf, 1)
        || too_fine_neighbor(grid, leaves, leaf, 2) || too_fine_neighbor(grid, leaves, leaf, 3)
}

/// Every leaf is one of the grid's squares.
pub open spec fn all_in_grid(grid: Grid, leaves: Seq<Leaf>) -> bool {
    forall|i: int| 0 <= i < leaves.len() ==> grid.has(#[trigger] leaves[i])
}

/// No leaf has a neighbour more than one level deeper.
pub open spec fn balanced(grid: Grid, leaves: Seq<Leaf>) -> bool {
    forall|i: int|
        0 <= i < leaves.len() ==> !must_split(grid, leaves.to_set(), #[trigger] leaves[i])
}

/// The leaves of a grid, by position.
pub struct LeafIndex {
    pub grid: Grid,
    pub leaves: SortedSet<Leaf>,
}

impl LeafIndex {
    pub open spec fn wf(self) -> bool {
        self.grid.wf() && self.leaves.wf()
    }

    pub fn new(grid: Grid, leaves: &Vec<Leaf>) -> (result: LeafIndex)
        requires
            grid.wf(),
        ensures
            result.wf(),
            result.grid == grid,
            result.leaves@ == leaves@.to_set(),
    {
        let mut set: SortedSet<Leaf> = SortedSet::new();
        let mut i: usize = 0;
        proof {
            assert(leaves@.take(0).to_set() =~= Set::<Leaf>::empty());
        }
        while i < leaves.len()
            invariant
                i <= leaves.len(),
                set.wf(),
                set@ == leaves@.take(i as int).to_set(),
            decreases leaves.len() - i,
        {
            proof {
                let before = leaves@.take(i as int);
                assert(leaves@.take(i as int + 1) =~= before.push(leaves[i as int]));
                before.lemma_push_to_set_commute(leaves[i as int]);
            }
            set.insert(leaves[i]);
            i = i + 1;
        }
        assert(leaves@.take(i as int) =~= leaves@);
        LeafIndex { grid, leaves: set }
    }

    /// The deepest leaf over the fine cell.
    pub fn owner(&self, x: u64, y: u64) -> (result: Option<Leaf>)
        requires
            self.wf(),
            x < self.grid.width(),
            y < self.grid.height(),
        ensures
            result == owner_of(self.grid, self.leaves@, x as int, y as int),
    {
        let mut level: u8 = self.grid.max_depth;
        loop
            invariant
                self.wf(),
                level <= self.grid.max_depth,
                x < self.grid.width(),
                y < self.grid.height(),
                owner_of(self.grid, self.leaves@, x as int, y as int) == owner_from(
                    self.grid,
                    self.leaves@,
                    level as nat,
                    x as int,
                    y as int,
                ),
            decreases level,
        {
            let scale: u64 = power(self.grid.max_depth - level);
            proof {
                assert(0 <= x / scale <= x) by (nonlinear_arith)
                    requires
                        scale >= 1,
                ;
                assert(0 <= y / scale <= y) by (nonlinear_arith)
                    requires
                        scale >= 1,
                ;
            }
            let leaf = Leaf { level, x: (x / scale) as u32, y: (y / scale) as u32 };
            if self.leaves.contains(&leaf) {
                return Some(leaf);
            }
            if level == 0 {
                return None;
            }
            level = level - 1;
        }
    }

    fn fraction(a: u64, b: u64, upper: bool) -> (result: u64)
        requires
            a < b <= 0x1_0000_0000,
        ensures
            result == along(a as int, b as int, upper),
            a <= result < b,
    {
        if b - a <= 1 {
            a
        } else if upper {
            a + 3 * (b - a) / 4
        } else {
            a + (b - a) / 4
        }
    }

    /// The leaves that touch a side near its lower and its upper end.
    pub fn neighbors(&self, leaf: Leaf, side: usize) -> (result: [Option<Leaf>; 2])
        requires
            self.wf(),
            self.grid.has(leaf),
        ensures
            result[0] == neighbor_of(self.grid, self.leaves@, leaf, side as int, false),
            result[1] == neighbor_of(self.grid, self.leaves@, leaf, side as int, true),
    {
        let bounds = self.grid.fine_bounds(leaf);
        let x0: u64 = bounds[0];
        let x1: u64 = bounds[1];
        let y0: u64 = bounds[2];
        let y1: u64 = bounds[3];
        let fine: u64 = power(self.grid.max_depth);
        let width: u64 = self.grid.columns as u64 * fine;
        let height: u64 = self.grid.rows as u64 * fine;
        if side == 0 && y0 > 0 {
            [
                self.owner(Self::fraction(x0, x1, false), y0 - 1),
                self.owner(Self::fraction(x0, x1, true), y0 - 1),
            ]
        } else if side == 1 && x1 < width {
            [
                self.owner(x1, Self::fraction(y0, y1, false)),
                self.owner(x1, Self::fraction(y0, y1, true)),
            ]
        } else if side == 2 && y1 < height {
            [
                self.owner(Self::fraction(x0, x1, false), y1),
                self.owner(Self::fraction(x0, x1, true), y1),
            ]
        } else if side == 3 && x0 > 0 {
            [
                self.owner(x0 - 1, Self::fraction(y0, y1, false)),
                self.owner(x0 - 1, Self::fraction(y0, y1, true)),
            ]
        } else {
            [None, None]
        }
    }

    fn some_deeper(&self, leaf: Leaf, side: usize, level: u8) -> (result: bool)
        requires
            self.wf(),
            self.grid.has(leaf),
        ensures
            result == (deeper(
                neighbor_of(self.grid, self.leaves@, leaf, side as int, false),
                level as int,
            ) || deeper(
                neighbor_of(self.grid, self.leaves@, leaf, side as int, true),
                level as int,
            )),
    {
        let pair = self.neighbors(leaf, side);
        let first = match pair[0] {
            Some(neighbor) => neighbor.level > level,
            None => false,
        };
        let second = match pair[1] {
            Some(neighbor) => neighbor.level > level,
            None => false,
        };
        first || second
    }

    pub fn has_finer_neighbor(&self, leaf: Leaf, side: usize) -> (result: bool)
        requires
            self.wf(),
            self.grid.has(leaf),
        ensures
            result == finer_neighbor(self.grid, self.leaves@, leaf, side as int),
    {
        self.some_deeper(leaf, side, leaf.level)
    }

    /// Whether some neighbour is smaller by more than one level.
    pub fn needs_split(&self, leaf: Leaf) -> (result: bool)
        requires
            self.wf(),
            self.grid.has(leaf),
        ensures
            result == must_split(self.grid, self.leaves@, leaf),
    {
        let level: u8 = leaf.level + 1;
        self.some_deeper(leaf, 0, level) || self.some_deeper(leaf, 1, level) || self.some_deeper(
            leaf,
            2,
            level,
        ) || self.some_deeper(leaf, 3, level)
    }

    /// The corners of the leaf, with the middle of each side that meets
    /// smaller leaves, counterclockwise.
    pub open spec fn ring_of(self, leaf: Leaf) -> Seq<Lattice> {
        let corners = self.grid.corner_points(leaf);
        let with = |side: int, next: int|
            if finer_neighbor(self.grid, self.leaves@, leaf, side) {
                seq![corners[side], middle(corners[side], corners[next])]
            } else {
                seq![corners[side]]
            };
        with(0, 1) + with(1, 2) + with(2, 3) + with(3, 0)
    }

    pub fn ring(&self, leaf: Leaf) -> (result: Vec<Lattice>)
        requires
            self.wf(),
            self.grid.has(leaf),
        ensures
            result@ == self.ring_of(leaf),
            4 <= result.len() <= 8,
    {
        let corners = self.grid.corners(leaf);
        let mut ring: Vec<Lattice> = Vec::new();
        ring.push(corners[0]);
        if self.has_finer_neighbor(leaf, 0) {
            ring.push(midpoint(corners[0], corners[1]));
        }
        ring.push(corners[1]);
        if self.has_finer_neighbor(leaf, 1) {
            ring.push(midpoint(corners[1], corners[2]));
        }
        ring.push(corners[2]);
        if self.has_finer_neighbor(leaf, 2) {
            ring.push(midpoint(corners[2], corners[3]));
        }
        ring.push(corners[3]);
        if self.has_finer_neighbor(leaf, 3) {
            ring.push(midpoint(corners[3], corners[0]));
        }
        assert(ring@ =~= self.ring_of(leaf));
        ring
    }

    /// The triangles that the leaf is cut into: one from the centre to each
    /// edge of the ring.
    pub fn fan(&self, leaf: Leaf) -> (result: Vec<[Lattice; 3]>)
        requires
            self.wf(),
            self.grid.has(leaf),
        ensures
            result.len() == self.ring_of(leaf).len(),
            forall|i: int|
                0 <= i < result.len() ==> (#[trigger] result[i])@ == seq![
                    self.grid.center_point(leaf),
                    self.ring_of(leaf)[i],
                    self.ring_of(leaf)[(i + 1) % (self.ring_of(leaf).len() as int)],
                ],
    {
        let ring = self.ring(leaf);
        let center = self.grid.center(leaf);
        let mut fan: Vec<[Lattice; 3]> = Vec::new();
        let mut edge: usize = 0;
        while edge < ring.len()
            invariant
                edge <= ring.len() <= 8,
                ring@ == self.ring_of(leaf),
                center == self.grid.center_point(leaf),
                fan.len() == edge,
                forall|i: int|
                    0 <= i < fan.len() ==> (#[trigger] fan[i])@ == seq![
                        center,
                        ring@[i],
                        ring@[(i + 1) % (ring@.len() as int)],
                    ],
            decreases ring.len() - edge,
        {
            let triangle = [center, ring[edge], ring[(edge + 1) % ring.len()]];
            assert(triangle@ =~= seq![
                center,
                ring@[edge as int],
                ring@[(edge + 1) % (ring@.len() as int)],
            ]);
            fan.push(triangle);
            edge = edge + 1;
        }
        fan
    }
}

/// Four times the cell limit, capped at the largest count.
pub open spec fn leaf_budget(max_cells: u64) -> int {
    if 4 * max_cells > u64::MAX {
        u64::MAX as int
    } else {
        4 * max_cells
    }
}

pub fn leaf_limit(max_cells: u64) -> (result: u64)
    ensures
        result == leaf_budget(max_cells),
{
    if max_cells > u64::MAX / 4 {
        u64::MAX
    } else {
        max_cells * 4
    }
}

/// The leaves with each one of the set replaced by its quarters.
pub open spec fn refined(leaves: Seq<Leaf>, split: Set<Leaf>) -> Seq<Leaf>
    decreases leaves.len(),
{
    if leaves.len() == 0 {
        Seq::empty()
    } else {
        let head = refined(leaves.drop_last(), split);
        if split.contains(leaves.last()) {
            head + leaves.last().quarters()
        } else {
            head.push(leaves.last())
        }
    }
}

/// Replaces each leaf of the set by its quarters and sorts the leaves. Where
/// that makes too many leaves, the list is emptied and the error returned.
pub fn refine_leaves(max_cells: u64, leaves: &mut Vec<Leaf>, split: &SortedSet<Leaf>) -> (result:
    MeshResult<()>)
    requires
        split.wf(),
        forall|leaf: Leaf| #[trigger] split@.contains(leaf) ==> leaf.divisible(),
    ensures
        refined(old(leaves)@, split@).len() > leaf_budget(max_cells) ==> fails_limit(
            result,
            "adaptive 2D refinement exceeded the configured cell limit"@,
        ) && final(leaves)@.len() == 0,
        refined(old(leaves)@, split@).len() <= leaf_budget(max_cells) ==> result is Ok && ordered(
            final(leaves)@,
        ) && final(leaves)@.to_multiset() == refined(old(leaves)@, split@).to_multiset(),
{
    let mut list: Vec<Leaf> = Vec::new();
    let mut i: usize = 0;
    let ghost all = leaves@;
    while i < leaves.len()
        invariant
            i <= leaves.len(),
            leaves@ == all,
            split.wf(),
            forall|leaf: Leaf| #[trigger] split@.contains(leaf) ==> leaf.divisible(),
            list@ == refined(all.take(i as int), split@),
        decreases leaves.len() - i,
    {
        let leaf = leaves[i];
        assert(all.take(i as int + 1).drop_last() =~= all.take(i as int));
        if split.contains(&leaf) {
            let quarters = leaf.children();
            list.push(quarters[0]);
            list.push(quarters[1]);
            list.push(quarters[2]);
            list.push(quarters[3]);
            assert(list@ =~= refined(all.take(i as int), split@) + leaf.quarters());
        } else {
            list.push(leaf);
        }
        i = i + 1;
    }
    assert(all.take(i as int) =~= all);
    if list.len() as u64 > leaf_limit(max_cells) {
        leaves.clear();
        return Err(
            MeshError::limit_exceeded("adaptive 2D refinement exceeded the configured cell limit"),
        );
    }
    sort_keys(&mut list);
    *leaves = list;
    Ok(())
}

/// Some leaf of the list holds the fine cell.
pub open spec fn covered(grid: Grid, leaves: Seq<Leaf>, x: int, y: int) -> bool {
    exists|i: int| 0 <= i < leaves.len() && grid.covers(#[trigger] leaves[i], x, y)
}

/// No fine cell lies in two places of the list.
pub open spec fn disjoint(grid: Grid, leaves: Seq<Leaf>) -> bool {
    forall|i: int, j: int, x: int, y: int|
        0 <= i < leaves.len() && 0 <= j < leaves.len() && #[trigger] grid.covers(leaves[i], x, y)
            && #[trigger] grid.covers(leaves[j], x, y) ==> i == j
}

/// Above the deepest level a leaf of the grid can be quartered.
pub proof fn inner_leaf_divides(grid: Grid, leaf: Leaf)
    requires
        grid.wf(),
        grid.has(leaf),
        leaf.level < grid.max_depth,
    ensures
        leaf.divisible(),
{
    let p = pow2(leaf.level as nat) as int;
    let q = pow2((leaf.level + 1) as nat) as int;
    let m = pow2(grid.max_depth as nat) as int;
    vstd::arithmetic::power2::lemma_pow2_unfold((leaf.level + 1) as nat);
    if leaf.level + 1 < grid.max_depth {
        vstd::arithmetic::power2::lemma_pow2_strictly_increases(
            (leaf.level + 1) as nat,
            grid.max_depth as nat,
        );
    }
    let columns = grid.columns as int;
    let rows = grid.rows as int;
    let x = leaf.x as int;
    let y = leaf.y as int;
    assert(2 * x + 1 < columns * m) by (nonlinear_arith)
        requires
            x < columns * p,
            q == 2 * p,
            q <= m,
            columns >= 0,
    ;
    assert(2 * y + 1 < rows * m) by (nonlinear_arith)
        requires
            y < rows * p,
            q == 2 * p,
            q <= m,
            rows >= 0,
    ;
}

/// Quartering leaves keeps them in the grid, keeps the covered cells, and
/// keeps distinct leaves apart.
pub proof fn refinement_keeps_cover(grid: Grid, leaves: Seq<Leaf>, split: Set<Leaf>)
    requires
        grid.wf(),
        all_in_grid(grid, leaves),
        forall|leaf: Leaf| #[trigger] split.contains(leaf) ==> leaf.level < grid.max_depth,
    ensures
        all_in_grid(grid, refined(leaves, split)),
        forall|x: int, y: int| #[trigger]
            covered(grid, refined(leaves, split), x, y) == covered(grid, leaves, x, y),
        disjoint(grid, leaves) ==> disjoint(grid, refined(leaves, split)),
        refined(leaves, split).len() >= leaves.len(),
    decreases leaves.len(),
{
    let after = refined(leaves, split);
    if leaves.len() == 0 {
        assert forall|x: int, y: int| #[trigger]
            covered(grid, after, x, y) == covered(grid, leaves, x, y) by {}
    } else {
        let front = leaves.drop_last();
        let last = leaves.last();
        let head = refined(front, split);
        assert(all_in_grid(grid, front));
        refinement_keeps_cover(grid, front, split);
        assert(grid.has(leaves[leaves.len() - 1]));
        let tail = if split.contains(last) {
            last.quarters()
        } else {
            seq![last]
        };
        assert(after =~= head + tail);
        if split.contains(last) {
            inner_leaf_divides(grid, last);
        }
        assert forall|i: int| 0 <= i < after.len() implies grid.has(#[trigger] after[i]) by {
            if i >= head.len() {
                assert(after[i] == tail[i - head.len()]);
                if split.contains(last) {
                    children_partition_parent(grid, last, 0, 0);
                }
            }
        }
        assert forall|x: int, y: int| #[trigger]
            covered(grid, after, x, y) == covered(grid, leaves, x, y) by {
            tail_cover(grid, last, split, tail, x, y);
            if covered(grid, after, x, y) {
                let i = choose|i: int| 0 <= i < after.len() && grid.covers(#[trigger] after[i], x, y);
                if i < head.len() {
                    assert(grid.covers(head[i], x, y));
                    assert(covered(grid, head, x, y));
                    assert(covered(grid, front, x, y));
                    let j = choose|j: int|
                        0 <= j < front.len() && grid.covers(#[trigger] front[j], x, y);
                    assert(grid.covers(leaves[j], x, y));
                } else {
                    assert(grid.covers(tail[i - head.len()], x, y));
                    assert(grid.covers(leaves[leaves.len() - 1], x, y));
                }
            }
            if covered(grid, leaves, x, y) {
                let j = choose|j: int|
                    0 <= j < leaves.len() && grid.covers(#[trigger] leaves[j], x, y);
                if j < front.len() {
                    assert(grid.covers(front[j], x, y));
                    assert(covered(grid, front, x, y));
                    assert(covered(grid, head, x, y));
                    let i = choose|i: int|
                        0 <= i < head.len() && grid.covers(#[trigger] head[i], x, y);
                    assert(grid.covers(after[i], x, y));
                } else {
                    let i = choose|i: int|
                        0 <= i < tail.len() && grid.covers(#[trigger] tail[i], x, y);
                    assert(grid.covers(after[head.len() + i], x, y));
                }
            }
        }
        if disjoint(grid, leaves) {
            assert(disjoint(grid, front)) by {
                assert forall|i: int, j: int, x: int, y: int|
                    0 <= i < front.len() && 0 <= j < front.len() && #[trigger] grid.covers(
                        front[i],
                        x,
                        y,
                    ) && #[trigger] grid.covers(front[j], x, y) implies i == j by {
                    assert(grid.covers(leaves[i], x, y));
                    assert(grid.covers(leaves[j], x, y));
                }
            }
            assert forall|i: int, j: int, x: int, y: int|
                0 <= i < after.len() && 0 <= j < after.len() && #[trigger] grid.covers(
                    after[i],
                    x,
                    y,
                ) && #[trigger] grid.covers(after[j], x, y) implies i == j by {
                tail_cover(grid, last, split, tail, x, y);
                let n = head.len();
                if i < n && j < n {
                    assert(grid.covers(head[i], x, y));
                    assert(grid.covers(head[j], x, y));
                } else if i >= n && j >= n {
                    assert(grid.covers(tail[i - n], x, y));
                    assert(grid.covers(tail[j - n], x, y));
                } else {
                    let low = if i < n {
                        i
                    } else {
                        j
                    };
                    let high = if i < n {
                        j
                    } else {
                        i
                    };
                    assert(grid.covers(head[low], x, y));
                    assert(covered(grid, head, x, y));
                    assert(covered(grid, front, x, y));
                    let k = choose|k: int|
                        0 <= k < front.len() && grid.covers(#[trigger] front[k], x, y);
                    assert(grid.covers(leaves[k], x, y));
                    assert(grid.covers(tail[high - n], x, y));
                    assert(grid.covers(leaves[leaves.len() - 1], x, y));
                }
            }
        }
    }
}

proof fn tail_cover(grid: Grid, last: Leaf, split: Set<Leaf>, tail: Seq<Leaf>, x: int, y: int)
    requires
        grid.wf(),
        grid.has(last),
        split.contains(last) ==> last.level < grid.max_depth,
        tail == (if split.contains(last) {
            last.quarters()
        } else {
            seq![last]
        }),
    ensures
        grid.covers(last, x, y) <==> exists|i: int|
            0 <= i < tail.len() && grid.covers(#[trigger] tail[i], x, y),
        forall|i: int, j: int|
            0 <= i < tail.len() && 0 <= j < tail.len() && grid.covers(#[trigger] tail[i], x, y)
                && grid.covers(#[trigger] tail[j], x, y) ==> i == j,
{
    if split.contains(last) {
        inner_leaf_divides(grid, last);
        children_partition_parent(grid, last, x, y);
    } else {
        assert(tail[0] == last);
    }
}

proof fn refinement_grows(leaves: Seq<Leaf>, split: Set<Leaf>)
    ensures
        refined(leaves, split).len() >= leaves.len(),
        (exists|i: int| 0 <= i < leaves.len() && split.contains(#[trigger] leaves[i])) ==> refined(
            leaves,
            split,
        ).len() > leaves.len(),
    decreases leaves.len(),
{
    if leaves.len() > 0 {
        let front = leaves.drop_last();
        refinement_grows(front, split);
        if exists|i: int| 0 <= i < leaves.len() && split.contains(#[trigger] leaves[i]) {
            let i = choose|i: int| 0 <= i < leaves.len() && split.contains(#[trigger] leaves[i]);
            if i < front.len() {
                assert(split.contains(front[i]));
            }
        }
    }
}

/// A rearrangement covers the same cells.
proof fn rearrangement_keeps_cover(grid: Grid, a: Seq<Leaf>, b: Seq<Leaf>)
    requires
        a.to_multiset() == b.to_multiset(),
    ensures
        all_in_grid(grid, a) ==> all_in_grid(grid, b),
        forall|x: int, y: int| covered(grid, a, x, y) == #[trigger] covered(grid, b, x, y),
        a.to_set() == b.to_set(),
{
    rearranged(a, b);
    assert(a.to_set() =~= b.to_set()) by {
        assert forall|k: Leaf| a.to_set().contains(k) == b.to_set().contains(k) by {
            assert(a.contains(k) == b.contains(k));
        }
    }
    if all_in_grid(grid, a) {
        assert forall|i: int| 0 <= i < b.len() implies grid.has(#[trigger] b[i]) by {
            assert(b.contains(b[i]));
            assert(a.contains(b[i]));
            let j = a.index_of(b[i]);
            assert(grid.has(a[j]));
        }
    }
    assert forall|x: int, y: int| covered(grid, a, x, y) == #[trigger] covered(grid, b, x, y) by {
        if covered(grid, a, x, y) {
            let i = choose|i: int| 0 <= i < a.len() && grid.covers(#[trigger] a[i], x, y);
            assert(a.contains(a[i]));
            assert(b.contains(a[i]));
            let j = b.index_of(a[i]);
            assert(grid.covers(b[j], x, y));
        }
        if covered(grid, b, x, y) {
            let i = choose|i: int| 0 <= i < b.len() && grid.covers(#[trigger] b[i], x, y);
            assert(b.contains(b[i]));
            assert(a.contains(b[i]));
            let j = a.index_of(b[i]);
            assert(grid.covers(a[j], x, y));
        }
    }
}

/// The leaves that must be split for balance.
pub open spec fn unbalanced(grid: Grid, leaves: Seq<Leaf>) -> Set<Leaf> {
    Set::new(|leaf: Leaf| leaves.contains(leaf) && must_split(grid, leaves.to_set(), leaf))
}

proof fn owner_level(grid: Grid, leaves: Set<Leaf>, level: nat, x: int, y: int)
    requires
        level <= 255,
    ensures
        owner_from(grid, leaves, level, x, y) matches Some(leaf) ==> leaf.level <= level,
    decreases level,
{
    if level > 0 {
        owner_level(grid, leaves, (level - 1) as nat, x, y);
    }
}

proof fn unbalanced_leaf_is_shallow(grid: Grid, leaves: Set<Leaf>, leaf: Leaf)
    requires
        must_split(grid, leaves, leaf),
    ensures
        leaf.level < grid.max_depth,
{
    let side: int = if too_fine_neighbor(grid, leaves, leaf, 0) {
        0
    } else if too_fine_neighbor(grid, leaves, leaf, 1) {
        1
    } else if too_fine_neighbor(grid, leaves, leaf, 2) {
        2
    } else {
        3
    };
    let upper = !deeper(neighbor_of(grid, leaves, leaf, side, false), leaf.level + 1);
    let scale = grid.scale(leaf.level);
    let x0 = leaf.x * scale;
    let x1 = (leaf.x + 1) * scale;
    let y0 = leaf.y * scale;
    let y1 = (leaf.y + 1) * scale;
    let d = grid.max_depth as nat;
    owner_level(grid, leaves, d, along(x0, x1, upper), y0 - 1);
    owner_level(grid, leaves, d, x1, along(y0, y1, upper));
    owner_level(grid, leaves, d, along(x0, x1, upper), y1);
    owner_level(grid, leaves, d, x0 - 1, along(y0, y1, upper));
}

/// The leaves that must be split for balance, unless the job is cancelled.
fn unbalanced_leaves(control: &JobControl, grid: Grid, leaves: &Vec<Leaf>) -> (result: MeshResult<
    SortedSet<Leaf>,
>)
    requires
        grid.wf(),
        all_in_grid(grid, leaves@),
    ensures
        match result {
            Ok(split) => split.wf() && split@ == unbalanced(grid, leaves@),
            Err(error) => error is Cancelled,
        },
{
    let index = LeafIndex::new(grid, leaves);
    let mut split: SortedSet<Leaf> = SortedSet::new();
    let mut i: usize = 0;
    while i < leaves.len()
        invariant
            i <= leaves.len(),
            grid.wf(),
            all_in_grid(grid, leaves@),
            index.wf(),
            index.grid == grid,
            index.leaves@ == leaves@.to_set(),
            split.wf(),
            forall|leaf: Leaf| #[trigger]
                split@.contains(leaf) <==> leaves@.take(i as int).contains(leaf) && must_split(
                    grid,
                    leaves@.to_set(),
                    leaf,
                ),
        decreases leaves.len() - i,
    {
        if i % 256 == 0 {
            control.check()?;
        }
        let leaf = leaves[i];
        let ghost before = split@;
        if index.needs_split(leaf) {
            split.insert(leaf);
        }
        proof {
            let old_take = leaves@.take(i as int);
            let new_take = leaves@.take(i as int + 1);
            assert(new_take =~= old_take.push(leaf));
            assert forall|k: Leaf| #[trigger]
                split@.contains(k) <==> new_take.contains(k) && must_split(
                    grid,
                    leaves@.to_set(),
                    k,
                ) by {
                if new_take.contains(k) && k != leaf {
                    let j = new_take.index_of(k);
                    assert(old_take[j] == k);
                }
                if old_take.contains(k) {
                    let j = old_take.index_of(k);
                    assert(new_take[j] == k);
                }
                assert(new_take[i as int] == leaf);
                assert(before.contains(k) <==> old_take.contains(k) && must_split(
                    grid,
                    leaves@.to_set(),
                    k,
                ));
            }
        }
        i = i + 1;
    }
    assert(leaves@.take(i as int) =~= leaves@);
    assert(split@ =~= unbalanced(grid, leaves@));
    Ok(split)
}

/// Splits leaves until no neighbour of a leaf is more than one level deeper.
/// The covered cells stay the same.
pub fn balance(control: &JobControl, max_cells: u64, grid: Grid, leaves: &mut Vec<Leaf>) -> (result:
    MeshResult<()>)
    requires
        grid.wf(),
        all_in_grid(grid, old(leaves)@),
    ensures
        match result {
            Ok(()) => {
                &&& balanced(grid, final(leaves)@)
                &&& all_in_grid(grid, final(leaves)@)
                &&& forall|x: int, y: int| #[trigger]
                    covered(grid, final(leaves)@, x, y) == covered(grid, old(leaves)@, x, y)
                &&& balanced(grid, old(leaves)@) ==> final(leaves)@ == old(leaves)@
            },
            Err(error) => error is Cancelled || fails_limit(
                result,
                "adaptive 2D refinement exceeded the configured cell limit"@,
            ),
        },
{
    let ghost start = leaves@;
    let ghost budget = leaf_budget(max_cells);
    loop
        invariant
            grid.wf(),
            start == old(leaves)@,
            budget == leaf_budget(max_cells),
            all_in_grid(grid, leaves@),
            forall|x: int, y: int| #[trigger]
                covered(grid, leaves@, x, y) == covered(grid, start, x, y),
            balanced(grid, start) ==> leaves@ == start,
        decreases budget - leaves.len(),
    {
        control.check()?;
        let split = unbalanced_leaves(control, grid, leaves)?;
        if split.items.len() == 0 {
            proof {
                assert forall|i: int| 0 <= i < leaves.len() implies !must_split(
                    grid,
                    leaves@.to_set(),
                    #[trigger] leaves@[i],
                ) by {
                    if must_split(grid, leaves@.to_set(), leaves@[i]) {
                        assert(leaves@.contains(leaves@[i]));
                        assert(split@.contains(leaves@[i]));
                    }
                }
            }
            return Ok(());
        }
        let ghost before = leaves@;
        proof {
            assert forall|leaf: Leaf| #[trigger] split@.contains(leaf) implies leaf.level
                < grid.max_depth && leaf.divisible() by {
                unbalanced_leaf_is_shallow(grid, before.to_set(), leaf);
                let j = before.index_of(leaf);
                assert(grid.has(before[j]));
                inner_leaf_divides(grid, leaf);
            }
            refinement_keeps_cover(grid, before, split@);
            refinement_grows(before, split@);
            let first = split.items@[0];
            assert(split@.contains(first));
            let j = before.index_of(first);
            assert(split@.contains(before[j]));
            assert(must_split(grid, before.to_set(), before[j]));
        }
        refine_leaves(max_cells, leaves, &split)?;
        proof {
            rearrangement_keeps_cover(grid, refined(before, split@), leaves@);
            rearranged(refined(before, split@), leaves@);
        }
    }
}

/// What nine samples of the distance field tell of a leaf.
#[derive(Debug, Clone, Copy, PartialEq, Eq, Structural)]
pub struct LeafClass {
    pub negative: usize,
    pub positive: usize,
    pub on_boundary: usize,
    pub certified_inside: bool,
    pub certified_outside: bool,
}

impl LeafClass {
    /// The samples lie on both sides of the boundary, or on it.
    pub open spec fn mixed(self) -> bool {
        (self.negative > 0 && self.positive > 0) || self.on_boundary > 0
    }

    pub fn is_mixed(self) -> (result: bool)
        ensures
            result == self.mixed(),
    {
        (self.negative > 0 && self.positive > 0) || self.on_boundary > 0
    }

    /// Nothing of the leaf can lie inside the domain.
    pub open spec fn outside(self) -> bool {
        self.certified_outside && self.negative == 0 && self.on_boundary == 0
    }
}

/// How many of the first `count` samples are below `-tolerance`.
pub open spec fn count_below(samples: Seq<Real>, tolerance: Real, count: int) -> int
    decreases count,
{
    if count <= 0 {
        0
    } else {
        count_below(samples, tolerance, count - 1) + if samples[count - 1].lt(tolerance.opposite()) {
            1int
        } else {
            0int
        }
    }
}

/// How many of the first `count` samples are above the tolerance.
pub open spec fn count_above(samples: Seq<Real>, tolerance: Real, count: int) -> int
    decreases count,
{
    if count <= 0 {
        0
    } else {
        count_above(samples, tolerance, count - 1) + if tolerance.lt(samples[count - 1]) {
            1int
        } else {
            0int
        }
    }
}

/// Sorts samples of the distance field by their side of the boundary. `center`
/// is the sample at the leaf's centre and `reach` the radius of the leaf plus
/// the tolerance.
pub fn classify(samples: &Vec<Real>, center: Real, tolerance: Real, reach: Real) -> (result: LeafClass)
    requires
        tolerance.finite(),
        tolerance.rank() >= 0,
    ensures
        result.negative == count_below(samples@, tolerance, samples@.len() as int),
        result.positive == count_above(samples@, tolerance, samples@.len() as int),
        result.on_boundary == samples@.len() - result.negative - result.positive,
        result.certified_inside == (center.rank() < 0 && !center.nan() && reach.lt(
            center.opposite(),
        )),
        result.certified_outside == (center.rank() > 0 && !center.nan() && reach.lt(center)),
{
    let mut negative: usize = 0;
    let mut positive: usize = 0;
    let low = tolerance.negated();
    let mut i: usize = 0;
    while i < samples.len()
        invariant
            i <= samples.len(),
            low == tolerance.opposite(),
            low.rank() == -tolerance.rank(),
            tolerance.finite(),
            tolerance.rank() >= 0,
            negative == count_below(samples@, tolerance, i as int),
            positive == count_above(samples@, tolerance, i as int),
            negative + positive <= i,
        decreases samples.len() - i,
    {
        if samples[i].less(low) {
            negative = negative + 1;
        } else if tolerance.less(samples[i]) {
            positive = positive + 1;
        }
        i = i + 1;
    }
    let zero = Real::zero();
    LeafClass {
        negative,
        positive,
        on_boundary: samples.len() - negative - positive,
        certified_inside: center.less(zero) && reach.less(center.negated()),
        certified_outside: zero.less(center) && reach.less(center),
    }
}

/// Whether a leaf above the deepest level is quartered: it is larger than the
/// size limit, or mixed and larger than the geometry limit or too curved, or
/// uniform without a certificate.
pub open spec fn wants_split(
    class: LeafClass,
    size: Real,
    size_limit: Real,
    geometry_limit: Real,
    curved: bool,
) -> bool {
    ||| size_limit.lt(size)
    ||| class.mixed() && (geometry_limit.lt(size) || curved)
    ||| !class.mixed() && !class.certified_inside && !class.certified_outside
}

pub fn split_wanted(
    class: LeafClass,
    size: Real,
    size_limit: Real,
    geometry_limit: Real,
    curved: bool,
) -> (result: bool)
    ensures
        result == wants_split(class, size, size_limit, geometry_limit, curved),
{
    let mixed = class.is_mixed();
    let unresolved_uniform = !mixed && !class.certified_inside && !class.certified_outside;
    size_limit.less(size) || (mixed && (geometry_limit.less(size) || curved)) || unresolved_uniform
}

/// The search for the leaves that touch the domain.
pub struct Discovery {
    pub grid: Grid,
    pub pending: Vec<Leaf>,
    pub leaves: Vec<Leaf>,
}

impl Discovery {
    pub open spec fn wf(self) -> bool {
        self.grid.wf() && all_in_grid(self.grid, self.pending@) && all_in_grid(
            self.grid,
            self.leaves@,
        )
    }

    /// Starts with every root leaf pending, the first one on top.
    pub fn new(grid: Grid) -> (result: Discovery)
        requires
            grid.wf(),
            grid.columns * grid.rows <= usize::MAX,
        ensures
            result.wf(),
            result.grid == grid,
            result.pending@ == grid.roots().reverse(),
            result.leaves@.len() == 0,
    {
        let roots = grid.root_leaves();
        let mut pending: Vec<Leaf> = Vec::new();
        let mut i: usize = roots.len();
        while i > 0
            invariant
                i <= roots.len(),
                roots@ == grid.roots(),
                forall|k: int| 0 <= k < roots.len() ==> grid.has(#[trigger] roots[k]),
                pending.len() == roots.len() - i,
                forall|k: int|
                    0 <= k < pending.len() ==> #[trigger] pending[k] == roots[roots.len() - 1 - k],
            decreases i,
        {
            i = i - 1;
            pending.push(roots[i]);
        }
        assert(pending@ =~= grid.roots().reverse());
        Discovery { grid, pending, leaves: Vec::new() }
    }

    /// The next leaf to look at.
    pub fn next(&mut self) -> (result: Option<Leaf>)
        requires
            old(self).wf(),
        ensures
            final(self).wf(),
            final(self).grid == old(self).grid,
            final(self).leaves@ == old(self).leaves@,
            match result {
                Some(leaf) => old(self).pending@ == final(self).pending@.push(leaf)
                    && final(self).grid.has(leaf),
                None => old(self).pending@.len() == 0 && final(self).pending@ == old(self).pending@,
            },
    {
        let ghost before = self.pending@;
        let result = self.pending.pop();
        proof {
            if before.len() > 0 {
                assert(self.grid.has(before[before.len() - 1]));
                assert(before =~= self.pending@.push(before.last()));
            }
        }
        result
    }

    /// Quarters the leaf, keeps it or drops it, then checks the budget.
    pub fn settle(&mut self, max_cells: u64, leaf: Leaf, class: LeafClass, split: bool) -> (result:
        MeshResult<()>)
        requires
            old(self).wf(),
            old(self).grid.has(leaf),
            old(self).pending@.len() + old(self).leaves@.len() + 4 <= usize::MAX,
        ensures
            final(self).wf(),
            final(self).grid == old(self).grid,
            split && leaf.level < old(self).grid.max_depth ==> final(self).leaves@ == old(
                self,
            ).leaves@ && final(self).pending@ == old(self).pending@ + leaf.quarters().reverse(),
            !(split && leaf.level < old(self).grid.max_depth) ==> final(self).pending@ == old(
                self,
            ).pending@ && final(self).leaves@ == (if class.outside() {
                old(self).leaves@
            } else {
                old(self).leaves@.push(leaf)
            }),
            final(self).pending@.len() + final(self).leaves@.len() <= leaf_budget(max_cells)
                ==> result is Ok,
            final(self).pending@.len() + final(self).leaves@.len() > leaf_budget(max_cells)
                ==> fails_limit(
                result,
                "adaptive 2D discovery exceeded the configured cell limit"@,
            ),
    {
        if split && leaf.level < self.grid.max_depth {
            proof {
                inner_leaf_divides(self.grid, leaf);
                children_partition_parent(self.grid, leaf, 0, 0);
            }
            let quarters = leaf.children();
            let ghost before = self.pending@;
            self.pending.push(quarters[3]);
            self.pending.push(quarters[2]);
            self.pending.push(quarters[1]);
            self.pending.push(quarters[0]);
            proof {
                assert(self.pending@ =~= before + leaf.quarters().reverse());
                assert forall|i: int| 0 <= i < self.pending@.len() implies self.grid.has(
                    #[trigger] self.pending@[i],
                ) by {
                    if i >= before.len() {
                        assert(self.pending@[i] == leaf.quarters()[3 - (i - before.len())]);
                    } else {
                        assert(self.pending@[i] == before[i]);
                    }
                }
            }
        } else if !class.certified_outside || class.negative > 0 || class.on_boundary > 0 {
            self.leaves.push(leaf);
        }
        let total: u64 = (self.leaves.len() + self.pending.len()) as u64;
        if total > leaf_limit(max_cells) {
            return Err(
                MeshError::limit_exceeded(
                    "adaptive 2D discovery exceeded the configured cell limit",
                ),
            );
        }
        Ok(())
    }

    /// The leaves found, sorted.
    pub fn finish(self) -> (result: Vec<Leaf>)
        requires
            self.wf(),
        ensures
            ordered(result@),
            result@.to_multiset() == self.leaves@.to_multiset(),
            all_in_grid(self.grid, result@),
    {
        let grid = self.grid;
        let mut leaves = self.leaves;
        let ghost before = leaves@;
        sort_keys(&mut leaves);
        proof {
            rearrangement_keeps_cover(grid, before, leaves@);
        }
        leaves
    }
}

/// The samples below the tolerance band are counted, each once.
pub proof fn samples_below_are_counted(
    samples: Seq<Real>,
    tolerance: Real,
    count: int,
) -> (places: Seq<int>)
    requires
        0 <= count,
    ensures
        count_below(samples, tolerance, count) == places.len(),
        forall|i: int, j: int|
            0 <= i < j < places.len() ==> (#[trigger] places[i]) < (#[trigger] places[j]),
        forall|k: int| #[trigger]
            places.contains(k) <==> 0 <= k < count && samples[k].lt(tolerance.opposite()),
    decreases count,
{
    if count == 0 {
        Seq::empty()
    } else {
        let list = samples_below_are_counted(samples, tolerance, count - 1);
        let last = count - 1;
        let places = if samples[last].lt(tolerance.opposite()) {
            list.push(last)
        } else {
            list
        };
        assert forall|i: int| 0 <= i < list.len() implies 0 <= (#[trigger] list[i]) < last by {
            assert(list.contains(list[i]));
        }
        assert forall|k: int| #[trigger]
            places.contains(k) <==> 0 <= k < count && samples[k].lt(tolerance.opposite()) by {
            if places.contains(k) {
                let m = places.index_of(k);
                if m < list.len() {
                    assert(list[m] == k);
                    assert(list.contains(k));
                }
            }
            if list.contains(k) {
                let m = list.index_of(k);
                assert(places[m] == k);
            }
            if k == last && places.len() > list.len() {
                assert(places[list.len() as int] == k);
            }
        }
        places
    }
}

/// The samples above the tolerance band are counted, each once.
pub proof fn samples_above_are_counted(
    samples: Seq<Real>,
    tolerance: Real,
    count: int,
) -> (places: Seq<int>)
    requires
        0 <= count,
    ensures
        count_above(samples, tolerance, count) == places.len(),
        forall|i: int, j: int|
            0 <= i < j < places.len() ==> (#[trigger] places[i]) < (#[trigger] places[j]),
        forall|k: int| #[trigger]
            places.contains(k) <==> 0 <= k < count && tolerance.lt(samples[k]),
    decreases count,
{
    if count == 0 {
        Seq::empty()
    } else {
        let list = samples_above_are_counted(samples, tolerance, count - 1);
        let last = count - 1;
        let places = if tolerance.lt(samples[last]) {
            list.push(last)
        } else {
            list
        };
        assert forall|i: int| 0 <= i < list.len() implies 0 <= (#[trigger] list[i]) < last by {
            assert(list.contains(list[i]));
        }
        assert forall|k: int| #[trigger]
            places.contains(k) <==> 0 <= k < count && tolerance.lt(samples[k]) by {
            if places.contains(k) {
                let m = places.index_of(k);
                if m < list.len() {
                    assert(list[m] == k);
                    assert(list.contains(k));
                }
            }
            if list.contains(k) {
                let m = list.index_of(k);
                assert(places[m] == k);
            }
            if k == last && places.len() > list.len() {
                assert(places[list.len() as int] == k);
            }
        }
        places
    }
}

/// In a balanced grid every leaf that touches a side of another is at most one level deeper,
/// and a grid in which all are is balanced.
pub proof fn balanced_leaves_are_close(grid: Grid, leaves: Seq<Leaf>)
    ensures
        balanced(grid, leaves) <==> forall|i: int, side: int, upper: bool|
            0 <= i < leaves.len() && 0 <= side < 4 ==> match #[trigger] neighbor_of(
                grid,
                leaves.to_set(),
                leaves[i],
                side,
                upper,
            ) {
                Some(other) => other.level <= leaves[i].level + 1,
                None => true,
            },
{
    let set = leaves.to_set();
    if balanced(grid, leaves) {
        assert forall|i: int, side: int, upper: bool|
            0 <= i < leaves.len() && 0 <= side < 4 implies match #[trigger] neighbor_of(
            grid,
            set,
            leaves[i],
            side,
            upper,
        ) {
            Some(other) => other.level <= leaves[i].level + 1,
            None => true,
        } by {
            assert(!must_split(grid, set, leaves[i]));
            assert(!too_fine_neighbor(grid, set, leaves[i], side)) by {
                assert(side == 0 || side == 1 || side == 2 || side == 3);
            }
        }
    }
    if forall|i: int, side: int, upper: bool|
        0 <= i < leaves.len() && 0 <= side < 4 ==> match #[trigger] neighbor_of(
            grid,
            set,
            leaves[i],
            side,
            upper,
        ) {
            Some(other) => other.level <= leaves[i].level + 1,
            None => true,
        } {
        assert forall|i: int| 0 <= i < leaves.len() implies !must_split(
            grid,
            set,
            #[trigger] leaves[i],
        ) by {
            assert forall|side: int| 0 <= side < 4 implies !#[trigger] too_fine_neighbor(
                grid,
                set,
                leaves[i],
                side,
            ) by {
                let low = neighbor_of(grid, set, leaves[i], side, false);
                let high = neighbor_of(grid, set, leaves[i], side, true);
                assert(!deeper(low, leaves[i].level + 1));
                assert(!deeper(high, leaves[i].level + 1));
            }
        }
    }
}

/// The leaves that a grid starts with are its columns and rows, each square once.
pub proof fn roots_are_all_squares(grid: Grid, leaf: Leaf)
    requires
        grid.columns >= 1,
    ensures
        grid.roots().contains(leaf) <==> leaf.level == 0 && leaf.x < grid.columns && leaf.y < grid.rows,
        grid.roots().no_duplicates(),
{
    let columns = grid.columns as int;
    let rows = grid.rows as int;
    let roots = grid.roots();
    assert(columns * rows >= 0) by (nonlinear_arith)
        requires
            columns >= 1,
            rows >= 0,
    ;
    assert forall|i: int| 0 <= i < roots.len() implies (#[trigger] roots[i]).level == 0 && roots[i].x
        == i % columns && roots[i].y == i / columns && i / columns < rows && 0 <= i % columns
        < columns && i == columns * (i / columns) + i % columns by {
        assert(i == columns * (i / columns) + i % columns && 0 <= i % columns < columns) by (nonlinear_arith)
            requires
                columns >= 1,
                i >= 0,
        ;
        assert(0 <= i / columns < rows) by (nonlinear_arith)
            requires
                columns >= 1,
                0 <= i < columns * rows,
        ;
    }
    if roots.contains(leaf) {
        let m = roots.index_of(leaf);
        assert(roots[m] == leaf);
    }
    if leaf.level == 0 && leaf.x < columns && leaf.y < rows {
        let x = leaf.x as int;
        let y = leaf.y as int;
        let i = columns * y + x;
        assert(0 <= i < columns * rows) by (nonlinear_arith)
            requires
                0 <= x < columns,
                0 <= y < rows,
                i == columns * y + x,
        ;
        assert(i % columns == x && i / columns == y) by (nonlinear_arith)
            requires
                0 <= x < columns,
                i == columns * y + x,
        ;
        assert(roots[i] == leaf);
    }
    assert forall|i: int, j: int|
        0 <= i < roots.len() && 0 <= j < roots.len() && i != j implies roots[i] != roots[j] by {
        if roots[i] == roots[j] {
            assert(i == columns * (i / columns) + i % columns);
            assert(j == columns * (j / columns) + j % columns);
        }
    }
}

/// A leaf that must be quartered must be so too where it is larger, its limits smaller or its
/// surface curved.
pub proof fn larger_leaf_is_split_too(
    class: LeafClass,
    size: Real,
    larger: Real,
    size_limit: Real,
    smaller_size: Real,
    geometry_limit: Real,
    smaller_geometry: Real,
    curved: bool,
)
    requires
        wants_split(class, size, size_limit, geometry_limit, curved),
        size.le(larger),
        smaller_size.le(size_limit),
        smaller_geometry.le(geometry_limit),
    ensures
        wants_split(class, larger, smaller_size, smaller_geometry, curved),
        wants_split(class, larger, smaller_size, smaller_geometry, true),
{
}

/// A leaf at its limits is left whole where it lies on the boundary without a bend, or is known
/// to lie on one side of it.
pub proof fn fitting_leaf_stays_whole(
    class: LeafClass,
    size: Real,
    size_limit: Real,
    geometry_limit: Real,
)
    requires
        size.le(size_limit),
        size.le(geometry_limit),
        class.mixed() || class.certified_inside || class.certified_outside,
    ensures
        !wants_split(class, size, size_limit, geometry_limit, false),
{
}

} // verus!
