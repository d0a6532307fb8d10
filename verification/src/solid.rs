//! Points and tetrahedra of a 3D mesh in the making.

use vstd::prelude::*;

use crate::number::{Real, Vector3};
use crate::octree::{Lattice, Leaf};
use crate::sorted::{same_key, Key, SortedMap, SortedSet};

verus! {

/// The Scaled Jacobian below which a cell is poor: `0.05`.
pub const QUALITY_FLOOR_BITS: u64 = 0x3fa9_9999_9999_999a;

/// What names a point: a lattice point, the crossing of the boundary with a
/// lattice edge, or a point added inside a cell.
#[derive(Debug, Clone, Copy, PartialEq, Eq, Structural)]
pub enum PointKey {
    Lattice(Lattice),
    Crossing(Lattice, Lattice),
    Steiner(u64),
}

impl Key for PointKey {
    /// Lattice points come first, then crossings, then added points.
    open spec fn before(self, other: Self) -> bool {
        match (self, other) {
            (PointKey::Lattice(a), PointKey::Lattice(b)) => a.before(b),
            (PointKey::Lattice(_), _) => true,
            (PointKey::Crossing(a, b), PointKey::Crossing(c, d)) => a.before(c) || (a == c
                && b.before(d)),
            (PointKey::Crossing(_, _), PointKey::Steiner(_)) => true,
            (PointKey::Steiner(a), PointKey::Steiner(b)) => a < b,
            _ => false,
        }
    }

    proof fn irreflexive(a: Self) {
    }

    proof fn transitive(a: Self, b: Self, c: Self) {
    }

    proof fn total(a: Self, b: Self) {
    }

    fn precedes(&self, other: &Self) -> (result: bool) {
        match (self, other) {
            (PointKey::Lattice(a), PointKey::Lattice(b)) => a.precedes(b),
            (PointKey::Lattice(_), _) => true,
            (PointKey::Crossing(a, b), PointKey::Crossing(c, d)) => a.precedes(c) || (same_key(a, c)
                && b.precedes(d)),
            (PointKey::Crossing(_, _), PointKey::Steiner(_)) => true,
            (PointKey::Steiner(a), PointKey::Steiner(b)) => *a < *b,
            _ => false,
        }
    }
}

#[derive(Debug, Clone, Copy)]
pub struct Point {
    pub world: Vector3,
    pub boundary: bool,
}

/// The distance field at a lattice point.
#[derive(Debug, Clone, Copy)]
pub struct Sample {
    pub key: Lattice,
    pub world: Vector3,
    pub sdf: Real,
}

impl Sample {
    /// The point is in the domain or on its boundary.
    pub open spec fn inside(self) -> bool {
        self.sdf.le(Real { bits: 0 })
    }

    pub open spec fn on_boundary(self) -> bool {
        self.sdf.same_value(Real { bits: 0 })
    }

    pub fn is_inside(&self) -> (result: bool)
        ensures
            result == self.inside(),
    {
        self.sdf.at_most(Real::zero())
    }

    pub fn is_on_boundary(&self) -> (result: bool)
        ensures
            result == self.on_boundary(),
    {
        self.sdf.equal(Real::zero())
    }

    pub open spec fn point(self) -> Point {
        Point { world: self.world, boundary: self.on_boundary() }
    }
}

/// A tetrahedron.
#[derive(Debug, Clone, Copy)]
pub struct Cell {
    pub points: [PointKey; 4],
    pub leaf: Leaf,
    pub certified_interior: bool,
}

#[derive(Debug)]
pub struct Candidate {
    pub points: SortedMap<PointKey, Point>,
    pub cells: Vec<Cell>,
    pub construction_failures: SortedSet<Leaf>,
    pub next_steiner: u64,
}

/// The points of a tetrahedron are known.
pub open spec fn tet_known(tet: Seq<PointKey>, points: Map<PointKey, Point>) -> bool {
    forall|i: int| 0 <= i < tet.len() ==> points.dom().contains(#[trigger] tet[i])
}

impl Candidate {
    pub open spec fn wf(self) -> bool {
        &&& self.points.wf()
        &&& self.construction_failures.wf()
        &&& forall|c: int|
            0 <= c < self.cells@.len() ==> tet_known((#[trigger] self.cells@[c]).points@, self.points@)
    }

    /// The next point added inside a cell finds a fresh name.
    pub open spec fn fresh(self) -> bool {
        self.next_steiner < u64::MAX && forall|n: u64|
            n >= self.next_steiner ==> !(#[trigger] self.points@.dom().contains(
                PointKey::Steiner(n),
            ))
    }

    pub fn new() -> (result: Candidate)
        ensures
            result.wf(),
            result.fresh(),
            result.points@ == Map::<PointKey, Point>::empty(),
            result.cells@.len() == 0,
            result.construction_failures@ == Set::<Leaf>::empty(),
            result.next_steiner == 1,
    {
        Candidate {
            points: SortedMap::new(),
            cells: Vec::new(),
            construction_failures: SortedSet::new(),
            next_steiner: 1,
        }
    }

    /// Adds a tetrahedron.
    pub fn push_cell(&mut self, points: [PointKey; 4], leaf: Leaf, certified_interior: bool)
        requires
            old(self).wf(),
            tet_known(points@, old(self).points@),
        ensures
            final(self).wf(),
            final(self).points == old(self).points,
            final(self).construction_failures == old(self).construction_failures,
            final(self).next_steiner == old(self).next_steiner,
            final(self).cells@ == old(self).cells@.push(
                (Cell { points, leaf, certified_interior }),
            ),
    {
        self.cells.push(Cell { points, leaf, certified_interior });
    }
}

/// The tetrahedron with its last two points exchanged where it was inverted.
pub open spec fn righted(tet: Seq<PointKey>, inverted: bool) -> Seq<PointKey> {
    if inverted {
        seq![tet[0], tet[1], tet[3], tet[2]]
    } else {
        tet
    }
}

pub fn orient_tet(tet: [PointKey; 4], inverted: bool) -> (result: [PointKey; 4])
    ensures
        result@ == righted(tet@, inverted),
{
    if inverted {
        let turned = [tet[0], tet[1], tet[3], tet[2]];
        assert(turned@ =~= righted(tet@, inverted));
        turned
    } else {
        tet
    }
}

/// How good a set of tetrahedra is.
#[derive(Debug, Clone, Copy)]
pub struct Objective {
    /// How many lie below the quality floor.
    pub below: usize,
    /// The worst quality, at most one.
    pub worst: Real,
    /// What the worst quality of another set must exceed to be better.
    pub bar: Real,
}

/// The set of tetrahedra is better than the one before.
pub open spec fn better(before: Objective, after: Objective) -> bool {
    after.below < before.below || (after.below == before.below && before.bar.lt(after.worst))
}

pub fn improves(before: &Objective, after: &Objective) -> (result: bool)
    ensures
        result == better(*before, *after),
{
    after.below < before.below || (after.below == before.below && before.bar.less(after.worst))
}

/// How many of the first qualities lie below the floor.
pub open spec fn below_floor(qualities: Seq<Real>, count: int) -> int
    decreases count,
{
    if count <= 0 {
        0
    } else {
        below_floor(qualities, count - 1) + (if qualities[count - 1].lt(
            Real { bits: QUALITY_FLOOR_BITS },
        ) {
            1int
        } else {
            0
        })
    }
}

/// The worst of one and the first qualities.
pub open spec fn worst_of(qualities: Seq<Real>, count: int) -> Real
    decreases count,
{
    if count <= 0 {
        Real { bits: 0x3ff0_0000_0000_0000 }
    } else {
        let rest = worst_of(qualities, count - 1);
        if qualities[count - 1].lt(rest) {
            qualities[count - 1]
        } else {
            rest
        }
    }
}

/// Sums up the qualities of a set of tetrahedra.
pub fn objective(qualities: &Vec<Real>, bar: Real) -> (result: Objective)
    ensures
        result.below == below_floor(qualities@, qualities@.len() as int),
        result.worst == worst_of(qualities@, qualities@.len() as int),
        result.bar == bar,
{
    let mut below: usize = 0;
    let mut worst = Real { bits: 0x3ff0_0000_0000_0000 };
    let mut i: usize = 0;
    while i < qualities.len()
        invariant
            i <= qualities.len(),
            below == below_floor(qualities@, i as int),
            below <= i,
            worst == worst_of(qualities@, i as int),
        decreases qualities.len() - i,
    {
        if qualities[i].less(Real { bits: QUALITY_FLOOR_BITS }) {
            below = below + 1;
        }
        if qualities[i].less(worst) {
            worst = qualities[i];
        }
        i = i + 1;
    }
    Objective { below, worst, bar }
}

} // verus!
