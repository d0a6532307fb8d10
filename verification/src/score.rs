//! How meshes, violations and actions compare.

use std::cmp::Ordering;

use vstd::prelude::*;

use crate::edits::cell_limit;
#[allow(unused_imports)]
use crate::edits::cell_capacity;
use crate::number::Real;
#[allow(unused_imports)]
use crate::number::total_rank_injective;
use crate::sorted::{same_key, Key};
use crate::topology::PointKey;

verus! {

/// What a violation is about.
#[derive(Debug, Clone, Copy, PartialEq, Eq, Structural)]
pub enum Entity {
    Cell(usize),
    Edge(PointKey, PointKey),
}

impl Key for Entity {
    open spec fn before(self, other: Self) -> bool {
        match (self, other) {
            (Entity::Cell(a), Entity::Cell(b)) => a < b,
            (Entity::Cell(_), Entity::Edge(_, _)) => true,
            (Entity::Edge(a, b), Entity::Edge(c, d)) => a.before(c) || (a == c && b.before(d)),
            _ => false,
        }
    }

    proof fn irreflexive(a: Self) {
        match a {
            Entity::Edge(p, q) => {
                PointKey::irreflexive(p);
                PointKey::irreflexive(q);
            },
            _ => {},
        }
    }

    proof fn transitive(a: Self, b: Self, c: Self) {
        match (a, b, c) {
            (Entity::Edge(p, q), Entity::Edge(r, s), Entity::Edge(t, u)) => {
                <(PointKey, PointKey) as Key>::transitive((p, q), (r, s), (t, u));
            },
            _ => {},
        }
    }

    proof fn total(a: Self, b: Self) {
        match (a, b) {
            (Entity::Edge(p, q), Entity::Edge(r, s)) => {
                PointKey::total(p, r);
                PointKey::total(q, s);
            },
            _ => {},
        }
    }

    fn precedes(&self, other: &Self) -> (result: bool) {
        match (self, other) {
            (Entity::Cell(a), Entity::Cell(b)) => *a < *b,
            (Entity::Cell(_), Entity::Edge(_, _)) => true,
            (Entity::Edge(a, b), Entity::Edge(c, d)) => a.precedes(c) || (same_key(a, c)
                && b.precedes(d)),
            _ => false,
        }
    }
}

/// A target that is not met, and by how much.
#[derive(Debug, Clone, Copy, PartialEq, Eq, Structural)]
pub struct Violation {
    pub severity: Real,
    pub entity: Entity,
}

impl Key for Violation {
    /// The severest first; among equals, by entity.
    open spec fn before(self, other: Self) -> bool {
        self.severity.total_rank() > other.severity.total_rank() || (self.severity.total_rank()
            == other.severity.total_rank() && self.entity.before(other.entity))
    }

    proof fn irreflexive(a: Self) {
        Entity::irreflexive(a.entity);
    }

    proof fn transitive(a: Self, b: Self, c: Self) {
        if a.severity.total_rank() == b.severity.total_rank() && b.severity.total_rank()
            == c.severity.total_rank() {
            Entity::transitive(a.entity, b.entity, c.entity);
        }
    }

    proof fn total(a: Self, b: Self) {
        Entity::total(a.entity, b.entity);
        total_rank_injective(a.severity, b.severity);
    }

    fn precedes(&self, other: &Self) -> (result: bool) {
        if other.severity.total_less(self.severity) {
            true
        } else if self.severity.total_less(other.severity) {
            false
        } else {
            self.entity.precedes(&other.entity)
        }
    }
}

/// How good a mesh is; smaller is better in the order below.
#[derive(Debug, Clone, Copy, PartialEq, Eq, Structural)]
pub struct PatchScore {
    pub hard_invalid: usize,
    pub unmet_targets: usize,
    pub worst_violation: Real,
    pub worst_quality: Real,
    pub mean_squared_log_size_error: Real,
    pub quad_count: usize,
    pub triangle_count: usize,
    pub cell_count: usize,
}

impl PatchScore {
    /// The criteria in order; the first one that differs decides, and less is
    /// better.
    pub open spec fn criterion(self, index: int) -> int {
        if index == 0 {
            self.hard_invalid as int
        } else if index == 1 {
            self.unmet_targets as int
        } else if index == 2 {
            self.worst_violation.total_rank()
        } else if index == 3 {
            -self.worst_quality.total_rank()
        } else if index == 4 {
            self.mean_squared_log_size_error.total_rank()
        } else if index == 5 {
            -(self.quad_count as int)
        } else if index == 6 {
            self.triangle_count as int
        } else {
            self.cell_count as int
        }
    }
}

/// From the given criterion on, `a` is better than `b`.
pub open spec fn better_from(a: PatchScore, b: PatchScore, index: int) -> bool
    decreases 8 - index,
{
    if index >= 8 {
        false
    } else {
        a.criterion(index) < b.criterion(index) || (a.criterion(index) == b.criterion(index)
            && better_from(a, b, index + 1))
    }
}

proof fn better_from_transitive(a: PatchScore, b: PatchScore, c: PatchScore, index: int)
    requires
        better_from(a, b, index),
        better_from(b, c, index),
    ensures
        better_from(a, c, index),
    decreases 8 - index,
{
    if index < 8 {
        if a.criterion(index) == b.criterion(index) && b.criterion(index) == c.criterion(index) {
            better_from_transitive(a, b, c, index + 1);
        }
    }
}

proof fn better_from_irreflexive(a: PatchScore, index: int)
    ensures
        !better_from(a, a, index),
    decreases 8 - index,
{
    if index < 8 {
        better_from_irreflexive(a, index + 1);
    }
}

proof fn better_from_total(a: PatchScore, b: PatchScore, index: int)
    requires
        0 <= index,
    ensures
        better_from(a, b, index) || better_from(b, a, index) || forall|i: int|
            index <= i < 8 ==> #[trigger] a.criterion(i) == b.criterion(i),
    decreases 8 - index,
{
    if index < 8 {
        better_from_total(a, b, index + 1);
    }
}

impl Key for PatchScore {
    open spec fn before(self, other: Self) -> bool {
        better_from(self, other, 0)
    }

    proof fn irreflexive(a: Self) {
        better_from_irreflexive(a, 0);
    }

    proof fn transitive(a: Self, b: Self, c: Self) {
        better_from_transitive(a, b, c, 0);
    }

    proof fn total(a: Self, b: Self) {
        better_from_total(a, b, 0);
        if !a.before(b) && !b.before(a) {
            assert(a.criterion(0) == b.criterion(0));
            assert(a.criterion(1) == b.criterion(1));
            assert(a.criterion(2) == b.criterion(2));
            assert(a.criterion(3) == b.criterion(3));
            assert(a.criterion(4) == b.criterion(4));
            assert(a.criterion(5) == b.criterion(5));
            assert(a.criterion(6) == b.criterion(6));
            assert(a.criterion(7) == b.criterion(7));
            total_rank_injective(a.worst_violation, b.worst_violation);
            total_rank_injective(a.worst_quality, b.worst_quality);
            total_rank_injective(a.mean_squared_log_size_error, b.mean_squared_log_size_error);
        }
    }

    fn precedes(&self, other: &Self) -> (result: bool) {
        proof {
            reveal_with_fuel(better_from, 9);
        }
        if self.hard_invalid != other.hard_invalid {
            return self.hard_invalid < other.hard_invalid;
        }
        if self.unmet_targets != other.unmet_targets {
            return self.unmet_targets < other.unmet_targets;
        }
        if self.worst_violation.total_less(other.worst_violation) {
            return true;
        }
        if other.worst_violation.total_less(self.worst_violation) {
            return false;
        }
        if other.worst_quality.total_less(self.worst_quality) {
            return true;
        }
        if self.worst_quality.total_less(other.worst_quality) {
            return false;
        }
        if self.mean_squared_log_size_error.total_less(other.mean_squared_log_size_error) {
            return true;
        }
        if other.mean_squared_log_size_error.total_less(self.mean_squared_log_size_error) {
            return false;
        }
        if self.quad_count != other.quad_count {
            return self.quad_count > other.quad_count;
        }
        if self.triangle_count != other.triangle_count {
            return self.triangle_count < other.triangle_count;
        }
        self.cell_count < other.cell_count
    }
}

/// Orders two scores, the better one first.
pub fn compare_scores(a: &PatchScore, b: &PatchScore) -> (result: Ordering)
    ensures
        result == (if a.before(*b) {
            Ordering::Less
        } else if b.before(*a) {
            Ordering::Greater
        } else {
            Ordering::Equal
        }),
{
    if a.precedes(b) {
        Ordering::Less
    } else if b.precedes(a) {
        Ordering::Greater
    } else {
        Ordering::Equal
    }
}

/// Something to try on a mesh. The variants are listed in the order in which
/// ties between equally good trials are broken.
#[derive(Debug, Clone, Copy, PartialEq, Eq, Structural)]
pub enum Action {
    Merge(PointKey, PointKey),
    SplitQuad(usize),
    Flip(PointKey, PointKey),
    RelocateInterior(PointKey, u8),
    RelocateBoundary(PointKey, u8),
    Split(PointKey, PointKey),
    Insert(usize),
    Collapse(PointKey, PointKey),
}

impl Action {
    pub open spec fn kind(self) -> int {
        match self {
            Action::Merge(_, _) => 0,
            Action::SplitQuad(_) => 1,
            Action::Flip(_, _) => 2,
            Action::RelocateInterior(_, _) => 3,
            Action::RelocateBoundary(_, _) => 4,
            Action::Split(_, _) => 5,
            Action::Insert(_) => 6,
            Action::Collapse(_, _) => 7,
        }
    }

    /// The ends, where the action has some; else a fixed stand-in.
    pub open spec fn ends(self) -> (PointKey, PointKey) {
        match self {
            Action::Merge(a, b) => (a, b),
            Action::Flip(a, b) => (a, b),
            Action::RelocateInterior(a, _) => (a, a),
            Action::RelocateBoundary(a, _) => (a, a),
            Action::Split(a, b) => (a, b),
            Action::Collapse(a, b) => (a, b),
            _ => (PointKey::Inserted(0), PointKey::Inserted(0)),
        }
    }

    /// The cell or the step, where the action has one; else 0.
    pub open spec fn number(self) -> int {
        match self {
            Action::SplitQuad(index) => index as int,
            Action::Insert(index) => index as int,
            Action::RelocateInterior(_, step) => step as int,
            Action::RelocateBoundary(_, step) => step as int,
            _ => 0,
        }
    }

    fn kind_rank(&self) -> (result: u8)
        ensures
            result == self.kind(),
    {
        match self {
            Action::Merge(_, _) => 0,
            Action::SplitQuad(_) => 1,
            Action::Flip(_, _) => 2,
            Action::RelocateInterior(_, _) => 3,
            Action::RelocateBoundary(_, _) => 4,
            Action::Split(_, _) => 5,
            Action::Insert(_) => 6,
            Action::Collapse(_, _) => 7,
        }
    }

    fn end_points(&self) -> (result: (PointKey, PointKey))
        ensures
            result == self.ends(),
    {
        match self {
            Action::Merge(a, b) => (*a, *b),
            Action::Flip(a, b) => (*a, *b),
            Action::RelocateInterior(a, _) => (*a, *a),
            Action::RelocateBoundary(a, _) => (*a, *a),
            Action::Split(a, b) => (*a, *b),
            Action::Collapse(a, b) => (*a, *b),
            _ => (PointKey::Inserted(0), PointKey::Inserted(0)),
        }
    }

    fn number_value(&self) -> (result: usize)
        ensures
            result == self.number(),
    {
        match self {
            Action::SplitQuad(index) => *index,
            Action::Insert(index) => *index,
            Action::RelocateInterior(_, step) => *step as usize,
            Action::RelocateBoundary(_, step) => *step as usize,
            _ => 0,
        }
    }
}

impl Key for Action {
    open spec fn before(self, other: Self) -> bool {
        self.kind() < other.kind() || (self.kind() == other.kind() && (self.ends().before(
            other.ends(),
        ) || (self.ends() == other.ends() && self.number() < other.number())))
    }

    proof fn irreflexive(a: Self) {
        <(PointKey, PointKey) as Key>::irreflexive(a.ends());
    }

    proof fn transitive(a: Self, b: Self, c: Self) {
        if a.kind() == b.kind() && b.kind() == c.kind() {
            if a.ends().before(b.ends()) && b.ends().before(c.ends()) {
                <(PointKey, PointKey) as Key>::transitive(a.ends(), b.ends(), c.ends());
            }
        }
    }

    proof fn total(a: Self, b: Self) {
        <(PointKey, PointKey) as Key>::total(a.ends(), b.ends());
    }

    fn precedes(&self, other: &Self) -> (result: bool) {
        let left: u8 = self.kind_rank();
        let right: u8 = other.kind_rank();
        if left != right {
            return left < right;
        }
        let a = self.end_points();
        let b = other.end_points();
        if a.precedes(&b) {
            return true;
        }
        if !same_key(&a, &b) {
            return false;
        }
        proof {
            <(PointKey, PointKey) as Key>::irreflexive(a);
        }
        self.number_value() < other.number_value()
    }
}

/// How many trials an optimisation may make: twice the cells and the room that
/// is left, but at least 32 and at most 64.
pub open spec fn trial_budget(seed_cells: usize, max_cells: u64) -> int {
    let limit = cell_capacity(max_cells);
    let room = if limit > seed_cells {
        limit - seed_cells
    } else {
        0
    };
    let wanted = 2 * seed_cells + if room < seed_cells {
        room
    } else {
        seed_cells as int
    };
    if wanted < 32 {
        32
    } else if wanted > 64 {
        64
    } else {
        wanted
    }
}

pub fn action_budget(seed_cells: usize, max_cells: u64) -> (result: usize)
    ensures
        result == trial_budget(seed_cells, max_cells),
{
    if seed_cells >= 64 {
        return 64;
    }
    let limit: usize = cell_limit(max_cells);
    let headroom: usize = limit.saturating_sub(seed_cells);
    let spare: usize = if headroom < seed_cells {
        headroom
    } else {
        seed_cells
    };
    let wanted: usize = 2 * seed_cells + spare;
    if wanted < 32 {
        32
    } else if wanted > 64 {
        64
    } else {
        wanted
    }
}

/// What counts first when patches are compared: fewer invalid findings, then fewer missed
/// targets, then a lesser worst violation, then a better worst quality, then a smaller
/// size error, then more quads, then fewer triangles, then fewer cells.
pub proof fn scores_are_compared_in_turn(a: PatchScore, b: PatchScore)
    ensures
        a.hard_invalid < b.hard_invalid ==> a.before(b),
        a.hard_invalid == b.hard_invalid && a.unmet_targets < b.unmet_targets ==> a.before(b),
        a.hard_invalid == b.hard_invalid && a.unmet_targets == b.unmet_targets
            && a.worst_violation.total_rank() < b.worst_violation.total_rank() ==> a.before(b),
        a.hard_invalid == b.hard_invalid && a.unmet_targets == b.unmet_targets && a.worst_violation
            == b.worst_violation && a.worst_quality.total_rank() > b.worst_quality.total_rank()
            ==> a.before(b),
        a.hard_invalid == b.hard_invalid && a.unmet_targets == b.unmet_targets && a.worst_violation
            == b.worst_violation && a.worst_quality == b.worst_quality
            && a.mean_squared_log_size_error.total_rank()
            < b.mean_squared_log_size_error.total_rank() ==> a.before(b),
        a.hard_invalid == b.hard_invalid && a.unmet_targets == b.unmet_targets && a.worst_violation
            == b.worst_violation && a.worst_quality == b.worst_quality
            && a.mean_squared_log_size_error == b.mean_squared_log_size_error && a.quad_count
            > b.quad_count ==> a.before(b),
        a.hard_invalid == b.hard_invalid && a.unmet_targets == b.unmet_targets && a.worst_violation
            == b.worst_violation && a.worst_quality == b.worst_quality
            && a.mean_squared_log_size_error == b.mean_squared_log_size_error && a.quad_count
            == b.quad_count && (a.triangle_count < b.triangle_count || a.triangle_count
            == b.triangle_count && a.cell_count < b.cell_count) ==> a.before(b),
        a.before(b) ==> !b.before(a),
{
    reveal_with_fuel(better_from, 9);
}

/// The severest violation comes first.
pub proof fn severest_violation_is_first(a: Violation, b: Violation)
    ensures
        b.severity.lt(a.severity) ==> a.before(b),
{
}

/// The trials are as many as cells and room allow, within their bounds.
pub proof fn trials_are_bounded(seed_cells: usize, max_cells: u64)
    ensures
        32 <= trial_budget(seed_cells, max_cells) <= 64,
        seed_cells >= 32 ==> trial_budget(seed_cells, max_cells) == 64,
        seed_cells <= 10 ==> trial_budget(seed_cells, max_cells) == 32,
{
}

} // verus!
