//! Meshing a plane domain: what is done next, given what came of the step
//! before.

use vstd::prelude::*;

use crate::algorithm::{MeshingStatistics, QualityTermination};
use crate::assess::Assessment;
use crate::controls::BoundaryLayerControl;
#[allow(unused_imports)]
use crate::error::fails_input;
use crate::error::{MeshError, MeshResult};
use crate::quadtree::Leaf;
use crate::sorted::SortedSet;
#[allow(unused_imports)]
use crate::sorted::increasing_has_no_duplicates;
use crate::text::{around, quoted, same_text};
#[allow(unused_imports)]
use crate::text::debug_text;

verus! {

/// The leaves that can be refined.
pub open spec fn dividing(leaves: Set<Leaf>, max_depth: u8) -> Set<Leaf> {
    leaves.filter(|leaf: Leaf| leaf.level < max_depth)
}

/// The leaves of a set that are larger than the smallest of the grid.
pub fn splittable(leaves: &SortedSet<Leaf>, max_depth: u8) -> (result: SortedSet<Leaf>)
    requires
        leaves.wf(),
    ensures
        result.wf(),
        result@ == dividing(leaves@, max_depth),
        result.items@.len() <= leaves.items@.len(),
        result.items@.len() == leaves.items@.len() <==> (forall|leaf: Leaf| #[trigger]
            leaves@.contains(leaf) ==> leaf.level < max_depth),
{
    let mut kept = SortedSet::<Leaf>::new();
    let mut i: usize = 0;
    proof {
        increasing_has_no_duplicates(leaves.items@);
    }
    while i < leaves.items.len()
        invariant
            i <= leaves.items@.len(),
            leaves.items@.no_duplicates(),
            kept.wf(),
            kept.items@.len() <= i,
            kept.items@.len() == i <==> (forall|k: int|
                0 <= k < i ==> (#[trigger] leaves.items@[k]).level < max_depth),
            forall|leaf: Leaf| #[trigger]
                kept@.contains(leaf) <==> leaf.level < max_depth && exists|k: int|
                    0 <= k < i && #[trigger] leaves.items@[k] == leaf,
        decreases leaves.items@.len() - i,
    {
        let ghost before = kept@;
        let ghost size = kept.items@.len();
        let leaf = leaves.items[i];
        if leaf.level < max_depth {
            assert(!before.contains(leaf)) by {
                if before.contains(leaf) {
                    let k = choose|k: int| 0 <= k < i && #[trigger] leaves.items@[k] == leaf;
                    assert(leaves.items@[k] == leaves.items@[i as int]);
                }
            }
            kept.insert(leaf);
        }
        assert forall|other: Leaf| #[trigger] kept@.contains(other) <==> other.level < max_depth
            && exists|k: int| 0 <= k < i + 1 && #[trigger] leaves.items@[k] == other by {
            assert(before.contains(other) <==> other.level < max_depth && exists|k: int|
                0 <= k < i && #[trigger] leaves.items@[k] == other);
            if other == leaf {
                assert(leaves.items@[i as int] == other);
            }
        }
        i = i + 1;
    }
    proof {
        assert forall|leaf: Leaf| kept@.contains(leaf) == dividing(leaves@, max_depth).contains(
            leaf,
        ) by {
            if leaves@.contains(leaf) {
                let k = leaves.items@.index_of(leaf);
                assert(leaves.items@[k] == leaf);
            }
            if exists|k: int| 0 <= k < i && #[trigger] leaves.items@[k] == leaf {
                assert(leaves.items@.contains(leaf));
            }
        }
        assert(kept@ =~= dividing(leaves@, max_depth));
        if kept.items@.len() == leaves.items@.len() {
            assert forall|leaf: Leaf| #[trigger] leaves@.contains(leaf) implies leaf.level
                < max_depth by {
                let k = leaves.items@.index_of(leaf);
                assert(leaves.items@[k] == leaf);
            }
        }
        if forall|leaf: Leaf| #[trigger] leaves@.contains(leaf) ==> leaf.level < max_depth {
            assert forall|k: int| 0 <= k < i implies (#[trigger] leaves.items@[k]).level
                < max_depth by {
                assert(leaves@.contains(leaves.items@[k]));
            }
        }
    }
    kept
}

/// What to do with a mesh that was assessed.
#[derive(Debug)]
pub enum RefineStep {
    /// The mesh is taken.
    Take,
    Refine(SortedSet<Leaf>),
    /// A leaf must be refined that cannot be.
    Stuck,
}

/// Every leaf that must be refined has to be refinable, or the mesh is given up.
pub fn refine_all(refine: &SortedSet<Leaf>, max_depth: u8) -> (result: RefineStep)
    requires
        refine.wf(),
    ensures
        refine.items@.len() == 0 ==> result is Take,
        refine.items@.len() > 0 && dividing(refine@, max_depth) == refine@ ==> (
        result matches RefineStep::Refine(leaves) && leaves.wf() && leaves@ == refine@),
        refine.items@.len() > 0 && dividing(refine@, max_depth) != refine@ ==> result is Stuck,
{
    if refine.items.len() == 0 {
        return RefineStep::Take;
    }
    let leaves = splittable(refine, max_depth);
    if leaves.items.len() != refine.items.len() {
        assert(dividing(refine@, max_depth) != refine@) by {
            let leaf = choose|leaf: Leaf| #[trigger]
                refine@.contains(leaf) && leaf.level >= max_depth;
            assert(!dividing(refine@, max_depth).contains(leaf));
        }
        RefineStep::Stuck
    } else {
        assert(dividing(refine@, max_depth) =~= refine@);
        RefineStep::Refine(leaves)
    }
}

/// What can be refined is refined; where nothing can, the mesh is taken as it
/// is.
pub fn refine_some(refine: &SortedSet<Leaf>, max_depth: u8) -> (result: RefineStep)
    requires
        refine.wf(),
    ensures
        dividing(refine@, max_depth) == Set::<Leaf>::empty() ==> result is Take,
        dividing(refine@, max_depth) != Set::<Leaf>::empty() ==> (result matches RefineStep::Refine(
            leaves,
        ) && leaves.wf() && leaves@ == dividing(refine@, max_depth)),
{
    let leaves = splittable(refine, max_depth);
    if leaves.items.len() == 0 {
        assert(leaves@ =~= Set::<Leaf>::empty());
        RefineStep::Take
    } else {
        assert(leaves@.contains(leaves.items@[0]));
        RefineStep::Refine(leaves)
    }
}

/// Nothing must be refined and no cell is invalid.
pub open spec fn sound(assessment: Assessment) -> bool {
    assessment.refine.items@.len() == 0 && assessment.score.hard_invalid == 0
}

pub fn is_sound(assessment: &Assessment) -> (result: bool)
    ensures
        result == sound(*assessment),
{
    assessment.refine.items.len() == 0 && assessment.score.hard_invalid == 0
}

/// What to do after a step that a mesh can do without.
#[derive(Debug)]
pub enum OptionalStep {
    /// Go on with what the step made.
    Keep,
    /// Go back to what was there before.
    Restore,
    Fail(MeshError),
}

/// A refused step is undone; any other error ends the job.
pub fn after_optional(outcome: MeshResult<()>) -> (result: OptionalStep)
    ensures
        match outcome {
            Ok(_) => result is Keep,
            Err(error) => if error is InvalidInput {
                result is Restore
            } else {
                result == OptionalStep::Fail(error)
            },
        },
{
    match outcome {
        Ok(_) => OptionalStep::Keep,
        Err(error) => match error {
            MeshError::InvalidInput(_) => OptionalStep::Restore,
            error => OptionalStep::Fail(error),
        },
    }
}

/// The control is for the domain and for one of the regions.
pub open spec fn control_applies(
    control: BoundaryLayerControl,
    domain: Seq<char>,
    regions: Seq<String>,
) -> bool {
    control.domain@ == domain && exists|i: int|
        0 <= i < regions.len() && (#[trigger] regions[i])@ == control.boundary_region@
}

/// The controls for a domain that apply to a point in the given regions.
pub fn layer_memberships(
    controls: &Vec<BoundaryLayerControl>,
    domain: &str,
    regions: &Vec<String>,
) -> (result: SortedSet<usize>)
    ensures
        result.wf(),
        forall|i: usize| #[trigger]
            result@.contains(i) <==> i < controls@.len() && control_applies(
                controls@[i as int],
                domain@,
                regions@,
            ),
{
    let mut set = SortedSet::<usize>::new();
    let mut i: usize = 0;
    while i < controls.len()
        invariant
            i <= controls@.len(),
            set.wf(),
            forall|k: usize| #[trigger]
                set@.contains(k) <==> k < i && control_applies(
                    controls@[k as int],
                    domain@,
                    regions@,
                ),
        decreases controls@.len() - i,
    {
        let ghost before = set@;
        let control = &controls[i];
        let mut known = false;
        let mut r: usize = 0;
        while r < regions.len()
            invariant
                r <= regions@.len(),
                known <==> exists|k: int|
                    0 <= k < r && (#[trigger] regions@[k])@ == control.boundary_region@,
            decreases regions@.len() - r,
        {
            if same_text(regions[r].as_str(), control.boundary_region.as_str()) {
                assert(regions@[r as int]@ == control.boundary_region@);
                known = true;
            }
            r = r + 1;
        }
        if known && same_text(control.domain.as_str(), domain) {
            set.insert(i);
        }
        assert forall|k: usize| #[trigger] set@.contains(k) <==> k < i + 1 && control_applies(
            controls@[k as int],
            domain@,
            regions@,
        ) by {
            assert(before.contains(k) <==> k < i && control_applies(
                controls@[k as int],
                domain@,
                regions@,
            ));
        }
        i = i + 1;
    }
    set
}

/// The domain has layer controls.
pub open spec fn layers_wanted(controls: Seq<BoundaryLayerControl>, domain: Seq<char>) -> bool {
    exists|i: int| 0 <= i < controls.len() && (#[trigger] controls[i]).domain@ == domain
}

pub fn has_layers(controls: &Vec<BoundaryLayerControl>, domain: &str) -> (result: bool)
    ensures
        result == layers_wanted(controls@, domain@),
{
    let mut i: usize = 0;
    while i < controls.len()
        invariant
            i <= controls@.len(),
            forall|k: int| 0 <= k < i ==> (#[trigger] controls@[k]).domain@ != domain@,
        decreases controls@.len() - i,
    {
        if same_text(controls[i].domain.as_str(), domain) {
            return true;
        }
        i = i + 1;
    }
    false
}

fn same_members(a: &SortedSet<usize>, b: &SortedSet<usize>) -> (result: bool)
    ensures
        result == (a.items@ == b.items@),
{
    if a.items.len() != b.items.len() {
        return false;
    }
    let mut i: usize = 0;
    while i < a.items.len()
        invariant
            i <= a.items@.len(),
            a.items@.len() == b.items@.len(),
            forall|k: int| 0 <= k < i ==> a.items@[k] == b.items@[k],
        decreases a.items@.len() - i,
    {
        if a.items[i] != b.items[i] {
            return false;
        }
        i = i + 1;
    }
    assert(a.items@ =~= b.items@);
    true
}

/// The controls change along a list of samples.
pub open spec fn changes(samples: Seq<SortedSet<usize>>) -> bool {
    exists|i: int| 0 <= i < samples.len() - 1 && #[trigger] differs(samples, i)
}

/// The controls at a sample are not those at the next.
pub open spec fn differs(samples: Seq<SortedSet<usize>>, i: int) -> bool {
    samples[i].items@ != samples[i + 1].items@
}

/// Whether different controls apply along an edge.
pub fn crosses_transition(samples: &Vec<SortedSet<usize>>) -> (result: bool)
    ensures
        result == changes(samples@),
{
    let mut i: usize = 1;
    while i < samples.len()
        invariant
            1 <= i,
            i <= samples@.len() || (samples@.len() == 0 && i == 1),
            forall|k: int| 0 <= k < i - 1 ==> !#[trigger] differs(samples@, k),
        decreases samples@.len() - i,
    {
        if !same_members(&samples[i - 1], &samples[i]) {
            assert(differs(samples@, i - 1));
            return true;
        }
        assert(!differs(samples@, i - 1));
        i = i + 1;
    }
    false
}

/// The most edges of a domain that are split where controls change.
pub const MAX_TRANSITION_SPLITS: usize = 128;

/// What to do about an edge along which the controls change.
#[derive(Debug, Clone, Copy, PartialEq, Eq, Structural)]
pub enum TransitionStep {
    /// There is none.
    Done,
    Split,
    /// Too many were split already.
    GiveUp,
}

pub fn transition_step(pass: usize, found: bool) -> (result: TransitionStep)
    ensures
        result == (if !found {
            TransitionStep::Done
        } else if pass >= MAX_TRANSITION_SPLITS - 1 {
            TransitionStep::GiveUp
        } else {
            TransitionStep::Split
        }),
{
    if !found {
        TransitionStep::Done
    } else if pass >= MAX_TRANSITION_SPLITS - 1 {
        TransitionStep::GiveUp
    } else {
        TransitionStep::Split
    }
}

pub open spec fn unsplit_message(domain: Seq<char>) -> Seq<char> {
    "domain "@ + debug_text(domain)
        + " could not split a boundary edge at a boundary-layer region transition"@
}

pub open spec fn torn_message(domain: Seq<char>) -> Seq<char> {
    "domain "@ + debug_text(domain)
        + " produced invalid connectivity while splitting a boundary-layer region transition"@
}

/// Whether an edge at a transition was split well: it must have been split, and
/// nothing may have to be refined after it.
pub fn after_transition(domain: &str, split: bool, refine: &SortedSet<Leaf>) -> (result: MeshResult<
    (),
>)
    ensures
        !split ==> fails_input(result, unsplit_message(domain@)),
        split && refine.items@.len() > 0 ==> fails_input(
            result,
            torn_message(domain@),
        ),
        split && refine.items@.len() == 0 ==> result is Ok,
{
    if !split {
        return Err(
            MeshError::InvalidInput(
                around(
                    "domain ",
                    quoted(domain).as_str(),
                    " could not split a boundary edge at a boundary-layer region transition",
                ),
            ),
        );
    }
    if refine.items.len() > 0 {
        return Err(
            MeshError::InvalidInput(
                around(
                    "domain ",
                    quoted(domain).as_str(),
                    " produced invalid connectivity while splitting a boundary-layer region transition",
                ),
            ),
        );
    }
    Ok(())
}

/// The statistics with which the layers are tried again, coarser: those from
/// before the first try, but a limit that it ran into stays noted.
pub fn retry_statistics(before: MeshingStatistics, attempted: QualityTermination) -> (result:
    MeshingStatistics)
    ensures
        result == (MeshingStatistics {
            quality_termination: if attempted == QualityTermination::MaxCells || attempted
                == QualityTermination::MemoryBudget {
                attempted
            } else {
                before.quality_termination
            },
            ..before
        }),
{
    let mut statistics = before;
    match attempted {
        QualityTermination::MaxCells => {
            statistics.quality_termination = attempted;
        },
        QualityTermination::MemoryBudget => {
            statistics.quality_termination = attempted;
        },
        _ => {},
    }
    statistics
}

/// What was measured of a mesh before and after a sweep.
#[derive(Debug, Clone, Copy, PartialEq, Eq, Structural)]
pub struct SweepMeasure {
    /// The sum of what is violated is clearly less.
    pub violation_less: bool,
    /// The objective is clearly less.
    pub objective_less: bool,
    /// The worst Scaled Jacobian is clearly less.
    pub jacobian_less: bool,
    /// The greatest skewness is clearly more.
    pub skewness_more: bool,
    /// The triangles at the ends of layers are as good.
    pub caps_kept: bool,
    /// Nothing must be refined and no cell is invalid.
    pub sound: bool,
    /// The edges form a plane mesh.
    pub planar: bool,
}

/// Whether what a sweep did is kept: it must improve something and worsen
/// nothing.
pub fn accept_sweep(measure: SweepMeasure) -> (result: bool)
    ensures
        result == ((measure.violation_less || measure.objective_less) && !measure.jacobian_less
            && !measure.skewness_more && measure.caps_kept && measure.sound && measure.planar),
{
    if (!measure.violation_less && !measure.objective_less) || measure.jacobian_less
        || measure.skewness_more || !measure.caps_kept {
        return false;
    }
    measure.sound && measure.planar
}

/// The steps of meshing a plane domain out of core, once its leaves are
/// settled.
#[derive(Debug, Clone, Copy, PartialEq, Eq, Structural)]
pub enum Stage {
    /// Merge boundary points that lie together; may be refused.
    Canonicalize,
    /// Take over the meshes of interfaces with domains meshed before.
    Interfaces,
    /// Triangulate anew under the constraints; may be refused.
    Retriangulate,
    /// Judge the new triangulation.
    Judge,
    /// Go back to the mesh from before the interfaces, and judge it.
    Restore,
    /// Split and mark the boundary for layers.
    PrepareLayers,
    /// Grow the layers and rebuild the core.
    GrowLayers,
    /// Lock the constraints.
    Lock,
    Optimize,
    /// Judge the quality of a mesh with layers.
    Gates,
    /// Go back to the mesh from before the layers; the core is not refined any
    /// more.
    Coarsen,
    /// Sort the cells.
    Sort,
    /// The final audit.
    Validate,
    /// Keep the meshes of interfaces for the domains to come.
    Capture,
    Emit,
    Finished,
    /// No valid mesh was found.
    Failed,
}

/// What came of a step: it was done and what it asked holds, or it was refused
/// or what it asked does not hold.
#[derive(Debug, Clone, Copy, PartialEq, Eq, Structural)]
pub struct DomainRun {
    pub stage: Stage,
    /// The domain has layers.
    pub layers: bool,
    /// The layers are tried a second time.
    pub again: bool,
}

/// The stage that follows the mesh that layers may grow on.
pub open spec fn after_seed(layers: bool) -> Stage {
    if layers {
        Stage::PrepareLayers
    } else {
        Stage::Lock
    }
}

/// The run after a step that went well or not.
pub open spec fn run_after(run: DomainRun, well: bool) -> DomainRun {
    let stage = match run.stage {
        Stage::Canonicalize => Stage::Interfaces,
        Stage::Interfaces => Stage::Retriangulate,
        Stage::Retriangulate => if well {
            Stage::Judge
        } else {
            Stage::Restore
        },
        Stage::Judge => if well {
            after_seed(run.layers)
        } else {
            Stage::Restore
        },
        Stage::Restore => if well {
            after_seed(run.layers)
        } else {
            Stage::Failed
        },
        Stage::PrepareLayers => Stage::GrowLayers,
        Stage::GrowLayers => Stage::Lock,
        Stage::Lock => Stage::Optimize,
        Stage::Optimize => if run.layers && !run.again {
            Stage::Gates
        } else {
            Stage::Sort
        },
        Stage::Gates => if well {
            Stage::Sort
        } else {
            Stage::Coarsen
        },
        Stage::Coarsen => Stage::PrepareLayers,
        Stage::Sort => Stage::Validate,
        Stage::Validate => Stage::Capture,
        Stage::Capture => Stage::Emit,
        Stage::Emit => Stage::Finished,
        Stage::Finished => Stage::Finished,
        Stage::Failed => Stage::Failed,
    };
    DomainRun { stage, layers: run.layers, again: run.again || run.stage == Stage::Coarsen }
}

impl DomainRun {
    pub fn new(layers: bool) -> (result: DomainRun)
        ensures
            result == (DomainRun { stage: Stage::Canonicalize, layers, again: false }),
    {
        DomainRun { stage: Stage::Canonicalize, layers, again: false }
    }

    /// Goes on after a step. Errors that end the job are not steps.
    pub fn advance(&mut self, well: bool)
        ensures
            *final(self) == run_after(*old(self), well),
    {
        let seed = if self.layers {
            Stage::PrepareLayers
        } else {
            Stage::Lock
        };
        let stage = self.stage;
        self.stage = match stage {
            Stage::Canonicalize => Stage::Interfaces,
            Stage::Interfaces => Stage::Retriangulate,
            Stage::Retriangulate => if well {
                Stage::Judge
            } else {
                Stage::Restore
            },
            Stage::Judge => if well {
                seed
            } else {
                Stage::Restore
            },
            Stage::Restore => if well {
                seed
            } else {
                Stage::Failed
            },
            Stage::PrepareLayers => Stage::GrowLayers,
            Stage::GrowLayers => Stage::Lock,
            Stage::Lock => Stage::Optimize,
            Stage::Optimize => if self.layers && !self.again {
                Stage::Gates
            } else {
                Stage::Sort
            },
            Stage::Gates => if well {
                Stage::Sort
            } else {
                Stage::Coarsen
            },
            Stage::Coarsen => {
                self.again = true;
                Stage::PrepareLayers
            },
            Stage::Sort => Stage::Validate,
            Stage::Validate => Stage::Capture,
            Stage::Capture => Stage::Emit,
            Stage::Emit => Stage::Finished,
            Stage::Finished => Stage::Finished,
            Stage::Failed => Stage::Failed,
        };
    }
}

/// How many steps may still follow.
pub open spec fn steps_left(run: DomainRun) -> nat {
    match run.stage {
        Stage::Canonicalize => 23,
        Stage::Interfaces => 22,
        Stage::Retriangulate => 21,
        Stage::Judge => 20,
        Stage::Restore => 19,
        Stage::PrepareLayers => if run.again {
            9
        } else {
            15
        },
        Stage::GrowLayers => if run.again {
            8
        } else {
            14
        },
        Stage::Lock => if run.again {
            7
        } else {
            13
        },
        Stage::Optimize => if run.again {
            6
        } else {
            12
        },
        Stage::Gates => 11,
        Stage::Coarsen => 10,
        Stage::Sort => 5,
        Stage::Validate => 4,
        Stage::Capture => 3,
        Stage::Emit => 2,
        Stage::Finished => 0,
        Stage::Failed => 0,
    }
}

/// Meshing a domain comes to an end: layers are tried at most twice.
pub proof fn meshing_ends(run: DomainRun, well: bool)
    requires
        run.stage != Stage::Finished,
        run.stage != Stage::Failed,
        run.again ==> run.stage != Stage::Gates && run.stage != Stage::Coarsen,
    ensures
        steps_left(run_after(run, well)) < steps_left(run),
        run_after(run, well).again ==> run_after(run, well).stage != Stage::Gates && run_after(
            run,
            well,
        ).stage != Stage::Coarsen,
{
}

/// Nothing is written that was not sorted and audited just before.
pub proof fn written_meshes_are_audited(run: DomainRun, well: bool)
    ensures
        run_after(run, well).stage == Stage::Emit ==> run.stage == Stage::Capture,
        run_after(run, well).stage == Stage::Capture ==> run.stage == Stage::Validate,
        run_after(run, well).stage == Stage::Validate ==> run.stage == Stage::Sort,
{
}

} // verus!
