//! The contract between a meshing job and its surroundings.

use std::sync::atomic::AtomicBool;
use std::sync::Arc;

use vstd::prelude::*;

use crate::chunk::{MeshChunk, MeshChunkBuilder};
use crate::controls::{ControlFault, ControlSet};
#[allow(unused_imports)]
use crate::controls::{controls_valid, is_control_fault};
use crate::domains::DomainSummary;
#[allow(unused_imports)]
use crate::error::fails_input;
use crate::error::{MeshError, MeshResult};
use crate::schema::Bounds3;

verus! {

#[derive(Debug, Clone, Copy, PartialEq, Eq, Structural)]
pub struct MeshAlgorithmCapabilities {
    pub refinement: bool,
    pub boundary_layers: bool,
}

/// What an algorithm is called and can do.
#[derive(Debug)]
pub struct MeshAlgorithmDescriptor {
    pub id: &'static str,
    pub label: &'static str,
    pub dimensions: Vec<u8>,
    pub capabilities: MeshAlgorithmCapabilities,
}

impl MeshAlgorithmDescriptor {
    pub fn supports_dimension(&self, dimension: u8) -> (result: bool)
        ensures
            result == self.dimensions@.contains(dimension),
    {
        let mut i: usize = 0;
        while i < self.dimensions.len()
            invariant
                i <= self.dimensions@.len(),
                forall|k: int| 0 <= k < i ==> #[trigger] self.dimensions@[k] != dimension,
            decreases self.dimensions@.len() - i,
        {
            if self.dimensions[i] == dimension {
                assert(self.dimensions@[i as int] == dimension);
                return true;
            }
            i = i + 1;
        }
        false
    }
}

/// Where a mesher puts its chunks.
pub trait MeshSink {
    fn allocate_chunk_id(&mut self) -> MeshResult<u32>;

    fn emit(&mut self, chunk: MeshChunk) -> MeshResult<()>;

    /// A builder for the next chunk, whose number the sink gives out.
    fn chunk_builder(&mut self, bounds: Bounds3) -> (result: MeshResult<MeshChunkBuilder>)
        default_ensures
            result matches Ok(builder) ==> builder.wf() && builder.bounds == bounds
                && builder.points@.dom() == Set::<u64>::empty() && builder.edges@.len() == 0
                && builder.faces@.len() == 0 && builder.cells@.len() == 0,
    {
        let id = self.allocate_chunk_id();
        builder_for(id, bounds)
    }
}

/// A builder for the chunk whose number was asked for.
pub fn builder_for(id: MeshResult<u32>, bounds: Bounds3) -> (result: MeshResult<MeshChunkBuilder>)
    ensures
        id matches Err(error) ==> result == Err::<MeshChunkBuilder, MeshError>(error),
        id matches Ok(number) ==> (result is Ok <==> number != 0 && bounds.valid()),
        id matches Ok(number) ==> (result is Err ==> fails_input(
            result,
            "mesh chunk builder requires a nonzero ID and finite bounds"@,
        )),
        id matches Ok(number) ==> (result matches Ok(builder) ==> builder.wf() && builder.id
            == number && builder.bounds == bounds && builder.points@.dom() == Set::<u64>::empty()
            && builder.edges@.len() == 0 && builder.faces@.len() == 0 && builder.cells@.len() == 0),
{
    match id {
        Ok(number) => MeshChunkBuilder::new(number, bounds),
        Err(error) => Err(error),
    }
}

#[derive(Debug, Clone, Copy, PartialEq, Eq, Structural)]
pub struct GenerationLimits {
    pub max_cells: u64,
    pub max_chunks: u64,
    pub target_chunk_bytes: usize,
}

impl Default for GenerationLimits {
    fn default() -> (result: Self)
        ensures
            result.max_cells == 100_000_000,
            result.max_chunks == 1_000_000,
            result.target_chunk_bytes == 16_777_216,
    {
        GenerationLimits {
            max_cells: 100_000_000,
            max_chunks: 1_000_000,
            target_chunk_bytes: 16_777_216,
        }
    }
}

#[derive(Debug, Clone, Copy, PartialEq, Eq, Structural)]
pub enum MeshingPhase {
    Generating,
    BuildingSpatialIndex,
    WritingPreviews,
    Finalizing,
}

impl Default for MeshingPhase {
    fn default() -> (result: Self)
        ensures
            result == MeshingPhase::Generating,
    {
        MeshingPhase::Generating
    }
}

#[derive(Debug, Clone, Copy, PartialEq, Eq, Structural)]
pub struct MeshingProgress {
    pub phase: MeshingPhase,
    pub phase_completed: u64,
    pub phase_total: u64,
    pub completed_chunks: u64,
    pub cells_committed: u64,
    pub active_bytes: u64,
}

impl Default for MeshingProgress {
    fn default() -> (result: Self)
        ensures
            result == (MeshingProgress {
                phase: MeshingPhase::Generating,
                phase_completed: 0,
                phase_total: 0,
                completed_chunks: 0,
                cells_committed: 0,
                active_bytes: 0,
            }),
    {
        MeshingProgress {
            phase: MeshingPhase::Generating,
            phase_completed: 0,
            phase_total: 0,
            completed_chunks: 0,
            cells_committed: 0,
            active_bytes: 0,
        }
    }
}

/// How an optimisation ended.
#[derive(Debug, Clone, Copy, PartialEq, Eq, Structural)]
pub enum QualityTermination {
    NotRun,
    Converged,
    MaxCells,
    MemoryBudget,
    IterationLimit,
}

impl Default for QualityTermination {
    fn default() -> (result: Self)
        ensures
            result == QualityTermination::NotRun,
    {
        QualityTermination::NotRun
    }
}

impl QualityTermination {
    pub open spec fn text(self) -> Seq<char> {
        match self {
            QualityTermination::NotRun => "not run"@,
            QualityTermination::Converged => "converged"@,
            QualityTermination::MaxCells => "max cells"@,
            QualityTermination::MemoryBudget => "memory budget"@,
            QualityTermination::IterationLimit => "iteration limit"@,
        }
    }

    pub fn as_str(self) -> (result: &'static str)
        ensures
            result@ == self.text(),
    {
        match self {
            QualityTermination::NotRun => "not run",
            QualityTermination::Converged => "converged",
            QualityTermination::MaxCells => "max cells",
            QualityTermination::MemoryBudget => "memory budget",
            QualityTermination::IterationLimit => "iteration limit",
        }
    }
}

/// What a meshing job produced.
#[derive(Debug, Clone, Copy, PartialEq, Eq, Structural)]
pub struct MeshingStatistics {
    pub domains: u64,
    pub chunks: u64,
    pub points: u64,
    pub cells: u64,
    pub committed_batches: u64,
    pub peak_active_bytes: u64,
    pub elapsed_millis: u64,
    pub quality_passes: u64,
    pub quality_termination: QualityTermination,
}

impl Default for MeshingStatistics {
    fn default() -> (result: Self)
        ensures
            result == (MeshingStatistics {
                domains: 0,
                chunks: 0,
                points: 0,
                cells: 0,
                committed_batches: 0,
                peak_active_bytes: 0,
                elapsed_millis: 0,
                quality_passes: 0,
                quality_termination: QualityTermination::NotRun,
            }),
    {
        MeshingStatistics {
            domains: 0,
            chunks: 0,
            points: 0,
            cells: 0,
            committed_batches: 0,
            peak_active_bytes: 0,
            elapsed_millis: 0,
            quality_passes: 0,
            quality_termination: QualityTermination::NotRun,
        }
    }
}

/// Someone who wants to hear how far a job has come.
pub trait ProgressListener: Send + Sync {
    fn progress(&self, progress: MeshingProgress);
}

/// Stops a job from outside and reports how far it has come. The flag is
/// shared with whoever may cancel the job, so no contract tells its value.
pub struct JobControl {
    cancelled: Arc<AtomicBool>,
    progress: Option<Arc<dyn ProgressListener>>,
}

impl Clone for JobControl {
    /// Another handle on the same job.
    fn clone(&self) -> (result: JobControl)
        ensures
            result.listener() == self.listener(),
            result.flag() == self.flag(),
    {
        let progress = match &self.progress {
            Some(listener) => Some(listener.clone()),
            None => None,
        };
        JobControl { cancelled: self.cancelled.clone(), progress }
    }
}

impl Default for JobControl {
    fn default() -> (result: JobControl)
        ensures
            result.listener() is None,
    {
        JobControl::new()
    }
}

impl JobControl {
    /// Who hears of the job's progress.
    pub closed spec fn listener(self) -> Option<Arc<dyn ProgressListener>> {
        self.progress
    }

    /// The flag that cancels the job.
    pub closed spec fn flag(self) -> Arc<AtomicBool> {
        self.cancelled
    }

    /// A job that nobody has cancelled, with nobody listening.
    pub fn new() -> (result: JobControl)
        ensures
            result.listener() is None,
    {
        JobControl { cancelled: Arc::new(AtomicBool::new(false)), progress: None }
    }

    /// The same job with a listener, or without one.
    pub fn with_progress(self, listener: Option<Arc<dyn ProgressListener>>) -> (result: JobControl)
        ensures
            result.listener() == listener,
            result.flag() == self.flag(),
    {
        JobControl { cancelled: self.cancelled, progress: listener }
    }

    pub fn cancel(&self) {
        self.cancelled.store(true, std::sync::atomic::Ordering::Release);
    }

    pub fn is_cancelled(&self) -> bool {
        self.cancelled.load(std::sync::atomic::Ordering::Acquire)
    }

    /// An error exactly where cancellation was seen.
    pub fn check(&self) -> (result: MeshResult<()>)
        ensures
            result is Err ==> result == Err::<(), MeshError>(MeshError::Cancelled),
    {
        cancellation(self.is_cancelled())
    }

    pub fn report(&self, progress: MeshingProgress) {
        if let Some(listener) = &self.progress {
            listener.progress(progress);
        }
    }
}

/// The outcome of looking at the cancellation flag.
pub fn cancellation(cancelled: bool) -> (result: MeshResult<()>)
    ensures
        cancelled ==> result == Err::<(), MeshError>(MeshError::Cancelled),
        !cancelled ==> result is Ok,
{
    if cancelled {
        Err(MeshError::Cancelled)
    } else {
        Ok(())
    }
}

/// A meshing job: what to mesh, how, and within which limits.
pub struct MeshingRequest {
    pub domains: Vec<DomainSummary>,
    pub algorithm_id: String,
    pub controls: ControlSet,
    pub limits: GenerationLimits,
    pub job_control: JobControl,
}

/// Why a request is refused.
#[derive(Debug)]
pub enum RequestFault {
    Controls(ControlFault),
    Mesh(MeshError),
}

pub open spec fn limits_positive(limits: GenerationLimits) -> bool {
    limits.max_cells != 0 && limits.max_chunks != 0 && limits.target_chunk_bytes != 0
}

pub open spec fn one_dimension(domains: Seq<DomainSummary>) -> bool {
    forall|i: int| 0 <= i < domains.len() ==> (#[trigger] domains[i]).dimension == domains[0].dimension
}

pub open spec fn refused(result: Result<u8, RequestFault>, message: Seq<char>) -> bool {
    result matches Err(RequestFault::Mesh(error)) && error is InvalidInput && error.text()
        == message
}

impl MeshingRequest {
    /// The dimension of the mesh that is asked for.
    pub fn validate(&self) -> (result: Result<u8, RequestFault>)
        ensures
            result is Ok <==> self.domains@.len() > 0 && controls_valid(
                self.controls,
                self.domains@,
            ) && limits_positive(self.limits) && one_dimension(self.domains@),
            result matches Ok(dimension) ==> dimension == self.domains@[0].dimension,
            self.domains@.len() == 0 ==> refused(
                result,
                "meshing requires at least one declared domain"@,
            ),
            self.domains@.len() > 0 && !controls_valid(self.controls, self.domains@) ==> (
            result matches Err(RequestFault::Controls(fault)) && is_control_fault(
                self.controls,
                self.domains@,
                fault,
            )),
            self.domains@.len() > 0 && controls_valid(self.controls, self.domains@)
                && !limits_positive(self.limits) ==> refused(
                result,
                "meshing limits must be positive"@,
            ),
            self.domains@.len() > 0 && controls_valid(self.controls, self.domains@)
                && limits_positive(self.limits) && !one_dimension(self.domains@) ==> refused(
                result,
                "one mesh artifact cannot mix domain dimensions"@,
            ),
    {
        if self.domains.len() == 0 {
            return Err(
                RequestFault::Mesh(
                    MeshError::invalid_input("meshing requires at least one declared domain"),
                ),
            );
        }
        match self.controls.validate(&self.domains) {
            Ok(()) => {},
            Err(fault) => {
                return Err(RequestFault::Controls(fault));
            },
        }
        if self.limits.max_cells == 0 || self.limits.max_chunks == 0
            || self.limits.target_chunk_bytes == 0 {
            return Err(
                RequestFault::Mesh(MeshError::invalid_input("meshing limits must be positive")),
            );
        }
        let dimension: u8 = self.domains[0].dimension;
        let mut i: usize = 0;
        while i < self.domains.len()
            invariant
                i <= self.domains@.len(),
                self.domains@.len() > 0,
                controls_valid(self.controls, self.domains@),
                limits_positive(self.limits),
                dimension == self.domains@[0].dimension,
                forall|k: int| 0 <= k < i ==> (#[trigger] self.domains@[k]).dimension == dimension,
            decreases self.domains@.len() - i,
        {
            if self.domains[i].dimension != dimension {
                assert(self.domains@[i as int].dimension != self.domains@[0].dimension);
                return Err(
                    RequestFault::Mesh(
                        MeshError::invalid_input("one mesh artifact cannot mix domain dimensions"),
                    ),
                );
            }
            i = i + 1;
        }
        Ok(dimension)
    }
}

/// The statistics with the end of another optimisation noted: the first end
/// that is not convergence stays.
pub fn record_quality_termination(statistics: &mut MeshingStatistics, termination: QualityTermination)
    ensures
        *final(statistics) == (MeshingStatistics {
            quality_termination: noted_termination(
                old(statistics).quality_termination,
                termination,
            ),
            ..*old(statistics)
        }),
{
    match statistics.quality_termination {
        QualityTermination::NotRun => {
            statistics.quality_termination = termination;
        },
        QualityTermination::Converged => {
            statistics.quality_termination = termination;
        },
        _ => {},
    }
}

pub open spec fn noted_termination(held: QualityTermination, fresh: QualityTermination) -> QualityTermination {
    if held == QualityTermination::NotRun || held == QualityTermination::Converged {
        fresh
    } else {
        held
    }
}

/// The first way to end that is no success stays noted, whatever comes after it, and it does
/// not matter how later ends are gathered.
pub proof fn first_failure_stays_noted(
    held: QualityTermination,
    fresh: QualityTermination,
    later: QualityTermination,
)
    ensures
        held is MaxCells || held is MemoryBudget || held is IterationLimit ==> noted_termination(
            held,
            fresh,
        ) == held,
        held is NotRun || held is Converged ==> noted_termination(held, fresh) == fresh,
        noted_termination(noted_termination(held, fresh), later) == noted_termination(
            held,
            noted_termination(fresh, later),
        ),
        noted_termination(held, held) == held,
{
}

} // verus!
