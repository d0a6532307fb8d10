//! Meshing what boundary layers leave over: which points stay, how the gap
//! before the front is graded, and how the ends of open layers are capped.

use vstd::prelude::*;

use crate::algorithm::QualityTermination;
use crate::assess::BoundaryEdge;
#[allow(unused_imports)]
use crate::assess::capped;
#[allow(unused_imports)]
use crate::edits::cell_capacity;
use crate::edits::cell_limit;
#[allow(unused_imports)]
use crate::error::fails_input;
use crate::error::{MeshError, MeshResult};
use crate::layers::{layer_error, saturating_product};
#[allow(unused_imports)]
use crate::layers::layer_message;
use crate::number::Real;
use crate::retriangulation::{constraint_ends, used_points};
#[allow(unused_imports)]
use crate::retriangulation::{in_cells, on_constraint};
use crate::sorted::{SortedMap, SortedSet};
#[allow(unused_imports)]
use crate::sorted::increasing_has_no_duplicates;
use crate::sweep_runs::MAX_OPTIMIZATION_BYTES;
use crate::text::sentence;
#[allow(unused_imports)]
use crate::text::decimal;
use crate::topology::{ordered_pair, Candidate, Cell, EdgeKey, Point, PointKey};
#[allow(unused_imports)]
use crate::topology::{cell_views, edge_key, CellView, VALID_QUALITY_BITS};

verus! {

/// The boundary edges that no layer grows from, by their names.
pub open spec fn is_bare_edge(
    boundary: Seq<BoundaryEdge>,
    controlled: Set<EdgeKey>,
    edge: EdgeKey,
) -> bool {
    !controlled.contains(edge) && exists|i: int|
        0 <= i < boundary.len() && #[trigger] boundary_key(boundary[i]) == edge
}

pub open spec fn boundary_key(edge: BoundaryEdge) -> EdgeKey {
    edge_key(edge.points[0], edge.points[1])
}

/// The edges that the core must keep: the bare boundary edges and those of the
/// strips.
pub fn core_constraints(
    boundary: &Vec<BoundaryEdge>,
    controlled: &SortedSet<EdgeKey>,
    strip: &SortedSet<EdgeKey>,
) -> (result: SortedSet<EdgeKey>)
    requires
        controlled.wf(),
    ensures
        result.wf(),
        forall|edge: EdgeKey| #[trigger]
            result@.contains(edge) <==> is_bare_edge(boundary@, controlled@, edge)
                || strip@.contains(edge),
{
    let mut edges = SortedSet::<EdgeKey>::new();
    let mut i: usize = 0;
    while i < boundary.len()
        invariant
            i <= boundary@.len(),
            controlled.wf(),
            edges.wf(),
            forall|edge: EdgeKey| #[trigger]
                edges@.contains(edge) <==> is_bare_edge(
                    boundary@.take(i as int),
                    controlled@,
                    edge,
                ),
        decreases boundary@.len() - i,
    {
        let ghost before = edges@;
        let key = ordered_pair(boundary[i].points[0], boundary[i].points[1]);
        if !controlled.contains(&key) {
            edges.insert(key);
        }
        assert forall|edge: EdgeKey| #[trigger] edges@.contains(edge) <==> is_bare_edge(
            boundary@.take(i + 1),
            controlled@,
            edge,
        ) by {
            let less = boundary@.take(i as int);
            let more = boundary@.take(i + 1);
            assert(boundary_key(more[i as int]) == key);
            assert(before.contains(edge) <==> is_bare_edge(less, controlled@, edge));
            if exists|p: int| 0 <= p < less.len() && #[trigger] boundary_key(less[p]) == edge {
                let p = choose|p: int|
                    0 <= p < less.len() && #[trigger] boundary_key(less[p]) == edge;
                assert(boundary_key(more[p]) == edge);
            }
            if exists|p: int| 0 <= p < more.len() && #[trigger] boundary_key(more[p]) == edge {
                let p = choose|p: int|
                    0 <= p < more.len() && #[trigger] boundary_key(more[p]) == edge;
                if p < i {
                    assert(boundary_key(less[p]) == edge);
                }
            }
        }
        i = i + 1;
    }
    assert(boundary@.take(i as int) =~= boundary@);
    let ghost bare = edges@;
    let mut k: usize = 0;
    while k < strip.items.len()
        invariant
            k <= strip.items@.len(),
            edges.wf(),
            forall|edge: EdgeKey| #[trigger]
                edges@.contains(edge) <==> bare.contains(edge) || exists|p: int|
                    0 <= p < k && #[trigger] strip.items@[p] == edge,
        decreases strip.items@.len() - k,
    {
        let ghost before = edges@;
        edges.insert(strip.items[k]);
        assert forall|edge: EdgeKey| #[trigger] edges@.contains(edge) <==> bare.contains(edge)
            || exists|p: int| 0 <= p < k + 1 && #[trigger] strip.items@[p] == edge by {
            assert(before.contains(edge) <==> bare.contains(edge) || exists|p: int|
                0 <= p < k && #[trigger] strip.items@[p] == edge);
            if edge == strip.items@[k as int] {
                assert(edges@.contains(edge));
            }
        }
        k = k + 1;
    }
    assert forall|edge: EdgeKey| #[trigger] edges@.contains(edge) <==> is_bare_edge(
        boundary@,
        controlled@,
        edge,
    ) || strip@.contains(edge) by {
        assert(bare.contains(edge) <==> is_bare_edge(boundary@, controlled@, edge));
        if strip@.contains(edge) {
            let p = strip.items@.index_of(edge);
            assert(strip.items@[p] == edge);
        }
        if exists|p: int| 0 <= p < k && #[trigger] strip.items@[p] == edge {
            assert(strip.items@.contains(edge));
        }
    }
    edges
}

/// What was measured of a point: whether it lies in a strip, and whether it is
/// too near a front.
#[derive(Debug, Clone, Copy, PartialEq, Eq, Structural)]
pub struct CorePoint {
    pub in_strip: bool,
    pub near_front: bool,
}

/// The point stays in the core: it is held by a constraint or a strip, or is
/// clear of the strips and their fronts.
pub open spec fn stays_in_core(
    strip: Seq<CellView>,
    constraints: Set<EdgeKey>,
    key: PointKey,
    measure: CorePoint,
) -> bool {
    on_constraint(constraints, key) || in_cells(strip, key) || (!measure.in_strip
        && !measure.near_front)
}

fn core_points(
    points: &SortedMap<PointKey, Point>,
    strip: &Vec<Cell>,
    constraints: &SortedSet<EdgeKey>,
    measures: &Vec<CorePoint>,
) -> (result: SortedSet<PointKey>)
    requires
        points.wf(),
        measures@.len() == points.keys@.len(),
    ensures
        result.wf(),
        forall|i: int|
            0 <= i < points.keys@.len() ==> (result@.contains(#[trigger] points.keys@[i])
                <==> stays_in_core(
                cell_views(strip@),
                constraints@,
                points.keys@[i],
                measures@[i],
            )),
{
    let ends = constraint_ends(constraints);
    let used = used_points(strip);
    let mut kept = SortedSet::<PointKey>::new();
    let mut i: usize = 0;
    while i < points.keys.len()
        invariant
            i <= points.keys@.len(),
            points.wf(),
            measures@.len() == points.keys@.len(),
            ends.wf(),
            used.wf(),
            forall|key: PointKey| #[trigger]
                ends@.contains(key) <==> on_constraint(constraints@, key),
            forall|key: PointKey| #[trigger]
                used@.contains(key) <==> in_cells(cell_views(strip@), key),
            kept.wf(),
            forall|k: int|
                0 <= k < i ==> (kept@.contains(#[trigger] points.keys@[k]) <==> stays_in_core(
                    cell_views(strip@),
                    constraints@,
                    points.keys@[k],
                    measures@[k],
                )),
            forall|key: PointKey| #[trigger]
                kept@.contains(key) ==> exists|k: int| 0 <= k < i && points.keys@[k] == key,
        decreases points.keys@.len() - i,
    {
        let ghost before = kept@;
        let key = points.keys[i];
        proof {
            increasing_has_no_duplicates(points.keys@);
            assert(!before.contains(key));
            assert(ends@.contains(key) <==> on_constraint(constraints@, key));
            assert(used@.contains(key) <==> in_cells(cell_views(strip@), key));
        }
        if ends.contains(&key) || used.contains(&key) || (!measures[i].in_strip
            && !measures[i].near_front) {
            kept.insert(key);
        }
        assert forall|other: PointKey| #[trigger] kept@.contains(other) implies exists|k: int|
            0 <= k < i + 1 && points.keys@[k] == other by {
            if other == key {
                assert(points.keys@[i as int] == other);
            } else {
                assert(before.contains(other));
            }
        }
        i = i + 1;
    }
    kept
}

/// The two ends of the edge are known.
pub open spec fn ends_known(points: Map<PointKey, Point>, edge: EdgeKey) -> bool {
    points.dom().contains(edge.0) && points.dom().contains(edge.1)
}

/// Keeps the targets of edges, both ends of which are known.
pub fn keep_known_targets(
    targets: &mut SortedMap<EdgeKey, Real>,
    points: &SortedMap<PointKey, Point>,
)
    requires
        old(targets).wf(),
        points.wf(),
    ensures
        final(targets).wf(),
        forall|edge: EdgeKey| #[trigger]
            final(targets)@.dom().contains(edge) <==> old(targets)@.dom().contains(edge)
                && ends_known(points@, edge),
        forall|edge: EdgeKey| #[trigger]
            final(targets)@.dom().contains(edge) ==> final(targets)@[edge] == old(targets)@[edge],
{
    let mut kept = SortedSet::<EdgeKey>::new();
    let mut i: usize = 0;
    while i < targets.keys.len()
        invariant
            i <= targets.keys@.len(),
            *targets == *old(targets),
            points.wf(),
            kept.wf(),
            forall|edge: EdgeKey| #[trigger]
                kept@.contains(edge) <==> ends_known(points@, edge) && exists|k: int|
                    0 <= k < i && #[trigger] targets.keys@[k] == edge,
        decreases targets.keys@.len() - i,
    {
        let ghost before = kept@;
        let key = targets.keys[i];
        if points.contains_key(&key.0) && points.contains_key(&key.1) {
            kept.insert(key);
        }
        assert forall|edge: EdgeKey| #[trigger] kept@.contains(edge) <==> ends_known(points@, edge)
            && exists|k: int| 0 <= k < i + 1 && #[trigger] targets.keys@[k] == edge by {
            assert(before.contains(edge) <==> ends_known(points@, edge) && exists|k: int|
                0 <= k < i && #[trigger] targets.keys@[k] == edge);
            if edge == key {
                assert(targets.keys@[i as int] == edge);
            }
        }
        i = i + 1;
    }
    assert forall|edge: EdgeKey| targets@.dom().contains(edge) implies (kept@.contains(edge)
        <==> ends_known(points@, edge)) by {
        let k = targets.keys@.index_of(edge);
        assert(targets.keys@[k] == edge);
    }
    targets.restrict(&kept);
}

/// Clears the core: its points that lie in a strip or too near a front go, and
/// with them the targets of their edges and the cells that stood there.
pub fn clear_core(
    candidate: &mut Candidate,
    strip: &Vec<Cell>,
    constraints: &SortedSet<EdgeKey>,
    measures: &Vec<CorePoint>,
)
    requires
        old(candidate).wf(),
        measures@.len() == old(candidate).points.keys@.len(),
    ensures
        final(candidate).wf(),
        final(candidate).cells@.len() == 0,
        final(candidate).next_inserted == old(candidate).next_inserted,
        final(candidate).construction_failures == old(candidate).construction_failures,
        forall|i: int|
            0 <= i < measures@.len() ==> (final(candidate).points@.dom().contains(
                #[trigger] old(candidate).points.keys@[i],
            ) <==> stays_in_core(
                cell_views(strip@),
                constraints@,
                old(candidate).points.keys@[i],
                measures@[i],
            )),
        forall|key: PointKey| #[trigger]
            final(candidate).points@.dom().contains(key) ==> old(candidate).points@.dom().contains(
                key,
            ) && final(candidate).points@[key] == old(candidate).points@[key],
        forall|edge: EdgeKey| #[trigger]
            final(candidate).layer_edge_targets@.dom().contains(edge) <==> old(candidate).layer_edge_targets@.dom().contains(edge) && ends_known(
                final(candidate).points@,
                edge,
            ),
        forall|edge: EdgeKey| #[trigger]
            final(candidate).layer_edge_targets@.dom().contains(edge) ==> final(candidate).layer_edge_targets@[edge] == old(candidate).layer_edge_targets@[edge],
{
    let kept = core_points(&candidate.points, strip, constraints, measures);
    let ghost start = *candidate;
    candidate.cells = Vec::new();
    candidate.points.restrict(&kept);
    keep_known_targets(&mut candidate.layer_edge_targets, &candidate.points);
    assert forall|i: int| 0 <= i < measures@.len() implies (candidate.points@.dom().contains(
        #[trigger] start.points.keys@[i],
    ) <==> stays_in_core(
        cell_views(strip@),
        constraints@,
        start.points.keys@[i],
        measures@[i],
    )) by {
        start.points.entry_at(i);
        assert(kept@.contains(start.points.keys@[i]) <==> stays_in_core(
            cell_views(strip@),
            constraints@,
            start.points.keys@[i],
            measures@[i],
        ));
    }
}

/// What was measured of a quad of a strip.
#[derive(Debug, Clone, Copy)]
pub struct QuadMeasure {
    pub area: Real,
    /// The area at or below which the quad counts as inverted.
    pub area_floor: Real,
    pub quality: Real,
    pub self_intersecting: bool,
}

pub open spec fn broken_quad(measure: QuadMeasure) -> bool {
    ||| measure.area.le(measure.area_floor)
    ||| measure.quality.le(Real { bits: VALID_QUALITY_BITS })
    ||| measure.self_intersecting
}

/// What was measured of a point of a strip: how far it is from its height, how
/// far it may be, and the sentence for a point that is too far.
#[derive(Debug)]
pub struct LevelMeasure {
    pub residual: Real,
    pub tolerance: Real,
    pub note: String,
}

pub open spec fn off_level(measure: LevelMeasure) -> bool {
    measure.tolerance.lt(measure.residual)
}

/// The first of the points that is off its height.
pub open spec fn first_off_level(levels: Seq<LevelMeasure>, from: int) -> Option<int>
    decreases levels.len() - from,
{
    if from >= levels.len() {
        None
    } else if off_level(levels[from]) {
        Some(from)
    } else {
        first_off_level(levels, from + 1)
    }
}

/// The strip has quads, and nothing but protected quads.
pub open spec fn complete_strip(cells: Seq<CellView>) -> bool {
    cells.len() > 0 && forall|i: int|
        0 <= i < cells.len() ==> (#[trigger] cells[i]).points.len() == 4 && cells[i].protected
}

pub open spec fn has_broken_quad(measures: Seq<QuadMeasure>) -> bool {
    exists|i: int| 0 <= i < measures.len() && broken_quad(#[trigger] measures[i])
}

/// Why a strip is refused, where it is.
pub open spec fn strip_fault(
    cells: Seq<CellView>,
    measures: Seq<QuadMeasure>,
    levels: Seq<LevelMeasure>,
    crossing: bool,
) -> Option<Seq<char>> {
    if !complete_strip(cells) {
        Some("did not produce a complete protected quad4 strip"@)
    } else if has_broken_quad(measures) {
        Some("contains an inverted, crossed, or degenerate quad"@)
    } else if first_off_level(levels, 0) is Some {
        Some(levels[first_off_level(levels, 0)->0].note@)
    } else if crossing {
        Some("rows or columns self-intersect at a concave boundary feature"@)
    } else {
        None
    }
}

/// Refuses a strip that is incomplete, has a broken quad or a point off its
/// height, or edges that cross. There is one measure for each cell.
pub fn validate_strip(
    domain: &str,
    cells: &Vec<Cell>,
    measures: &Vec<QuadMeasure>,
    levels: &Vec<LevelMeasure>,
    crossing: bool,
) -> (result: MeshResult<()>)
    requires
        measures@.len() == cells@.len(),
    ensures
        match strip_fault(cell_views(cells@), measures@, levels@, crossing) {
            Some(reason) => fails_input(result, layer_message(domain@, reason)),
            None => result is Ok,
        },
{
    let ghost views = cell_views(cells@);
    if cells.len() == 0 {
        return Err(layer_error(domain, "did not produce a complete protected quad4 strip"));
    }
    let mut i: usize = 0;
    while i < cells.len()
        invariant
            i <= cells@.len(),
            views == cell_views(cells@),
            forall|k: int|
                0 <= k < i ==> (#[trigger] views[k]).points.len() == 4 && views[k].protected,
        decreases cells@.len() - i,
    {
        assert(views[i as int] == cells@[i as int]@);
        if cells[i].points.len() != 4 || !cells[i].protected {
            return Err(layer_error(domain, "did not produce a complete protected quad4 strip"));
        }
        i = i + 1;
    }
    let valid = Real { bits: VALID_QUALITY_BITS };
    let mut k: usize = 0;
    while k < measures.len()
        invariant
            k <= measures@.len(),
            views == cell_views(cells@),
            complete_strip(views),
            valid == (Real { bits: VALID_QUALITY_BITS }),
            forall|p: int| 0 <= p < k ==> !broken_quad(#[trigger] measures@[p]),
        decreases measures@.len() - k,
    {
        let measure = measures[k];
        if measure.area.at_most(measure.area_floor) || measure.quality.at_most(valid)
            || measure.self_intersecting {
            assert(broken_quad(measures@[k as int]));
            return Err(layer_error(domain, "contains an inverted, crossed, or degenerate quad"));
        }
        k = k + 1;
    }
    let mut l: usize = 0;
    while l < levels.len()
        invariant
            l <= levels@.len(),
            views == cell_views(cells@),
            complete_strip(views),
            !has_broken_quad(measures@),
            first_off_level(levels@, 0) == first_off_level(levels@, l as int),
        decreases levels@.len() - l,
    {
        if levels[l].tolerance.less(levels[l].residual) {
            return Err(layer_error(domain, levels[l].note.as_str()));
        }
        l = l + 1;
    }
    if crossing {
        return Err(
            layer_error(domain, "rows or columns self-intersect at a concave boundary feature"),
        );
    }
    Ok(())
}

/// The bytes that an optimisation of a mesh is taken to need: of a point 160,
/// of a cell 128, and all of it twice.
pub open spec fn optimization_bytes(points: nat, cells: nat) -> nat {
    capped(2 * (160 * points + 128 * cells))
}

pub fn estimated_optimization_bytes(points: usize, cells: usize) -> (result: usize)
    ensures
        result == optimization_bytes(points as nat, cells as nat),
{
    let of_points: usize = saturating_product(points, 160);
    let of_cells: usize = saturating_product(cells, 128);
    let sum: usize = of_points.saturating_add(of_cells);
    saturating_product(sum, 2)
}

/// How to triangulate a core.
#[derive(Debug, Clone, Copy, PartialEq, Eq, Structural)]
pub enum CoreWay {
    /// With rings of points before the front.
    Graded,
    /// As it is.
    Plain,
}

/// The way to begin with, and the limit that it is owed to.
pub fn first_way(bytes: usize) -> (result: (CoreWay, Option<QualityTermination>))
    ensures
        bytes > MAX_OPTIMIZATION_BYTES ==> result == (
            CoreWay::Plain,
            Some(QualityTermination::MemoryBudget),
        ),
        bytes <= MAX_OPTIMIZATION_BYTES ==> result == (
            CoreWay::Graded,
            None::<QualityTermination>,
        ),
{
    if bytes > MAX_OPTIMIZATION_BYTES {
        (CoreWay::Plain, Some(QualityTermination::MemoryBudget))
    } else {
        (CoreWay::Graded, None)
    }
}

/// What came of a triangulation of a core.
#[derive(Debug)]
pub enum CoreOutcome {
    /// So many cells.
    Cells(usize),
    Failed(MeshError),
}

/// What to do with the outcome of a triangulation.
#[derive(Debug)]
pub enum CoreStep {
    /// The cells are the mesh.
    Take,
    /// Go back and triangulate the core as it is; a limit may have been met.
    Retry(Option<QualityTermination>),
    Fail(MeshError),
}

pub open spec fn core_message(max_cells: u64) -> Seq<char> {
    "constrained boundary-layer mesh exceeds the configured "@ + decimal(max_cells as nat)
        + " cell limit"@
}

/// What to do after a triangulation: a graded one that is refused or too large
/// is made again without the grading.
pub fn after_core(way: CoreWay, outcome: CoreOutcome, max_cells: u64) -> (result: CoreStep)
    ensures
        match outcome {
            CoreOutcome::Cells(count) => {
                &&& count <= cell_capacity(max_cells) ==> result is Take
                &&& count > cell_capacity(max_cells) && way == CoreWay::Graded ==> result
                    == CoreStep::Retry(Some(QualityTermination::MaxCells))
                &&& count > cell_capacity(max_cells) && way == CoreWay::Plain ==> (
                result matches CoreStep::Fail(error) && error is LimitExceeded && error.text()
                    == core_message(max_cells))
            },
            CoreOutcome::Failed(error) => if way == CoreWay::Graded && error is InvalidInput {
                result == CoreStep::Retry(None)
            } else {
                result == CoreStep::Fail(error)
            },
        },
{
    match outcome {
        CoreOutcome::Cells(count) => {
            if count <= cell_limit(max_cells) {
                CoreStep::Take
            } else {
                match way {
                    CoreWay::Graded => CoreStep::Retry(Some(QualityTermination::MaxCells)),
                    CoreWay::Plain => CoreStep::Fail(
                        MeshError::LimitExceeded(
                            sentence(
                                "constrained boundary-layer mesh exceeds the configured ",
                                max_cells,
                                " cell limit",
                            ),
                        ),
                    ),
                }
            }
        },
        CoreOutcome::Failed(error) => match (way, error) {
            (CoreWay::Graded, MeshError::InvalidInput(_)) => CoreStep::Retry(None),
            (_, error) => CoreStep::Fail(error),
        },
    }
}

/// The first point off its height is found.
pub proof fn first_off_level_is_first(levels: Seq<LevelMeasure>, from: int)
    requires
        0 <= from <= levels.len(),
    ensures
        match first_off_level(levels, from) {
            Some(place) => from <= place < levels.len() && levels[place].tolerance.lt(
                levels[place].residual,
            ) && forall|i: int|
                from <= i < place ==> !(#[trigger] levels[i]).tolerance.lt(levels[i].residual),
            None => forall|i: int|
                from <= i < levels.len() ==> !(#[trigger] levels[i]).tolerance.lt(
                    levels[i].residual,
                ),
        },
    decreases levels.len() - from,
{
    if from < levels.len() {
        first_off_level_is_first(levels, from + 1);
    }
}

/// A strip is accepted exactly where it has quads and protected quads alone, each with an
/// area and a quality above the floors and not crossed, every point at its height, and
/// no row or column crosses another.
pub proof fn sound_strip_is_accepted(
    cells: Seq<CellView>,
    measures: Seq<QuadMeasure>,
    levels: Seq<LevelMeasure>,
    crossing: bool,
)
    ensures
        strip_fault(cells, measures, levels, crossing) is None <==> {
            &&& cells.len() > 0
            &&& forall|i: int|
                0 <= i < cells.len() ==> (#[trigger] cells[i]).points.len() == 4
                    && cells[i].protected
            &&& forall|i: int|
                0 <= i < measures.len() ==> !(#[trigger] measures[i]).area.le(
                    measures[i].area_floor,
                ) && !measures[i].quality.le(Real { bits: VALID_QUALITY_BITS })
                    && !measures[i].self_intersecting
            &&& forall|i: int|
                0 <= i < levels.len() ==> !(#[trigger] levels[i]).tolerance.lt(levels[i].residual)
            &&& !crossing
        },
{
    first_off_level_is_first(levels, 0);
    if has_broken_quad(measures) {
        let i = choose|i: int| 0 <= i < measures.len() && broken_quad(#[trigger] measures[i]);
        assert(broken_quad(measures[i]));
        assert(measures[i].area.le(measures[i].area_floor) || measures[i].quality.le(
            Real { bits: VALID_QUALITY_BITS },
        ) || measures[i].self_intersecting);
    } else {
        assert forall|i: int| 0 <= i < measures.len() implies !(#[trigger] measures[i]).area.le(
            measures[i].area_floor,
        ) && !measures[i].quality.le(Real { bits: VALID_QUALITY_BITS })
            && !measures[i].self_intersecting by {
            assert(!broken_quad(measures[i]));
        }
    }
    if let Some(place) = first_off_level(levels, 0) {
        assert(levels[place].tolerance.lt(levels[place].residual));
    }
}

} // verus!
