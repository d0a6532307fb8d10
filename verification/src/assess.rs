//! The audit of a 2D mesh: what is invalid, what misses its target, and how
//! the whole scores.
//!
//! The caller measures each cell, each edge and each boundary edge; the audit
//! turns the measures and the connectivity into findings, in a fixed order,
//! and sums the findings up.

use vstd::prelude::*;

use crate::incidence::{cell_sides, EdgeMap, Side};
#[allow(unused_imports)]
use crate::incidence::{all_sides, side_in, sides_on, sides_on_are_sides};
use crate::number::{Real, Vector3};
use crate::quadtree::Leaf;
use crate::score::{Entity, PatchScore, Violation};
use crate::sorted::{sort_keys, Key, SortedMap, SortedSet};
#[allow(unused_imports)]
use crate::sorted::{increasing, ordered};
use crate::topology::{Candidate, Cell, EdgeKey, PointKey, VALID_QUALITY_BITS};
#[allow(unused_imports)]
use crate::topology::{cell_known, cell_views, CellView};

verus! {

/// The Scaled Jacobian that every cell should reach: `0.4`.
pub const QUALITY_TARGET_BITS: u64 = 0x3fd9_9999_9999_999a;

/// The bits of `1.0`.
pub const ONE_BITS: u64 = 0x3ff0_0000_0000_0000;

/// What was measured of a cell.
#[derive(Debug)]
pub struct CellMeasure {
    pub area: Real,
    /// The area at or below which the cell counts as inverted.
    pub area_floor: Real,
    pub quality: Real,
    /// By how much the quality misses the target.
    pub shortfall: Real,
    pub self_intersecting: bool,
    /// The sentence for a misshapen cell, where it is not the usual one.
    pub shape_note: Option<String>,
    /// How far the cell leaves the domain, and how far it may.
    pub residual: Real,
    pub residual_limit: Real,
    /// The sentence for a cell that leaves the domain too far.
    pub escape_note: String,
    pub centroid: Vector3,
}

/// What was measured of an edge: by how much its length misses the target, and
/// whether the two cells beside it must run along it in opposite directions.
#[derive(Debug, Clone, Copy)]
pub struct EdgeMeasure {
    pub severity: Real,
    pub directed: bool,
}

/// What was measured of an exposed edge.
#[derive(Debug)]
pub struct BoundaryMeasure {
    /// The edge does not lie on the domain's boundary.
    pub off_boundary: bool,
    /// The boundary was recognised at the edge.
    pub classified: bool,
    pub region: Option<String>,
    /// The distance from the boundary, its limit, and the severity where the
    /// limit is passed.
    pub residual: Real,
    pub residual_limit: Real,
    pub severity: Real,
    pub midpoint: Vector3,
}

/// One thing that the audit found.
#[derive(Debug)]
pub enum Finding {
    /// A leaf must be refined.
    Invalid { leaf: Leaf, reason: String, location: Vector3 },
    /// A target is missed.
    Unmet { violation: Violation, spot: Option<Vector3> },
}

#[verifier::ext_equal]
pub enum FindingView {
    Invalid { leaf: Leaf, reason: Seq<char>, location: Vector3 },
    Unmet { violation: Violation, spot: Option<Vector3> },
}

impl View for Finding {
    type V = FindingView;

    open spec fn view(&self) -> FindingView {
        match *self {
            Finding::Invalid { leaf, reason, location } => FindingView::Invalid {
                leaf,
                reason: reason@,
                location,
            },
            Finding::Unmet { violation, spot } => FindingView::Unmet { violation, spot },
        }
    }
}

pub open spec fn finding_views(findings: Seq<Finding>) -> Seq<FindingView> {
    findings.map_values(|finding: Finding| finding@)
}

fn invalid(leaf: Leaf, reason: &str, location: Vector3) -> (result: Finding)
    ensures
        result@ == (FindingView::Invalid { leaf, reason: reason@, location }),
{
    Finding::Invalid { leaf, reason: reason.to_owned(), location }
}

/// An earlier cell has the same points.
pub open spec fn repeats(cells: Seq<CellView>, index: int) -> bool {
    exists|earlier: int|
        0 <= earlier < index && #[trigger] cells[earlier].points.to_multiset()
            == cells[index].points.to_multiset()
}

/// The cell is inverted, degenerate or crosses itself.
pub open spec fn misshapen(cell: CellView, measure: CellMeasure) -> bool {
    ||| measure.area.le(measure.area_floor)
    ||| measure.quality.le(Real { bits: VALID_QUALITY_BITS })
    ||| cell.points.len() == 4 && measure.self_intersecting
}

/// The sentence for a misshapen cell.
pub open spec fn shape_reason(measure: CellMeasure) -> Seq<char> {
    match measure.shape_note {
        Some(note) => note@,
        None =>
            "cell is inverted, self-intersecting, degenerate, or below the Scaled Jacobian validity floor"@,
    }
}

/// What the audit finds of one cell.
pub open spec fn cell_findings(cells: Seq<CellView>, index: int, measure: CellMeasure) -> Seq<
    FindingView,
> {
    let cell = cells[index];
    let double = if repeats(cells, index) {
        seq![
            FindingView::Invalid {
                leaf: cell.leaf,
                reason: "duplicate cell connectivity"@,
                location: measure.centroid,
            },
        ]
    } else {
        Seq::empty()
    };
    let shape = if misshapen(cell, measure) {
        seq![
            FindingView::Invalid {
                leaf: cell.leaf,
                reason: shape_reason(measure),
                location: measure.centroid,
            },
        ]
    } else if measure.residual_limit.lt(measure.residual) {
        seq![
            FindingView::Invalid {
                leaf: cell.leaf,
                reason: measure.escape_note@,
                location: measure.centroid,
            },
        ]
    } else if measure.quality.lt(Real { bits: QUALITY_TARGET_BITS }) {
        seq![
            FindingView::Unmet {
                violation: Violation {
                    severity: measure.shortfall,
                    entity: Entity::Cell(index as usize),
                },
                spot: Some(measure.centroid),
            },
        ]
    } else {
        Seq::empty()
    };
    double + shape
}

/// What the audit finds of the first `count` cells.
pub open spec fn findings_of_cells(cells: Seq<CellView>, measures: Seq<CellMeasure>, count: int) -> Seq<
    FindingView,
>
    decreases count,
{
    if count <= 0 {
        Seq::empty()
    } else {
        findings_of_cells(cells, measures, count - 1) + cell_findings(
            cells,
            count - 1,
            measures[count - 1],
        )
    }
}

/// One finding for each cell beside an edge.
pub open spec fn side_findings(
    cells: Seq<CellView>,
    measures: Seq<CellMeasure>,
    sides: Seq<Side>,
    reason: Seq<char>,
) -> Seq<FindingView> {
    sides.map_values(
        |side: Side|
            FindingView::Invalid {
                leaf: cells[side.cell as int].leaf,
                reason,
                location: measures[side.cell as int].centroid,
            },
    )
}

/// The two cells beside an edge run along it in the same direction.
pub open spec fn same_way(sides: Seq<Side>) -> bool {
    sides.len() == 2 && sides[0].from == sides[1].from && sides[0].to == sides[1].to
}

/// What the audit finds of one edge.
pub open spec fn edge_findings(
    cells: Seq<CellView>,
    measures: Seq<CellMeasure>,
    edge: EdgeKey,
    sides: Seq<Side>,
    measure: EdgeMeasure,
) -> Seq<FindingView> {
    let miss = if (Real { bits: 0 }).lt(measure.severity) {
        seq![
            FindingView::Unmet {
                violation: Violation {
                    severity: measure.severity,
                    entity: Entity::Edge(edge.0, edge.1),
                },
                spot: None::<Vector3>,
            },
        ]
    } else {
        Seq::empty()
    };
    let crowd = if sides.len() > 2 {
        side_findings(cells, measures, sides, "non-manifold cell edge incidence"@)
    } else if measure.directed && same_way(sides) {
        side_findings(
            cells,
            measures,
            sides,
            "adjacent cells traverse their shared edge in the same direction"@,
        )
    } else {
        Seq::empty()
    };
    miss + crowd
}

/// What the audit finds of the first `count` edges.
pub open spec fn findings_of_edges(
    cells: Seq<CellView>,
    measures: Seq<CellMeasure>,
    keys: Seq<EdgeKey>,
    edge_measures: Seq<EdgeMeasure>,
    count: int,
) -> Seq<FindingView>
    decreases count,
{
    if count <= 0 {
        Seq::empty()
    } else {
        findings_of_edges(cells, measures, keys, edge_measures, count - 1) + edge_findings(
            cells,
            measures,
            keys[count - 1],
            sides_on(all_sides(cells), keys[count - 1]),
            edge_measures[count - 1],
        )
    }
}

/// The sides that no other cell shares, by edge, among the first `count`.
pub open spec fn exposed_sides(sides: Seq<Side>, keys: Seq<EdgeKey>, count: int) -> Seq<Side>
    decreases count,
{
    if count <= 0 {
        Seq::empty()
    } else {
        let rest = exposed_sides(sides, keys, count - 1);
        let here = sides_on(sides, keys[count - 1]);
        if here.len() == 1 {
            rest.push(here[0])
        } else {
            rest
        }
    }
}

/// What the audit finds of one exposed edge.
pub open spec fn boundary_findings(cells: Seq<CellView>, side: Side, measure: BoundaryMeasure) -> Seq<
    FindingView,
> {
    let leaf = cells[side.cell as int].leaf;
    let place = if measure.off_boundary {
        seq![
            FindingView::Invalid {
                leaf,
                reason: "exposed cell edge is not owned by the SDF boundary"@,
                location: measure.midpoint,
            },
        ]
    } else if !measure.classified {
        seq![
            FindingView::Invalid {
                leaf,
                reason: "SDF boundary ownership classification failed"@,
                location: measure.midpoint,
            },
        ]
    } else {
        Seq::empty()
    };
    let miss = if measure.residual_limit.lt(measure.residual) {
        seq![
            FindingView::Unmet {
                violation: Violation {
                    severity: measure.severity,
                    entity: Entity::Edge(side.edge().0, side.edge().1),
                },
                spot: None::<Vector3>,
            },
        ]
    } else {
        Seq::empty()
    };
    place + miss
}

/// What the audit finds of the first `count` exposed edges.
pub open spec fn findings_of_boundary(
    cells: Seq<CellView>,
    exposed: Seq<Side>,
    measures: Seq<BoundaryMeasure>,
    count: int,
) -> Seq<FindingView>
    decreases count,
{
    if count <= 0 {
        Seq::empty()
    } else {
        findings_of_boundary(cells, exposed, measures, count - 1) + boundary_findings(
            cells,
            exposed[count - 1],
            measures[count - 1],
        )
    }
}

/// How many ends of the exposed edges are at the point.
pub open spec fn degree(exposed: Seq<Side>, point: PointKey) -> nat
    decreases exposed.len(),
{
    if exposed.len() == 0 {
        0
    } else {
        degree(exposed.drop_last(), point) + (if exposed.last().from == point {
            1nat
        } else {
            0nat
        }) + (if exposed.last().to == point {
            1nat
        } else {
            0nat
        })
    }
}

/// The first exposed edge with an end at the point.
pub open spec fn first_edge(exposed: Seq<Side>, point: PointKey) -> Option<Side>
    decreases exposed.len(),
{
    if exposed.len() == 0 {
        None
    } else {
        match first_edge(exposed.drop_last(), point) {
            Some(side) => Some(side),
            None => if exposed.last().from == point || exposed.last().to == point {
                Some(exposed.last())
            } else {
                None
            },
        }
    }
}

/// What the audit finds of the first `count` boundary vertices.
pub open spec fn findings_of_vertices(
    candidate: Candidate,
    exposed: Seq<Side>,
    vertices: Seq<PointKey>,
    count: int,
) -> Seq<FindingView>
    decreases count,
{
    if count <= 0 {
        Seq::empty()
    } else {
        let rest = findings_of_vertices(candidate, exposed, vertices, count - 1);
        let vertex = vertices[count - 1];
        if degree(exposed, vertex) == 2 {
            rest
        } else {
            rest.push(
                FindingView::Invalid {
                    leaf: candidate.cells_view()[(first_edge(exposed, vertex)->0).cell as int].leaf,
                    reason: "boundary vertex does not have manifold degree two"@,
                    location: candidate.points@[vertex].world,
                },
            )
        }
    }
}

/// The point is an end of an exposed edge.
pub open spec fn on_exposed(exposed: Seq<Side>, point: PointKey) -> bool {
    exists|i: int|
        0 <= i < exposed.len() && ((#[trigger] exposed[i]).from == point || exposed[i].to == point)
}

/// The reason and the place of the first trouble.
pub struct Trouble {
    pub reason: Option<Seq<char>>,
    pub location: Option<Vector3>,
}

/// The first invalid finding gives reason and place; before it, a missed
/// target may give a place.
pub open spec fn trouble(findings: Seq<FindingView>, start: Trouble) -> Trouble
    decreases findings.len(),
{
    if findings.len() == 0 {
        start
    } else {
        let before = trouble(findings.drop_last(), start);
        match findings.last() {
            FindingView::Invalid { leaf, reason, location } => if before.reason is None {
                Trouble { reason: Some(reason), location: Some(location) }
            } else {
                before
            },
            FindingView::Unmet { violation, spot } => if before.location is None {
                Trouble { reason: before.reason, location: spot }
            } else {
                before
            },
        }
    }
}

/// The missed targets, in the order found.
pub open spec fn violations_of(findings: Seq<FindingView>) -> Seq<Violation>
    decreases findings.len(),
{
    if findings.len() == 0 {
        Seq::empty()
    } else {
        let rest = violations_of(findings.drop_last());
        match findings.last() {
            FindingView::Unmet { violation, spot } => rest.push(violation),
            _ => rest,
        }
    }
}

/// How many findings are invalid ones.
pub open spec fn invalid_count(findings: Seq<FindingView>) -> nat {
    (findings.len() - violations_of(findings).len()) as nat
}

/// The leaves to refine: those given and those of the invalid findings.
pub open spec fn leaves_to_refine(findings: Seq<FindingView>, start: Set<Leaf>) -> Set<Leaf>
    decreases findings.len(),
{
    if findings.len() == 0 {
        start
    } else {
        let rest = leaves_to_refine(findings.drop_last(), start);
        match findings.last() {
            FindingView::Invalid { leaf, reason, location } => rest.insert(leaf),
            _ => rest,
        }
    }
}

/// The smaller of two numbers; a NaN loses.
pub open spec fn smaller(a: Real, b: Real) -> Real {
    if b.nan() {
        a
    } else if a.nan() || b.lt(a) {
        b
    } else {
        a
    }
}

/// The worst quality of the first `count` cells, and at most 1.
pub open spec fn worst_of(measures: Seq<CellMeasure>, count: int) -> Real
    decreases count,
{
    if count <= 0 {
        Real { bits: ONE_BITS }
    } else {
        smaller(worst_of(measures, count - 1), measures[count - 1].quality)
    }
}

/// How many cells have that many points.
pub open spec fn count_arity(cells: Seq<CellView>, arity: nat) -> nat
    decreases cells.len(),
{
    if cells.len() == 0 {
        0
    } else {
        count_arity(cells.drop_last(), arity) + (if cells.last().points.len() == arity {
            1nat
        } else {
            0nat
        })
    }
}

/// The name of a set of three or four points: how many, and the points in
/// order.
type Signature = (usize, ((PointKey, PointKey), (PointKey, PointKey)));

spec fn packed(sorted: Seq<PointKey>) -> Signature {
    if sorted.len() == 3 {
        (3usize, ((sorted[0], sorted[1]), (sorted[2], sorted[2])))
    } else {
        (4usize, ((sorted[0], sorted[1]), (sorted[2], sorted[3])))
    }
}

spec fn signature_fits(signature: Signature, points: Seq<PointKey>) -> bool {
    exists|sorted: Seq<PointKey>| #[trigger]
        ordered(sorted) && sorted.to_multiset() == points.to_multiset() && signature == packed(
            sorted,
        )
}

proof fn signatures_tell_points(a: Signature, x: Seq<PointKey>, b: Signature, y: Seq<PointKey>)
    requires
        signature_fits(a, x),
        signature_fits(b, y),
        x.len() == 3 || x.len() == 4,
        y.len() == 3 || y.len() == 4,
    ensures
        a == b <==> x.to_multiset() == y.to_multiset(),
{
    let s = choose|sorted: Seq<PointKey>| #[trigger]
        ordered(sorted) && sorted.to_multiset() == x.to_multiset() && a == packed(sorted);
    let t = choose|sorted: Seq<PointKey>| #[trigger]
        ordered(sorted) && sorted.to_multiset() == y.to_multiset() && b == packed(sorted);
    crate::sorted::rearranged(s, x);
    crate::sorted::rearranged(t, y);
    if a == b {
        assert(s =~= t);
    }
    if x.to_multiset() == y.to_multiset() {
        crate::sorted::ordered_sequence_is_unique(s, t);
    }
}

fn signature(points: &Vec<PointKey>) -> (result: Signature)
    requires
        points@.len() == 3 || points@.len() == 4,
    ensures
        signature_fits(result, points@),
{
    let mut sorted = points.clone();
    assert(sorted@ =~= points@);
    sort_keys(&mut sorted);
    proof {
        crate::sorted::rearranged(sorted@, points@);
    }
    if sorted.len() == 3 {
        (3, ((sorted[0], sorted[1]), (sorted[2], sorted[2])))
    } else {
        (4, ((sorted[0], sorted[1]), (sorted[2], sorted[3])))
    }
}

/// Which cells repeat an earlier one.
fn repeated_cells(cells: &Vec<Cell>) -> (result: Vec<bool>)
    requires
        forall|i: int|
            0 <= i < cells.len() ==> (#[trigger] cells[i]).points@.len() == 3
                || cells[i].points@.len() == 4,
    ensures
        result.len() == cells.len(),
        forall|i: int| 0 <= i < result.len() ==> #[trigger] result[i] == repeats(cell_views(cells@), i),
{
    let ghost views = cell_views(cells@);
    let mut flags: Vec<bool> = Vec::new();
    let mut seen: SortedSet<Signature> = SortedSet::new();
    let ghost mut names: Seq<Signature> = Seq::empty();
    let mut i: usize = 0;
    while i < cells.len()
        invariant
            i <= cells.len(),
            views == cell_views(cells@),
            forall|k: int|
                0 <= k < cells.len() ==> (#[trigger] cells[k]).points@.len() == 3
                    || cells[k].points@.len() == 4,
            flags.len() == i,
            forall|k: int| 0 <= k < i ==> #[trigger] flags[k] == repeats(views, k),
            seen.wf(),
            names.len() == i,
            forall|k: int| 0 <= k < i ==> signature_fits(#[trigger] names[k], views[k].points),
            forall|name: Signature| #[trigger] seen@.contains(name) <==> names.contains(name),
        decreases cells.len() - i,
    {
        let name = signature(&cells[i].points);
        assert(views[i as int] == cells[i as int]@);
        let ghost before = seen@;
        let fresh = seen.insert(name);
        proof {
            if !fresh {
                let k = names.index_of(name);
                assert(names[k] == name);
                assert(views[k].points == cells[k].points@);
                signatures_tell_points(
                    names[k],
                    views[k].points,
                    name,
                    views[i as int].points,
                );
                assert(repeats(views, i as int));
            }
            if repeats(views, i as int) {
                let k = choose|k: int|
                    0 <= k < i && #[trigger] views[k].points.to_multiset()
                        == views[i as int].points.to_multiset();
                assert(views[k].points == cells[k].points@);
                signatures_tell_points(
                    names[k],
                    views[k].points,
                    name,
                    views[i as int].points,
                );
                assert(names.contains(names[k]));
            }
            let after = names.push(name);
            assert forall|other: Signature| #[trigger]
                seen@.contains(other) <==> after.contains(other) by {
                assert(before.contains(other) <==> names.contains(other));
                if names.contains(other) {
                    let k = names.index_of(other);
                    assert(after[k] == other);
                }
                if after.contains(other) && other != name {
                    let k = after.index_of(other);
                    assert(names[k] == other);
                }
                assert(after[i as int] == name);
            }
            names = after;
        }
        flags.push(!fresh);
        i = i + 1;
    }
    flags
}

/// The edges of a mesh with their sides, and the sides that are exposed.
pub struct Skeleton {
    pub edges: EdgeMap,
    pub exposed: Vec<Side>,
}

impl Skeleton {
    /// The edges in increasing order.
    pub open spec fn keys(self) -> Seq<EdgeKey> {
        self.edges.groups.keys@
    }

    pub open spec fn of_cells(self, cells: Seq<CellView>) -> bool {
        &&& self.edges.gathers(all_sides(cells))
        &&& self.exposed@ == exposed_sides(all_sides(cells), self.keys(), self.keys().len() as int)
        &&& forall|i: int| 0 <= i < self.exposed@.len() ==> side_in(#[trigger] self.exposed@[i], cells)
    }

    pub fn build(cells: &Vec<Cell>) -> (result: Skeleton)
        ensures
            result.of_cells(cell_views(cells@)),
    {
        let sides = cell_sides(cells);
        let edges = EdgeMap::gather(&sides);
        let ghost views = cell_views(cells@);
        let ghost keys = edges.groups.keys@;
        let mut exposed: Vec<Side> = Vec::new();
        let mut i: usize = 0;
        while i < edges.groups.keys.len()
            invariant
                i <= keys.len(),
                keys == edges.groups.keys@,
                edges.gathers(sides@),
                sides@ == all_sides(views),
                forall|k: int| 0 <= k < sides.len() ==> side_in(#[trigger] sides[k], views),
                exposed@ == exposed_sides(sides@, keys, i as int),
                forall|k: int| 0 <= k < exposed.len() ==> side_in(#[trigger] exposed[k], views),
            decreases keys.len() - i,
        {
            proof {
                edges.groups.entry_at(i as int);
                sides_on_are_sides(sides@, keys[i as int]);
            }
            if edges.groups.values[i].len() == 1 {
                let side = edges.groups.values[i][0];
                proof {
                    let here = sides_on(sides@, keys[i as int]);
                    assert(here[0] == side);
                    assert(sides@.contains(here[0]));
                    let k = sides@.index_of(side);
                    assert(side_in(sides[k], views));
                }
                exposed.push(side);
            }
            i = i + 1;
        }
        Skeleton { edges, exposed }
    }
}

proof fn push_view(findings: Seq<Finding>, finding: Finding)
    ensures
        finding_views(findings.push(finding)) == finding_views(findings).push(finding@),
{
    assert(finding_views(findings.push(finding)) =~= finding_views(findings).push(finding@));
}

fn audit_cells(candidate: &Candidate, measures: &Vec<CellMeasure>, findings: &mut Vec<Finding>)
    requires
        candidate.wf(),
        measures.len() == candidate.cells.len(),
    ensures
        finding_views(final(findings)@) == finding_views(old(findings)@) + findings_of_cells(
            candidate.cells_view(),
            measures@,
            measures@.len() as int,
        ),
{
    let ghost views = candidate.cells_view();
    let ghost start = finding_views(findings@);
    proof {
        assert forall|i: int| 0 <= i < candidate.cells.len() implies (#[trigger] candidate.cells[i]).points@.len()
            == 3 || candidate.cells[i].points@.len() == 4 by {
            assert(cell_known(views[i], candidate.points@));
        }
    }
    let flags = repeated_cells(&candidate.cells);
    let mut i: usize = 0;
    assert(start + findings_of_cells(views, measures@, 0) =~= start);
    while i < candidate.cells.len()
        invariant
            i <= candidate.cells.len(),
            views == candidate.cells_view(),
            measures.len() == candidate.cells.len(),
            flags.len() == candidate.cells.len(),
            forall|k: int| 0 <= k < flags.len() ==> #[trigger] flags[k] == repeats(views, k),
            finding_views(findings@) == start + findings_of_cells(views, measures@, i as int),
        decreases candidate.cells.len() - i,
    {
        let ghost so_far = finding_views(findings@);
        let ghost goal = cell_findings(views, i as int, measures[i as int]);
        let measure = &measures[i];
        let leaf = candidate.cells[i].leaf;
        let quad = candidate.cells[i].points.len() == 4;
        assert(views[i as int] == candidate.cells[i as int]@);
        if flags[i] {
            let finding = invalid(leaf, "duplicate cell connectivity", measure.centroid);
            proof {
                push_view(findings@, finding);
            }
            findings.push(finding);
        }
        let ghost middle = finding_views(findings@);
        if measure.area.at_most(measure.area_floor) || measure.quality.at_most(
            Real { bits: VALID_QUALITY_BITS },
        ) || (quad && measure.self_intersecting) {
            let reason = match &measure.shape_note {
                Some(note) => note.as_str(),
                None =>
                    "cell is inverted, self-intersecting, degenerate, or below the Scaled Jacobian validity floor",
            };
            let finding = invalid(leaf, reason, measure.centroid);
            proof {
                push_view(findings@, finding);
            }
            findings.push(finding);
        } else if measure.residual_limit.less(measure.residual) {
            let finding = invalid(leaf, measure.escape_note.as_str(), measure.centroid);
            proof {
                push_view(findings@, finding);
            }
            findings.push(finding);
        } else if measure.quality.less(Real { bits: QUALITY_TARGET_BITS }) {
            let finding = Finding::Unmet {
                violation: Violation { severity: measure.shortfall, entity: Entity::Cell(i) },
                spot: Some(measure.centroid),
            };
            proof {
                push_view(findings@, finding);
            }
            findings.push(finding);
        }
        proof {
            assert(finding_views(findings@) =~= so_far + goal);
            assert(so_far + goal =~= start + (findings_of_cells(views, measures@, i as int)
                + goal));
        }
        i = i + 1;
    }
}

/// Adds one finding for each cell beside an edge.
fn push_sides(
    candidate: &Candidate,
    measures: &Vec<CellMeasure>,
    sides: &Vec<Side>,
    reason: &str,
    findings: &mut Vec<Finding>,
)
    requires
        measures.len() == candidate.cells.len(),
        forall|p: int| 0 <= p < sides.len() ==> (#[trigger] sides[p]).cell < candidate.cells.len(),
    ensures
        finding_views(final(findings)@) == finding_views(old(findings)@) + side_findings(
            candidate.cells_view(),
            measures@,
            sides@,
            reason@,
        ),
{
    let ghost views = candidate.cells_view();
    let ghost start = finding_views(findings@);
    let ghost goal = side_findings(views, measures@, sides@, reason@);
    let mut k: usize = 0;
    assert(start + goal.take(0) =~= start);
    while k < sides.len()
        invariant
            k <= sides.len(),
            views == candidate.cells_view(),
            measures.len() == candidate.cells.len(),
            forall|p: int|
                0 <= p < sides.len() ==> (#[trigger] sides[p]).cell < candidate.cells.len(),
            goal == side_findings(views, measures@, sides@, reason@),
            finding_views(findings@) == start + goal.take(k as int),
        decreases sides.len() - k,
    {
        let cell: usize = sides[k].cell;
        assert(views[cell as int] == candidate.cells[cell as int]@);
        let finding = invalid(candidate.cells[cell].leaf, reason, measures[cell].centroid);
        proof {
            push_view(findings@, finding);
            assert(finding@ == goal[k as int]);
            assert(start + goal.take(k as int + 1) =~= (start + goal.take(k as int)).push(finding@));
        }
        findings.push(finding);
        k = k + 1;
    }
    assert(goal.take(k as int) =~= goal);
}

fn audit_edges(
    candidate: &Candidate,
    skeleton: &Skeleton,
    cell_measures: &Vec<CellMeasure>,
    measures: &Vec<EdgeMeasure>,
    findings: &mut Vec<Finding>,
)
    requires
        candidate.wf(),
        skeleton.of_cells(candidate.cells_view()),
        cell_measures.len() == candidate.cells.len(),
        measures.len() == skeleton.keys().len(),
    ensures
        finding_views(final(findings)@) == finding_views(old(findings)@) + findings_of_edges(
            candidate.cells_view(),
            cell_measures@,
            skeleton.keys(),
            measures@,
            measures@.len() as int,
        ),
{
    let ghost views = candidate.cells_view();
    let ghost sides = all_sides(views);
    let ghost keys = skeleton.keys();
    let ghost start = finding_views(findings@);
    assert(start + findings_of_edges(views, cell_measures@, keys, measures@, 0) =~= start);
    let mut i: usize = 0;
    while i < measures.len()
        invariant
            i <= measures.len(),
            views == candidate.cells_view(),
            sides == all_sides(views),
            keys == skeleton.keys(),
            skeleton.of_cells(views),
            cell_measures.len() == candidate.cells.len(),
            measures.len() == keys.len(),
            finding_views(findings@) == start + findings_of_edges(
                views,
                cell_measures@,
                keys,
                measures@,
                i as int,
            ),
        decreases measures.len() - i,
    {
        let ghost so_far = finding_views(findings@);
        proof {
            skeleton.edges.groups.entry_at(i as int);
            let count = candidate.cells.len();
            crate::incidence::all_sides_are_in(views);
            sides_on_are_sides(sides, keys[i as int]);
        }
        let key = skeleton.edges.groups.keys[i];
        let here = &skeleton.edges.groups.values[i];
        assert(here@ == sides_on(sides, key));
        let ghost goal = edge_findings(views, cell_measures@, key, here@, measures[i as int]);
        if Real::zero().less(measures[i].severity) {
            let finding = Finding::Unmet {
                violation: Violation {
                    severity: measures[i].severity,
                    entity: Entity::Edge(key.0, key.1),
                },
                spot: None,
            };
            proof {
                push_view(findings@, finding);
            }
            findings.push(finding);
        }
        let ghost miss = finding_views(findings@);
        if here.len() > 2 {
            push_sides(
                candidate,
                cell_measures,
                here,
                "non-manifold cell edge incidence",
                findings,
            );
        } else if measures[i].directed && here.len() == 2 && here[0].from == here[1].from
            && here[0].to == here[1].to {
            push_sides(
                candidate,
                cell_measures,
                here,
                "adjacent cells traverse their shared edge in the same direction",
                findings,
            );
        }
        proof {
            assert(finding_views(findings@) =~= so_far + goal);
            assert(so_far + goal =~= start + (findings_of_edges(
                views,
                cell_measures@,
                keys,
                measures@,
                i as int,
            ) + goal));
        }
        i = i + 1;
    }
}

fn audit_boundary(
    candidate: &Candidate,
    exposed: &Vec<Side>,
    measures: &Vec<BoundaryMeasure>,
    findings: &mut Vec<Finding>,
)
    requires
        forall|i: int|
            0 <= i < exposed.len() ==> side_in(#[trigger] exposed[i], candidate.cells_view()),
        measures.len() == exposed.len(),
    ensures
        finding_views(final(findings)@) == finding_views(old(findings)@) + findings_of_boundary(
            candidate.cells_view(),
            exposed@,
            measures@,
            measures@.len() as int,
        ),
{
    let ghost views = candidate.cells_view();
    let ghost start = finding_views(findings@);
    assert(start + findings_of_boundary(views, exposed@, measures@, 0) =~= start);
    let mut i: usize = 0;
    while i < measures.len()
        invariant
            i <= measures.len(),
            views == candidate.cells_view(),
            measures.len() == exposed.len(),
            forall|k: int| 0 <= k < exposed.len() ==> side_in(#[trigger] exposed[k], views),
            finding_views(findings@) == start + findings_of_boundary(
                views,
                exposed@,
                measures@,
                i as int,
            ),
        decreases measures.len() - i,
    {
        let ghost so_far = finding_views(findings@);
        let side = exposed[i];
        let measure = &measures[i];
        assert(side_in(exposed[i as int], views));
        let leaf = candidate.cells[side.cell].leaf;
        assert(views[side.cell as int] == candidate.cells[side.cell as int]@);
        let ghost goal = boundary_findings(views, side, *measure);
        if measure.off_boundary {
            let finding = invalid(
                leaf,
                "exposed cell edge is not owned by the SDF boundary",
                measure.midpoint,
            );
            proof {
                push_view(findings@, finding);
            }
            findings.push(finding);
        } else if !measure.classified {
            let finding = invalid(
                leaf,
                "SDF boundary ownership classification failed",
                measure.midpoint,
            );
            proof {
                push_view(findings@, finding);
            }
            findings.push(finding);
        }
        if measure.residual_limit.less(measure.residual) {
            let key = crate::topology::ordered_pair(side.from, side.to);
            let finding = Finding::Unmet {
                violation: Violation {
                    severity: measure.severity,
                    entity: Entity::Edge(key.0, key.1),
                },
                spot: None,
            };
            proof {
                push_view(findings@, finding);
            }
            findings.push(finding);
        }
        proof {
            assert(finding_views(findings@) =~= so_far + goal);
            assert(so_far + goal =~= start + (findings_of_boundary(
                views,
                exposed@,
                measures@,
                i as int,
            ) + goal));
        }
        i = i + 1;
    }
}

/// The degree and the first edge of a boundary vertex.
pub(crate) type VertexUse = (usize, Side);

pub(crate) proof fn degree_bound(exposed: Seq<Side>, point: PointKey)
    ensures
        degree(exposed, point) <= 2 * exposed.len(),
        degree(exposed, point) > 0 <==> first_edge(exposed, point) is Some,
        degree(exposed, point) > 0 <==> on_exposed(exposed, point),
        first_edge(exposed, point) matches Some(side) ==> exposed.contains(side),
    decreases exposed.len(),
{
    if exposed.len() > 0 {
        let front = exposed.drop_last();
        degree_bound(front, point);
        if first_edge(front, point) is Some {
            let side = first_edge(front, point)->0;
            let k = front.index_of(side);
            assert(exposed[k] == side);
        }
        let last = exposed.last();
        assert(exposed[exposed.len() - 1] == last);
        if on_exposed(front, point) {
            let i = choose|i: int|
                0 <= i < front.len() && ((#[trigger] front[i]).from == point || front[i].to
                    == point);
            assert(exposed[i] == front[i]);
        }
        if on_exposed(exposed, point) && last.from != point && last.to != point {
            let i = choose|i: int|
                0 <= i < exposed.len() && ((#[trigger] exposed[i]).from == point || exposed[i].to
                    == point);
            assert(front[i] == exposed[i]);
        }
    }
}

/// The degree of each boundary vertex and its first edge, by vertex.
pub(crate) fn vertex_uses(exposed: &Vec<Side>) -> (result: SortedMap<PointKey, VertexUse>)
    requires
        2 * exposed.len() <= usize::MAX,
    ensures
        result.wf(),
        forall|point: PointKey| #[trigger]
            result@.dom().contains(point) <==> on_exposed(exposed@, point),
        forall|point: PointKey| #[trigger]
            result@.dom().contains(point) ==> result@[point].0 == degree(exposed@, point) && Some(
                result@[point].1,
            ) == first_edge(exposed@, point),
{
    let mut map: SortedMap<PointKey, VertexUse> = SortedMap::new();
    let mut i: usize = 0;
    while i < exposed.len()
        invariant
            i <= exposed.len(),
            2 * exposed.len() <= usize::MAX,
            map.wf(),
            forall|point: PointKey| #[trigger]
                map@.dom().contains(point) <==> degree(exposed@.take(i as int), point) > 0,
            forall|point: PointKey| #[trigger]
                map@.dom().contains(point) ==> map@[point].0 == degree(
                    exposed@.take(i as int),
                    point,
                ) && Some(map@[point].1) == first_edge(exposed@.take(i as int), point),
        decreases exposed.len() - i,
    {
        let side = exposed[i];
        let ghost before = map@;
        let ghost short = exposed@.take(i as int);
        let ghost long = exposed@.take(i as int + 1);
        proof {
            assert(long.drop_last() =~= short);
            degree_bound(short, side.from);
            degree_bound(short, side.to);
        }
        let first_use: VertexUse = match map.get(&side.from) {
            Some(found) => (found.0 + 1, found.1),
            None => (1, side),
        };
        map.insert(side.from, first_use);
        let second_use: VertexUse = match map.get(&side.to) {
            Some(found) => (found.0 + 1, found.1),
            None => (1, side),
        };
        map.insert(side.to, second_use);
        proof {
            assert forall|point: PointKey| #[trigger]
                map@.dom().contains(point) <==> degree(long, point) > 0 by {
                degree_bound(short, point);
                assert(before.dom().contains(point) <==> degree(short, point) > 0);
            }
            assert forall|point: PointKey| #[trigger] map@.dom().contains(point) implies map@[point].0
                == degree(long, point) && Some(map@[point].1) == first_edge(long, point) by {
                degree_bound(short, point);
                if before.dom().contains(point) {
                    assert(before[point].0 == degree(short, point));
                }
            }
        }
        i = i + 1;
    }
    assert(exposed@.take(i as int) =~= exposed@);
    proof {
        assert forall|point: PointKey| #[trigger]
            map@.dom().contains(point) <==> on_exposed(exposed@, point) by {
            degree_bound(exposed@, point);
        }
    }
    map
}

fn audit_vertices(
    candidate: &Candidate,
    exposed: &Vec<Side>,
    uses: &SortedMap<PointKey, VertexUse>,
    findings: &mut Vec<Finding>,
)
    requires
        candidate.wf(),
        forall|i: int|
            0 <= i < exposed.len() ==> side_in(#[trigger] exposed[i], candidate.cells_view()),
        uses.wf(),
        forall|point: PointKey| #[trigger]
            uses@.dom().contains(point) <==> on_exposed(exposed@, point),
        forall|point: PointKey| #[trigger]
            uses@.dom().contains(point) ==> uses@[point].0 == degree(exposed@, point) && Some(
                uses@[point].1,
            ) == first_edge(exposed@, point),
    ensures
        finding_views(final(findings)@) == finding_views(old(findings)@) + findings_of_vertices(
            *candidate,
            exposed@,
            uses.keys@,
            uses.keys@.len() as int,
        ),
{
    let ghost views = candidate.cells_view();
    let ghost start = finding_views(findings@);
    assert(start + findings_of_vertices(*candidate, exposed@, uses.keys@, 0) =~= start);
    let mut i: usize = 0;
    while i < uses.keys.len()
        invariant
            i <= uses.keys.len(),
            candidate.wf(),
            views == candidate.cells_view(),
            forall|k: int| 0 <= k < exposed.len() ==> side_in(#[trigger] exposed[k], views),
            uses.wf(),
            forall|point: PointKey| #[trigger]
                uses@.dom().contains(point) <==> on_exposed(exposed@, point),
            forall|point: PointKey| #[trigger]
                uses@.dom().contains(point) ==> uses@[point].0 == degree(exposed@, point) && Some(
                    uses@[point].1,
                ) == first_edge(exposed@, point),
            finding_views(findings@) == start + findings_of_vertices(
                *candidate,
                exposed@,
                uses.keys@,
                i as int,
            ),
        decreases uses.keys.len() - i,
    {
        let vertex = uses.keys[i];
        let entry = uses.values[i];
        let ghost rest = findings_of_vertices(*candidate, exposed@, uses.keys@, i as int);
        proof {
            uses.entry_at(i as int);
            degree_bound(exposed@, vertex);
            let k = exposed@.index_of(entry.1);
            assert(exposed@[k] == entry.1);
            assert(side_in(exposed[k], views));
            let j = choose|j: int|
                0 <= j < exposed@.len() && ((#[trigger] exposed@[j]).from == vertex
                    || exposed@[j].to == vertex);
            assert(side_in(exposed[j], views));
            let points = views[exposed@[j].cell as int].points;
            assert(cell_known(views[exposed@[j].cell as int], candidate.points@));
            assert(points.contains(vertex));
            assert(candidate.points@.dom().contains(points[points.index_of(vertex)]));
        }
        if entry.0 != 2 {
            let location = match candidate.points.get(&vertex) {
                Some(point) => point.world,
                None => [Real::zero(), Real::zero(), Real::zero()],
            };
            assert(views[entry.1.cell as int] == candidate.cells[entry.1.cell as int]@);
            let finding = invalid(
                candidate.cells[entry.1.cell].leaf,
                "boundary vertex does not have manifold degree two",
                location,
            );
            proof {
                push_view(findings@, finding);
                assert((start + rest).push(finding@) =~= start + rest.push(finding@));
            }
            findings.push(finding);
        }
        i = i + 1;
    }
}

/// An exposed edge with the region that owns it.
#[derive(Debug)]
pub struct BoundaryEdge {
    pub points: [PointKey; 2],
    pub cell: usize,
    pub owner: Option<String>,
}

/// A region's name, where there is one.
pub open spec fn owner_view(owner: Option<String>) -> Option<Seq<char>> {
    match owner {
        Some(name) => Some(name@),
        None => None,
    }
}

pub fn copy_owner(owner: &Option<String>) -> (result: Option<String>)
    ensures
        owner_view(result) == owner_view(*owner),
{
    match owner {
        Some(name) => Some(name.clone()),
        None => None,
    }
}

/// The boundary edge of an exposed side: it is owned by the region that the
/// measure names, unless the side is off the boundary.
pub open spec fn edge_matches(edge: BoundaryEdge, side: Side, measure: BoundaryMeasure) -> bool {
    &&& edge.points@ == seq![side.from, side.to]
    &&& edge.cell == side.cell
    &&& owner_view(edge.owner) == (if measure.off_boundary {
        None
    } else {
        owner_view(measure.region)
    })
}

/// What the audit says of a mesh.
#[derive(Debug)]
pub struct Assessment {
    pub boundary: Vec<BoundaryEdge>,
    pub boundary_vertices: SortedSet<PointKey>,
    pub refine: SortedSet<Leaf>,
    pub reason: Option<String>,
    pub location: Option<Vector3>,
    pub worst_quality: Real,
    pub violations: Vec<Violation>,
    pub score: PatchScore,
}

/// Everything that the audit finds, in order.
pub open spec fn all_findings(
    candidate: Candidate,
    skeleton: Skeleton,
    cells: Seq<CellMeasure>,
    edges: Seq<EdgeMeasure>,
    boundary: Seq<BoundaryMeasure>,
    vertices: Seq<PointKey>,
) -> Seq<FindingView> {
    let views = candidate.cells_view();
    findings_of_cells(views, cells, cells.len() as int) + findings_of_edges(
        views,
        cells,
        skeleton.keys(),
        edges,
        edges.len() as int,
    ) + findings_of_boundary(views, skeleton.exposed@, boundary, boundary.len() as int)
        + findings_of_vertices(candidate, skeleton.exposed@, vertices, vertices.len() as int)
}

/// The trouble that a mesh starts with: a leaf that could not be cut.
pub open spec fn first_trouble(failures: Set<Leaf>) -> Trouble {
    Trouble {
        reason: if failures == Set::<Leaf>::empty() {
            None
        } else {
            Some("boundary clipping produced a degenerate triangle"@)
        },
        location: None,
    }
}

pub open spec fn reason_view(reason: Option<String>) -> Option<Seq<char>> {
    match reason {
        Some(text) => Some(text@),
        None => None,
    }
}

struct Summary {
    refine: SortedSet<Leaf>,
    reason: Option<String>,
    location: Option<Vector3>,
    violations: Vec<Violation>,
}

fn summarize(failures: &SortedSet<Leaf>, findings: &Vec<Finding>) -> (result: Summary)
    requires
        failures.wf(),
    ensures
        result.refine.wf(),
        result.refine@ == leaves_to_refine(finding_views(findings@), failures@),
        reason_view(result.reason) == trouble(
            finding_views(findings@),
            first_trouble(failures@),
        ).reason,
        result.location == trouble(finding_views(findings@), first_trouble(failures@)).location,
        result.violations@ == violations_of(finding_views(findings@)),
        result.violations@.len() <= findings.len(),
{
    let ghost views = finding_views(findings@);
    let ghost first = first_trouble(failures@);
    let mut refine: SortedSet<Leaf> = SortedSet { items: failures.items.clone() };
    assert(refine.items@ =~= failures.items@);
    let mut reason: Option<String> = None;
    let mut location: Option<Vector3> = None;
    if failures.items.len() > 0 {
        reason = Some("boundary clipping produced a degenerate triangle".to_owned());
        assert(failures@.contains(failures.items@[0]));
    } else {
        assert(failures@ =~= Set::<Leaf>::empty());
    }
    let mut violations: Vec<Violation> = Vec::new();
    let mut i: usize = 0;
    while i < findings.len()
        invariant
            i <= findings.len(),
            views == finding_views(findings@),
            first == first_trouble(failures@),
            refine.wf(),
            refine@ == leaves_to_refine(views.take(i as int), failures@),
            reason_view(reason) == trouble(views.take(i as int), first).reason,
            location == trouble(views.take(i as int), first).location,
            violations@ == violations_of(views.take(i as int)),
            violations.len() <= i,
        decreases findings.len() - i,
    {
        proof {
            assert(views.take(i as int + 1).drop_last() =~= views.take(i as int));
            assert(views.take(i as int + 1).last() == findings[i as int]@);
        }
        match &findings[i] {
            Finding::Invalid { leaf, reason: text, location: place } => {
                refine.insert(*leaf);
                if reason.is_none() {
                    reason = Some(text.clone());
                    location = Some(*place);
                }
            },
            Finding::Unmet { violation, spot: place } => {
                violations.push(*violation);
                if location.is_none() {
                    location = *place;
                }
            },
        }
        i = i + 1;
    }
    assert(views.take(i as int) =~= views);
    Summary { refine, reason, location, violations }
}

fn count_cells(cells: &Vec<Cell>, arity: usize) -> (result: usize)
    ensures
        result == count_arity(cell_views(cells@), arity as nat),
        result <= cells.len(),
{
    let ghost views = cell_views(cells@);
    let mut count: usize = 0;
    let mut i: usize = 0;
    while i < cells.len()
        invariant
            i <= cells.len(),
            views == cell_views(cells@),
            count <= i,
            count == count_arity(views.take(i as int), arity as nat),
        decreases cells.len() - i,
    {
        assert(views.take(i as int + 1).drop_last() =~= views.take(i as int));
        assert(views[i as int] == cells[i as int]@);
        if cells[i].points.len() == arity {
            count = count + 1;
        }
        i = i + 1;
    }
    assert(views.take(i as int) =~= views);
    count
}

fn minimum(a: Real, b: Real) -> (result: Real)
    ensures
        result == smaller(a, b),
{
    if b.is_nan() {
        a
    } else if a.is_nan() || b.less(a) {
        b
    } else {
        a
    }
}

fn worst(measures: &Vec<CellMeasure>) -> (result: Real)
    ensures
        result == worst_of(measures@, measures@.len() as int),
{
    let mut value = Real { bits: ONE_BITS };
    let mut i: usize = 0;
    while i < measures.len()
        invariant
            i <= measures.len(),
            value == worst_of(measures@, i as int),
        decreases measures.len() - i,
    {
        value = minimum(value, measures[i].quality);
        i = i + 1;
    }
    value
}

fn boundary_edges(exposed: &Vec<Side>, measures: &Vec<BoundaryMeasure>) -> (result: Vec<BoundaryEdge>)
    requires
        measures.len() == exposed.len(),
    ensures
        result.len() == exposed.len(),
        forall|i: int|
            0 <= i < result.len() ==> edge_matches(#[trigger] result[i], exposed[i], measures[i]),
{
    let mut list: Vec<BoundaryEdge> = Vec::new();
    let mut i: usize = 0;
    while i < exposed.len()
        invariant
            i <= exposed.len(),
            measures.len() == exposed.len(),
            list.len() == i,
            forall|k: int|
                0 <= k < list.len() ==> edge_matches(#[trigger] list[k], exposed[k], measures[k]),
        decreases exposed.len() - i,
    {
        let side = exposed[i];
        let owner = if measures[i].off_boundary {
            None
        } else {
            copy_owner(&measures[i].region)
        };
        let edge = BoundaryEdge { points: [side.from, side.to], cell: side.cell, owner };
        assert(edge.points@ =~= seq![side.from, side.to]);
        list.push(edge);
        i = i + 1;
    }
    list
}

pub open spec fn capped(count: nat) -> nat {
    if count > usize::MAX {
        usize::MAX as nat
    } else {
        count
    }
}

/// Audits a mesh: the connectivity as it stands, with what was measured of the
/// cells, of the edges in increasing order, and of the exposed sides in that
/// order.
pub fn assess(
    candidate: &Candidate,
    skeleton: &Skeleton,
    cells: &Vec<CellMeasure>,
    edges: &Vec<EdgeMeasure>,
    boundary: &Vec<BoundaryMeasure>,
    mean_squared_log_size_error: Real,
) -> (result: Assessment)
    requires
        candidate.wf(),
        skeleton.of_cells(candidate.cells_view()),
        cells.len() == candidate.cells.len(),
        edges.len() == skeleton.keys().len(),
        boundary.len() == skeleton.exposed.len(),
        2 * skeleton.exposed@.len() <= usize::MAX,
    ensures
        result.boundary.len() == skeleton.exposed.len(),
        forall|i: int|
            0 <= i < result.boundary.len() ==> edge_matches(
                #[trigger] result.boundary[i],
                skeleton.exposed[i],
                boundary[i],
            ),
        result.boundary_vertices.wf(),
        forall|point: PointKey| #[trigger]
            result.boundary_vertices@.contains(point) <==> on_exposed(skeleton.exposed@, point),
        ({
            let findings = all_findings(
                *candidate,
                *skeleton,
                cells@,
                edges@,
                boundary@,
                result.boundary_vertices.items@,
            );
            let start = first_trouble(candidate.construction_failures@);
            &&& result.refine.wf()
            &&& result.refine@ == leaves_to_refine(findings, candidate.construction_failures@)
            &&& reason_view(result.reason) == trouble(findings, start).reason
            &&& result.location == trouble(findings, start).location
            &&& ordered(result.violations@)
            &&& result.violations@.to_multiset() == violations_of(findings).to_multiset()
            &&& result.score.hard_invalid == capped(
                candidate.construction_failures.items@.len() + invalid_count(findings),
            )
            &&& result.score.unmet_targets == violations_of(findings).len()
        }),
        result.worst_quality == worst_of(cells@, cells@.len() as int),
        result.score.worst_quality == result.worst_quality,
        result.score.worst_violation == (if result.violations@.len() == 0 {
            Real { bits: 0 }
        } else {
            result.violations@[0].severity
        }),
        result.score.mean_squared_log_size_error == mean_squared_log_size_error,
        result.score.quad_count == count_arity(candidate.cells_view(), 4),
        result.score.triangle_count == count_arity(candidate.cells_view(), 3),
        result.score.cell_count == candidate.cells@.len(),
{
    let mut findings: Vec<Finding> = Vec::new();
    assert(finding_views(findings@) =~= Seq::<FindingView>::empty());
    audit_cells(candidate, cells, &mut findings);
    audit_edges(candidate, skeleton, cells, edges, &mut findings);
    audit_boundary(candidate, &skeleton.exposed, boundary, &mut findings);
    let uses = vertex_uses(&skeleton.exposed);
    audit_vertices(candidate, &skeleton.exposed, &uses, &mut findings);
    let ghost all = all_findings(
        *candidate,
        *skeleton,
        cells@,
        edges@,
        boundary@,
        uses.keys@,
    );
    assert(finding_views(findings@) =~= all);
    let summary = summarize(&candidate.construction_failures, &findings);
    let mut violations = summary.violations;
    let unmet_targets: usize = violations.len();
    let invalid_found: usize = findings.len() - unmet_targets;
    let ghost unsorted = violations@;
    sort_keys(&mut violations);
    proof {
        crate::sorted::rearranged(unsorted, violations@);
    }
    let worst_violation = if violations.len() == 0 {
        Real::zero()
    } else {
        violations[0].severity
    };
    let worst_quality = worst(cells);
    let vertices = SortedSet { items: uses.keys };
    proof {
        assert forall|point: PointKey| #[trigger]
            vertices@.contains(point) <==> on_exposed(skeleton.exposed@, point) by {
            assert(uses@.dom().contains(point) == uses.keys@.contains(point));
        }
    }
    Assessment {
        boundary: boundary_edges(&skeleton.exposed, boundary),
        boundary_vertices: vertices,
        refine: summary.refine,
        reason: summary.reason,
        location: summary.location,
        worst_quality,
        violations,
        score: PatchScore {
            hard_invalid: candidate.construction_failures.items.len().saturating_add(invalid_found),
            unmet_targets,
            worst_violation,
            worst_quality,
            mean_squared_log_size_error,
            quad_count: count_cells(&candidate.cells, 4),
            triangle_count: count_cells(&candidate.cells, 3),
            cell_count: candidate.cells.len(),
        },
    }
}

/// Every edge with one side is on the boundary once, in increasing order.
pub proof fn boundary_follows_edge_order(sides: Seq<Side>, keys: Seq<EdgeKey>, count: int)
    requires
        increasing(keys),
        0 <= count <= keys.len(),
    ensures
        forall|i: int, j: int|
            0 <= i < j < exposed_sides(sides, keys, count).len() ==> (#[trigger] exposed_sides(
                sides,
                keys,
                count,
            )[i]).edge().before((#[trigger] exposed_sides(sides, keys, count)[j]).edge()),
        forall|i: int|
            0 <= i < exposed_sides(sides, keys, count).len() ==> exists|k: int|
                0 <= k < count && #[trigger] keys[k] == (#[trigger] exposed_sides(
                    sides,
                    keys,
                    count,
                )[i]).edge(),
    decreases count,
{
    if count > 0 {
        boundary_follows_edge_order(sides, keys, count - 1);
        let rest = exposed_sides(sides, keys, count - 1);
        let all = exposed_sides(sides, keys, count);
        let here = sides_on(sides, keys[count - 1]);
        sides_on_are_sides(sides, keys[count - 1]);
        if here.len() == 1 {
            assert(here[0].edge() == keys[count - 1]);
            assert forall|i: int, j: int| 0 <= i < j < all.len() implies (#[trigger] all[i]).edge().before(
                (#[trigger] all[j]).edge(),
            ) by {
                if j == all.len() - 1 {
                    assert(all[i] == rest[i]);
                    let k = choose|k: int|
                        0 <= k < count - 1 && #[trigger] keys[k] == rest[i].edge();
                    assert(keys[k].before(keys[count - 1]));
                } else {
                    assert(all[i] == rest[i]);
                    assert(all[j] == rest[j]);
                }
            }
            assert forall|i: int| 0 <= i < all.len() implies exists|k: int|
                0 <= k < count && #[trigger] keys[k] == (#[trigger] all[i]).edge() by {
                if i < rest.len() {
                    assert(all[i] == rest[i]);
                    let k = choose|k: int|
                        0 <= k < count - 1 && #[trigger] keys[k] == rest[i].edge();
                    assert(keys[k] == all[i].edge());
                } else {
                    assert(keys[count - 1] == all[i].edge());
                }
            }
        } else {
            assert forall|i: int| 0 <= i < all.len() implies exists|k: int|
                0 <= k < count && #[trigger] keys[k] == (#[trigger] all[i]).edge() by {
                let k = choose|k: int| 0 <= k < count - 1 && #[trigger] keys[k] == rest[i].edge();
                assert(keys[k] == all[i].edge());
            }
        }
    }
}

/// A mesh that needs no refinement is manifold: no edge has more than two
/// sides, no cell occurs twice, and every boundary vertex has degree two.
pub proof fn sound_mesh_is_manifold(
    candidate: Candidate,
    skeleton: Skeleton,
    cells: Seq<CellMeasure>,
    edges: Seq<EdgeMeasure>,
    boundary: Seq<BoundaryMeasure>,
    vertices: Seq<PointKey>,
)
    requires
        leaves_to_refine(
            all_findings(candidate, skeleton, cells, edges, boundary, vertices),
            candidate.construction_failures@,
        ) == Set::<Leaf>::empty(),
        cells.len() == candidate.cells@.len(),
        edges.len() == skeleton.keys().len(),
    ensures
        candidate.construction_failures@ == Set::<Leaf>::empty(),
        forall|i: int| 0 <= i < cells.len() ==> !repeats(candidate.cells_view(), i),
        forall|i: int|
            0 <= i < cells.len() ==> !misshapen(candidate.cells_view()[i], #[trigger] cells[i]),
        forall|k: int|
            0 <= k < edges.len() ==> sides_on(
                all_sides(candidate.cells_view()),
                #[trigger] skeleton.keys()[k],
            ).len() <= 2,
        forall|i: int| 0 <= i < vertices.len() ==> degree(skeleton.exposed@, #[trigger] vertices[i]) == 2,
{
    let views = candidate.cells_view();
    let a = findings_of_cells(views, cells, cells.len() as int);
    let b = findings_of_edges(views, cells, skeleton.keys(), edges, edges.len() as int);
    let c = findings_of_boundary(views, skeleton.exposed@, boundary, boundary.len() as int);
    let d = findings_of_vertices(candidate, skeleton.exposed@, vertices, vertices.len() as int);
    let all = all_findings(candidate, skeleton, cells, edges, boundary, vertices);
    assert(all =~= a + b + c + d);
    no_invalid_where_nothing_to_refine(all, candidate.construction_failures@);
    assert forall|i: int| 0 <= i < a.len() implies !(#[trigger] a[i] is Invalid) by {
        assert(all[i] == a[i]);
    }
    assert forall|i: int| 0 <= i < b.len() implies !(#[trigger] b[i] is Invalid) by {
        assert(all[a.len() + i] == b[i]);
    }
    assert forall|i: int| 0 <= i < d.len() implies !(#[trigger] d[i] is Invalid) by {
        assert(all[a.len() + b.len() + c.len() + i] == d[i]);
    }
    clean_cells(views, cells, cells.len() as int);
    clean_edges(views, cells, skeleton.keys(), edges, edges.len() as int);
    clean_vertices(candidate, skeleton.exposed@, vertices, vertices.len() as int);
}

proof fn no_invalid_where_nothing_to_refine(findings: Seq<FindingView>, start: Set<Leaf>)
    requires
        leaves_to_refine(findings, start) == Set::<Leaf>::empty(),
    ensures
        start == Set::<Leaf>::empty(),
        forall|i: int| 0 <= i < findings.len() ==> !(#[trigger] findings[i] is Invalid),
    decreases findings.len(),
{
    if findings.len() > 0 {
        let front = findings.drop_last();
        let rest = leaves_to_refine(front, start);
        let last = findings.last();
        if last is Invalid {
            let leaf = last->leaf;
            assert(leaves_to_refine(findings, start).contains(leaf));
        }
        no_invalid_where_nothing_to_refine(front, start);
        assert forall|i: int| 0 <= i < findings.len() implies !(#[trigger] findings[i] is Invalid) by {
            if i < front.len() {
                assert(front[i] == findings[i]);
            }
        }
    }
}

proof fn clean_cells(views: Seq<CellView>, cells: Seq<CellMeasure>, count: int)
    requires
        0 <= count <= cells.len(),
        forall|i: int|
            0 <= i < findings_of_cells(views, cells, count).len() ==> !(#[trigger] findings_of_cells(
                views,
                cells,
                count,
            )[i] is Invalid),
    ensures
        forall|i: int| 0 <= i < count ==> !repeats(views, i),
        forall|i: int| 0 <= i < count ==> !misshapen(views[i], #[trigger] cells[i]),
    decreases count,
{
    if count > 0 {
        let rest = findings_of_cells(views, cells, count - 1);
        let here = cell_findings(views, count - 1, cells[count - 1]);
        let all = findings_of_cells(views, cells, count);
        assert forall|i: int| 0 <= i < rest.len() implies !(#[trigger] rest[i] is Invalid) by {
            assert(all[i] == rest[i]);
        }
        assert forall|i: int| 0 <= i < here.len() implies !(#[trigger] here[i] is Invalid) by {
            assert(all[rest.len() + i] == here[i]);
        }
        if repeats(views, count - 1) {
            assert(here[0] is Invalid);
        }
        if misshapen(views[count - 1], cells[count - 1]) {
            assert(here[here.len() - 1] is Invalid);
        }
        clean_cells(views, cells, count - 1);
    }
}

proof fn clean_edges(
    views: Seq<CellView>,
    cells: Seq<CellMeasure>,
    keys: Seq<EdgeKey>,
    edges: Seq<EdgeMeasure>,
    count: int,
)
    requires
        0 <= count <= keys.len(),
        forall|i: int|
            0 <= i < findings_of_edges(views, cells, keys, edges, count).len()
                ==> !(#[trigger] findings_of_edges(views, cells, keys, edges, count)[i] is Invalid),
    ensures
        forall|k: int|
            0 <= k < count ==> sides_on(all_sides(views), #[trigger] keys[k]).len() <= 2,
    decreases count,
{
    if count > 0 {
        let rest = findings_of_edges(views, cells, keys, edges, count - 1);
        let sides = sides_on(all_sides(views), keys[count - 1]);
        let here = edge_findings(views, cells, keys[count - 1], sides, edges[count - 1]);
        let all = findings_of_edges(views, cells, keys, edges, count);
        assert forall|i: int| 0 <= i < rest.len() implies !(#[trigger] rest[i] is Invalid) by {
            assert(all[i] == rest[i]);
        }
        if sides.len() > 2 {
            assert(here[here.len() - 1] is Invalid);
            assert(all[rest.len() + here.len() - 1] == here[here.len() - 1]);
        }
        clean_edges(views, cells, keys, edges, count - 1);
    }
}

proof fn clean_vertices(
    candidate: Candidate,
    exposed: Seq<Side>,
    vertices: Seq<PointKey>,
    count: int,
)
    requires
        0 <= count <= vertices.len(),
        forall|i: int|
            0 <= i < findings_of_vertices(candidate, exposed, vertices, count).len()
                ==> !(#[trigger] findings_of_vertices(
                candidate,
                exposed,
                vertices,
                count,
            )[i] is Invalid),
    ensures
        forall|i: int| 0 <= i < count ==> degree(exposed, #[trigger] vertices[i]) == 2,
    decreases count,
{
    if count > 0 {
        let rest = findings_of_vertices(candidate, exposed, vertices, count - 1);
        let all = findings_of_vertices(candidate, exposed, vertices, count);
        assert forall|i: int| 0 <= i < rest.len() implies !(#[trigger] rest[i] is Invalid) by {
            assert(all[i] == rest[i]);
        }
        if degree(exposed, vertices[count - 1]) != 2 {
            assert(all[rest.len() as int] is Invalid);
        }
        clean_vertices(candidate, exposed, vertices, count - 1);
    }
}

/// The exposed sides are those of the edges that one cell alone has, in the order of the
/// edges.
pub proof fn exposed_sides_are_lone(
    sides: Seq<Side>,
    keys: Seq<EdgeKey>,
    count: int,
) -> (places: Seq<int>)
    requires
        0 <= count,
    ensures
        exposed_sides(sides, keys, count).len() == places.len(),
        forall|i: int, j: int|
            0 <= i < j < places.len() ==> (#[trigger] places[i]) < (#[trigger] places[j]),
        forall|k: int| #[trigger] places.contains(k) <==> 0 <= k < count && sides_on(sides, keys[k]).len() == 1,
        forall|i: int|
            0 <= i < places.len() ==> exposed_sides(sides, keys, count)[i] == sides_on(sides, keys[(#[trigger] places[i])])[0],
    decreases count,
{
    if count == 0 {
        Seq::empty()
    } else {
        let list = exposed_sides_are_lone(sides, keys, count - 1);
        let last = count - 1;
        let takes = sides_on(sides, keys[last]).len() == 1;
        let places = if takes {
            list.push(last)
        } else {
            list
        };
        let rest = exposed_sides(sides, keys, count - 1);
        let now = exposed_sides(sides, keys, count);
        
        assert forall|i: int| 0 <= i < list.len() implies 0 <= (#[trigger] list[i]) < last by {
            assert(list.contains(list[i]));
        }
        assert forall|k: int| #[trigger] places.contains(k) <==> 0 <= k < count && sides_on(sides, keys[k]).len() == 1 by {
            if places.contains(k) {
                let m = places.index_of(k);
                if m < list.len() {
                    assert(list[m] == k);
                    assert(list.contains(k));
                }
            }
            if list.contains(k) {
                let m = list.index_of(k);
                assert(places[m] == k);
            }
            if k == last && takes {
                assert(places[list.len() as int] == k);
            }
        }
        assert forall|i: int| 0 <= i < places.len() implies now[i] == sides_on(sides, keys[(#[trigger] places[i])])[0] by {
            if i < list.len() {
                assert(places[i] == list[i]);
                assert(now[i] == rest[i]);
            }
        }
        places
    }
}

/// The reason that an audit gives is that of the first invalid finding; without one the
/// reason stays what it was. The place is the first that is given.
pub proof fn first_invalid_finding_counts(findings: Seq<FindingView>, start: Trouble)
    ensures
        start.reason is Some ==> trouble(findings, start).reason == start.reason,
        start.reason is None && (forall|i: int|
            0 <= i < findings.len() ==> !((#[trigger] findings[i]) is Invalid)) ==> trouble(
            findings,
            start,
        ).reason is None,
        start.reason is None ==> forall|k: int|
            0 <= k < findings.len() && (#[trigger] findings[k]) is Invalid && (forall|i: int|
                0 <= i < k ==> !((#[trigger] findings[i]) is Invalid)) ==> trouble(
                findings,
                start,
            ).reason == Some(findings[k]->Invalid_reason) && trouble(findings, start).location
                == Some(findings[k]->Invalid_location),
    decreases findings.len(),
{
    if findings.len() > 0 {
        let front = findings.drop_last();
        first_invalid_finding_counts(front, start);
        let n = front.len() as int;
        if start.reason is None {
            assert forall|k: int|
                0 <= k < findings.len() && (#[trigger] findings[k]) is Invalid && (forall|i: int|
                    0 <= i < k ==> !((#[trigger] findings[i]) is Invalid)) implies trouble(
                findings,
                start,
            ).reason == Some(findings[k]->Invalid_reason) && trouble(findings, start).location
                == Some(findings[k]->Invalid_location) by {
                if k < n {
                    assert(front[k] == findings[k]);
                    assert forall|i: int| 0 <= i < k implies !((#[trigger] front[i]) is Invalid) by {
                        assert(front[i] == findings[i]);
                    }
                } else {
                    assert forall|i: int| 0 <= i < n implies !((#[trigger] front[i]) is Invalid) by {
                        assert(front[i] == findings[i]);
                    }
                    assert(trouble(front, start).reason is None);
                }
            }
            if forall|i: int| 0 <= i < findings.len() ==> !((#[trigger] findings[i]) is Invalid) {
                assert forall|i: int| 0 <= i < n implies !((#[trigger] front[i]) is Invalid) by {
                    assert(front[i] == findings[i]);
                }
                assert(!(findings[n] is Invalid));
            }
        }
    }
}

/// The leaves to refine are those given and those of the invalid findings.
pub proof fn invalid_leaves_are_refined(findings: Seq<FindingView>, start: Set<Leaf>, leaf: Leaf)
    ensures
        leaves_to_refine(findings, start).contains(leaf) <==> start.contains(leaf) || exists|i: int|
            0 <= i < findings.len() && (#[trigger] findings[i]) is Invalid
                && findings[i]->Invalid_leaf == leaf,
    decreases findings.len(),
{
    if findings.len() > 0 {
        let front = findings.drop_last();
        let n = front.len() as int;
        invalid_leaves_are_refined(front, start, leaf);
        if exists|i: int|
            0 <= i < front.len() && (#[trigger] front[i]) is Invalid && front[i]->Invalid_leaf
                == leaf {
            let i = choose|i: int|
                0 <= i < front.len() && (#[trigger] front[i]) is Invalid && front[i]->Invalid_leaf
                    == leaf;
            assert(findings[i] == front[i]);
        }
        if exists|i: int|
            0 <= i < findings.len() && (#[trigger] findings[i]) is Invalid
                && findings[i]->Invalid_leaf == leaf {
            let i = choose|i: int|
                0 <= i < findings.len() && (#[trigger] findings[i]) is Invalid
                    && findings[i]->Invalid_leaf == leaf;
            if i < n {
                assert(front[i] == findings[i]);
            } else {
                assert(findings[n] is Invalid);
            }
        } else if findings[n] is Invalid {
            assert(findings[n]->Invalid_leaf != leaf);
        }
    }
}

/// Every finding is invalid or a missed target, and the missed targets are listed.
pub proof fn missed_targets_are_listed(findings: Seq<FindingView>, violation: Violation)
    ensures
        violations_of(findings).len() <= findings.len(),
        violations_of(findings).contains(violation) <==> exists|i: int|
            0 <= i < findings.len() && (#[trigger] findings[i]) is Unmet
                && findings[i]->Unmet_violation == violation,
        invalid_count(findings) == 0 <==> forall|i: int|
            0 <= i < findings.len() ==> (#[trigger] findings[i]) is Unmet,
    decreases findings.len(),
{
    if findings.len() > 0 {
        let front = findings.drop_last();
        let n = front.len() as int;
        missed_targets_are_listed(front, violation);
        let rest = violations_of(front);
        let list = violations_of(findings);
        if list.contains(violation) {
            let k = list.index_of(violation);
            if k < rest.len() {
                assert(rest[k] == violation);
                let i = choose|i: int|
                    0 <= i < front.len() && (#[trigger] front[i]) is Unmet
                        && front[i]->Unmet_violation == violation;
                assert(findings[i] == front[i]);
            } else {
                assert(findings[n] is Unmet);
            }
        }
        if rest.contains(violation) {
            let k = rest.index_of(violation);
            assert(list[k] == violation);
        }
        if exists|i: int|
            0 <= i < findings.len() && (#[trigger] findings[i]) is Unmet
                && findings[i]->Unmet_violation == violation {
            let i = choose|i: int|
                0 <= i < findings.len() && (#[trigger] findings[i]) is Unmet
                    && findings[i]->Unmet_violation == violation;
            if i < n {
                assert(front[i] == findings[i]);
            } else {
                assert(list[rest.len() as int] == violation);
            }
        }
        if forall|i: int| 0 <= i < findings.len() ==> (#[trigger] findings[i]) is Unmet {
            assert forall|i: int| 0 <= i < n implies (#[trigger] front[i]) is Unmet by {
                assert(findings[i] == front[i]);
            }
            assert(findings[n] is Unmet);
        }
        if invalid_count(findings) == 0 {
            assert forall|i: int| 0 <= i < findings.len() implies (#[trigger] findings[i]) is Unmet by {
                if i < n {
                    assert(front[i] == findings[i]);
                }
            }
        }
    }
}

/// The worst quality of cells is the lowest of them and of 1; a NaN does not count.
pub proof fn worst_cell_is_lowest(measures: Seq<CellMeasure>, count: int)
    requires
        0 <= count <= measures.len(),
    ensures
        !worst_of(measures, count).nan(),
        !(Real { bits: 0x3ff0_0000_0000_0000 }).lt(worst_of(measures, count)),
        forall|i: int|
            0 <= i < count ==> !(#[trigger] measures[i]).quality.lt(worst_of(measures, count)),
        worst_of(measures, count) == (Real { bits: 0x3ff0_0000_0000_0000 }) || exists|i: int|
            0 <= i < count && worst_of(measures, count) == (#[trigger] measures[i]).quality,
    decreases count,
{
    assert(!(Real { bits: 0x3ff0_0000_0000_0000 }).nan());
    if count > 0 {
        worst_cell_is_lowest(measures, count - 1);
        assert(worst_of(measures, count) == measures[count - 1].quality || worst_of(measures, count)
            == worst_of(measures, count - 1));
    }
}

/// A cell passes without a finding exactly where no earlier cell has its points, it has an
/// area above the floor, a quality above the validity floor and up to the target, does
/// not cross itself, and stays on the surface.
pub proof fn sound_cell_has_no_finding(cells: Seq<CellView>, index: int, measure: CellMeasure)
    ensures
        cell_findings(cells, index, measure).len() == 0 <==> {
            &&& forall|earlier: int|
                0 <= earlier < index ==> #[trigger] cells[earlier].points.to_multiset()
                    != cells[index].points.to_multiset()
            &&& !measure.area.le(measure.area_floor)
            &&& !measure.quality.le(Real { bits: VALID_QUALITY_BITS })
            &&& !(cells[index].points.len() == 4 && measure.self_intersecting)
            &&& !measure.residual_limit.lt(measure.residual)
            &&& !measure.quality.lt(Real { bits: QUALITY_TARGET_BITS })
        },
{
    if repeats(cells, index) {
        let earlier = choose|earlier: int|
            0 <= earlier < index && #[trigger] cells[earlier].points.to_multiset()
                == cells[index].points.to_multiset();
        assert(cells[earlier].points.to_multiset() == cells[index].points.to_multiset());
    }
}

/// Cells of three and of four points are counted apart, and together they are all where no cell
/// has another number.
pub proof fn cells_are_counted_by_arity(cells: Seq<CellView>, arity: nat)
    ensures
        count_arity(cells, arity) <= cells.len(),
        count_arity(cells, arity) == cells.len() <==> forall|i: int|
            0 <= i < cells.len() ==> (#[trigger] cells[i]).points.len() == arity,
        count_arity(cells, arity) == 0 <==> forall|i: int|
            0 <= i < cells.len() ==> (#[trigger] cells[i]).points.len() != arity,
        (forall|i: int|
            0 <= i < cells.len() ==> (#[trigger] cells[i]).points.len() == 3 || cells[i].points.len()
                == 4) ==> count_arity(cells, 3) + count_arity(cells, 4) == cells.len(),
    decreases cells.len(),
{
    if cells.len() > 0 {
        let front = cells.drop_last();
        cells_are_counted_by_arity(front, arity);
        let last = cells.last();
        assert(cells[cells.len() - 1] == last);
        assert forall|i: int| 0 <= i < front.len() implies #[trigger] front[i] == cells[i] by {}
        if forall|i: int| 0 <= i < cells.len() ==> (#[trigger] cells[i]).points.len() == arity {
            assert(forall|i: int| 0 <= i < front.len() ==> (#[trigger] front[i]).points.len() == arity);
        }
        if forall|i: int| 0 <= i < cells.len() ==> (#[trigger] cells[i]).points.len() != arity {
            assert(forall|i: int| 0 <= i < front.len() ==> (#[trigger] front[i]).points.len() != arity);
        }
        if forall|i: int| 0 <= i < front.len() ==> (#[trigger] front[i]).points.len() == arity {
            assert forall|i: int| 0 <= i < front.len() implies (#[trigger] cells[i]).points.len()
                == arity by {
                assert(front[i] == cells[i]);
            }
        }
        if forall|i: int| 0 <= i < front.len() ==> (#[trigger] front[i]).points.len() != arity {
            assert forall|i: int| 0 <= i < front.len() implies (#[trigger] cells[i]).points.len()
                != arity by {
                assert(front[i] == cells[i]);
            }
        }
    }
}

} // verus!
