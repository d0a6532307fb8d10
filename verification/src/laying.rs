//! Laying the rows of boundary layers: the cells between the columns of all
//! groups of edges.

use vstd::prelude::*;

use crate::assess::BoundaryEdge;
#[allow(unused_imports)]
use crate::error::fails_input;
use crate::error::MeshResult;
#[allow(unused_imports)]
use crate::layers::{added_cells, layer_message, strip_polygon};
use crate::layers::{push_layer_cell, strip_polygons, LayerKey};
#[allow(unused_imports)]
use crate::marching::{ring_without_repeats, without_repeats};
#[allow(unused_imports)]
use crate::quadtree::Leaf;
use crate::sorted::SortedMap;
use crate::topology::{Candidate, PointKey};
#[allow(unused_imports)]
use crate::topology::CellView;

verus! {

/// The columns of points over the wall's points.
pub type Columns = SortedMap<PointKey, Vec<PointKey>>;

/// Some row between two columns has fewer than three points.
pub open spec fn edge_collapses(from: Seq<PointKey>, to: Seq<PointKey>, layers: int) -> bool {
    exists|row: int| 0 <= row < layers && (#[trigger] strip_polygon(from, to, row)).len() < 3
}

/// The cells between two columns, from the wall inwards, turned round where they
/// were found to be clockwise.
pub open spec fn edge_cells(
    from: Seq<PointKey>,
    to: Seq<PointKey>,
    turned: Seq<bool>,
    leaf: Leaf,
) -> Seq<CellView> {
    Seq::new(
        turned.len(),
        |row: int|
            CellView {
                points: if turned[row] {
                    strip_polygon(from, to, row).reverse()
                } else {
                    strip_polygon(from, to, row)
                },
                leaf,
                protected: true,
            },
    )
}

/// What is laid along one group of edges: the edges, the columns over their
/// ends, and of every row whether it was found to be clockwise.
pub struct GroupPlan {
    pub edges: Vec<usize>,
    pub layers: usize,
    pub columns: Columns,
    pub turned: Vec<Vec<bool>>,
}

/// The edge of a group at a place.
pub open spec fn plan_edge(plan: GroupPlan, boundary: Seq<BoundaryEdge>, place: int) -> BoundaryEdge {
    boundary[plan.edges@[place] as int]
}

pub open spec fn plan_from(plan: GroupPlan, boundary: Seq<BoundaryEdge>, place: int) -> Seq<PointKey> {
    plan.columns@[plan_edge(plan, boundary, place).points[0]]@
}

pub open spec fn plan_to(plan: GroupPlan, boundary: Seq<BoundaryEdge>, place: int) -> Seq<PointKey> {
    plan.columns@[plan_edge(plan, boundary, place).points[1]]@
}

/// There is a column of known points over either end of an edge, and a mark for
/// every row.
pub open spec fn place_ready(
    plan: GroupPlan,
    boundary: Seq<BoundaryEdge>,
    points: Set<PointKey>,
    cells: int,
    place: int,
) -> bool {
    let edge = plan_edge(plan, boundary, place);
    &&& plan.edges@[place] < boundary.len()
    &&& edge.cell < cells
    &&& plan.columns@.dom().contains(edge.points[0])
    &&& plan.columns@.dom().contains(edge.points[1])
    &&& plan_from(plan, boundary, place).len() == plan.layers + 1
    &&& plan_to(plan, boundary, place).len() == plan.layers + 1
    &&& plan_from(plan, boundary, place).to_set().subset_of(points)
    &&& plan_to(plan, boundary, place).to_set().subset_of(points)
    &&& plan.turned@[place]@.len() == plan.layers
}

/// Every edge of the group is ready.
pub open spec fn plan_ready(
    plan: GroupPlan,
    boundary: Seq<BoundaryEdge>,
    points: Set<PointKey>,
    cells: int,
) -> bool {
    &&& plan.columns.wf()
    &&& plan.layers < usize::MAX
    &&& plan.turned@.len() == plan.edges@.len()
    &&& forall|place: int|
        0 <= place < plan.edges@.len() ==> #[trigger] place_ready(
            plan,
            boundary,
            points,
            cells,
            place,
        )
}

/// The cells of the first edges of a group. A cell takes the leaf of the cell
/// that its edge bounds.
pub open spec fn group_cells(
    plan: GroupPlan,
    boundary: Seq<BoundaryEdge>,
    cells: Seq<CellView>,
    count: int,
) -> Seq<CellView>
    decreases count,
{
    if count <= 0 {
        Seq::empty()
    } else {
        group_cells(plan, boundary, cells, count - 1) + edge_cells(
            plan_from(plan, boundary, count - 1),
            plan_to(plan, boundary, count - 1),
            plan.turned@[count - 1]@,
            cells[plan_edge(plan, boundary, count - 1).cell as int].leaf,
        )
    }
}

/// Some edge of the group has a row that collapses.
pub open spec fn group_collapses(plan: GroupPlan, boundary: Seq<BoundaryEdge>) -> bool {
    exists|place: int|
        0 <= place < plan.edges@.len() && edge_collapses(
            #[trigger] plan_from(plan, boundary, place),
            plan_to(plan, boundary, place),
            plan.layers as int,
        )
}

/// The cells of the first groups.
pub open spec fn laid_cells(
    plans: Seq<GroupPlan>,
    boundary: Seq<BoundaryEdge>,
    cells: Seq<CellView>,
    count: int,
) -> Seq<CellView>
    decreases count,
{
    if count <= 0 {
        Seq::empty()
    } else {
        laid_cells(plans, boundary, cells, count - 1) + group_cells(
            plans[count - 1],
            boundary,
            cells,
            plans[count - 1].edges@.len() as int,
        )
    }
}

/// Nothing but the cells changed.
pub open spec fn only_cells_changed(before: Candidate, after: Candidate) -> bool {
    &&& after.points == before.points
    &&& after.next_inserted == before.next_inserted
    &&& after.construction_failures == before.construction_failures
    &&& after.layer_edge_targets == before.layer_edge_targets
}

proof fn fewer_points(points: Seq<PointKey>)
    ensures
        without_repeats(points).len() <= points.len(),
        without_repeats(points).to_set().subset_of(points.to_set()),
    decreases points.len(),
{
    let list = without_repeats(points);
    if points.len() > 0 {
        fewer_points(points.drop_last());
        let rest = without_repeats(points.drop_last());
        assert forall|key: PointKey| list.to_set().contains(key) implies points.to_set().contains(
            key,
        ) by {
            if rest.contains(key) {
                assert(rest.to_set().contains(key));
                assert(points.drop_last().contains(key));
                let p = points.drop_last().index_of(key);
                assert(points[p] == key);
            } else {
                let p = list.index_of(key);
                if p < rest.len() {
                    assert(rest[p] == key);
                }
                assert(key == points.last());
                assert(points[points.len() - 1] == key);
            }
        }
    }
}

/// A row's polygon has at most four points, all of the two columns.
proof fn row_points(from: Seq<PointKey>, to: Seq<PointKey>, row: int, points: Set<PointKey>)
    requires
        0 <= row < from.len() - 1,
        from.len() == to.len(),
        from.to_set().subset_of(points),
        to.to_set().subset_of(points),
    ensures
        strip_polygon(from, to, row).len() <= 4,
        strip_polygon(from, to, row).to_set().subset_of(points),
{
    let ring = seq![from[row], to[row], to[row + 1], from[row + 1]];
    fewer_points(ring);
    let list = without_repeats(ring);
    let polygon = strip_polygon(from, to, row);
    assert(from.to_set().contains(from[row]) && from.to_set().contains(from[row + 1]));
    assert(to.to_set().contains(to[row]) && to.to_set().contains(to[row + 1]));
    assert forall|key: PointKey| polygon.to_set().contains(key) implies points.contains(key) by {
        let p = polygon.index_of(key);
        assert(list[p] == key);
        assert(list.to_set().contains(key));
        assert(ring.to_set().contains(key));
        let q = ring.index_of(key);
        assert(q == 0 || q == 1 || q == 2 || q == 3);
    }
}

/// Lays the cells between the columns over the ends of one edge.
fn lay_edge(
    domain: &str,
    candidate: &mut Candidate,
    plan: &GroupPlan,
    edge: &BoundaryEdge,
    place: usize,
) -> (result: MeshResult<()>)
    requires
        old(candidate).wf(),
        plan.columns.wf(),
        plan.layers < usize::MAX,
        place < plan.turned@.len(),
        plan.turned@[place as int]@.len() == plan.layers,
        edge.cell < old(candidate).cells@.len(),
        plan.columns@.dom().contains(edge.points[0]),
        plan.columns@.dom().contains(edge.points[1]),
        plan.columns@[edge.points[0]]@.len() == plan.layers + 1,
        plan.columns@[edge.points[1]]@.len() == plan.layers + 1,
        plan.columns@[edge.points[0]]@.to_set().subset_of(old(candidate).points@.dom()),
        plan.columns@[edge.points[1]]@.to_set().subset_of(old(candidate).points@.dom()),
    ensures
        final(candidate).wf(),
        only_cells_changed(*old(candidate), *final(candidate)),
        ({
            let from = plan.columns@[edge.points[0]]@;
            let to = plan.columns@[edge.points[1]]@;
            &&& edge_collapses(from, to, plan.layers as int) ==> fails_input(
                result,
                layer_message(domain@, "collapsed at an open-patch endpoint"@),
            ) && *final(candidate) == *old(candidate)
            &&& !edge_collapses(from, to, plan.layers as int) ==> result is Ok
                && final(candidate).cells_view() == old(candidate).cells_view() + edge_cells(
                from,
                to,
                plan.turned@[place as int]@,
                old(candidate).cells_view()[edge.cell as int].leaf,
            )
        }),
{
    let ghost from = plan.columns@[edge.points[0]]@;
    let ghost to = plan.columns@[edge.points[1]]@;
    let ghost before = candidate.cells_view();
    let polygons = match strip_polygons(domain, &plan.columns, edge, plan.layers) {
        Ok(list) => list,
        Err(error) => {
            return Err(error);
        },
    };
    let ghost turned = plan.turned@[place as int]@;
    let ghost leaf = before[edge.cell as int].leaf;
    let ghost wanted = edge_cells(from, to, turned, leaf);
    let mut row: usize = 0;
    assert(candidate.cells_view() =~= before + wanted.take(0));
    while row < polygons.len()
        invariant
            row <= polygons@.len(),
            polygons@.len() == plan.layers,
            place < plan.turned@.len(),
            turned == plan.turned@[place as int]@,
            turned.len() == plan.layers,
            from.len() == plan.layers + 1,
            to.len() == plan.layers + 1,
            from.to_set().subset_of(candidate.points@.dom()),
            to.to_set().subset_of(candidate.points@.dom()),
            candidate.wf(),
            only_cells_changed(*old(candidate), *candidate),
            edge.cell < before.len(),
            leaf == before[edge.cell as int].leaf,
            wanted == edge_cells(from, to, turned, leaf),
            candidate.cells_view() == before + wanted.take(row as int),
            forall|k: int|
                0 <= k < polygons@.len() ==> (#[trigger] polygons@[k])@ == strip_polygon(from, to, k)
                    && polygons@[k]@.len() >= 3,
        decreases polygons@.len() - row,
    {
        proof {
            row_points(from, to, row as int, candidate.points@.dom());
            let polygon = polygons@[row as int]@;
            assert forall|i: int| 0 <= i < polygon.len() implies candidate.points@.dom().contains(
                #[trigger] polygon[i],
            ) by {
                assert(polygon.to_set().contains(polygon[i]));
            }
            assert(candidate.cells_view().len() == candidate.cells@.len());
            assert(candidate.cells_view()[edge.cell as int] == before[edge.cell as int]);
        }
        push_layer_cell(candidate, &polygons[row], plan.turned[place][row], edge);
        assert(candidate.cells_view() =~= before + wanted.take(row + 1));
        row += 1;
    }
    assert(wanted.take(row as int) =~= wanted);
    Ok(())
}

/// Lays the rows of one group of edges.
pub fn lay_group(
    domain: &str,
    candidate: &mut Candidate,
    boundary: &Vec<BoundaryEdge>,
    plan: &GroupPlan,
) -> (result: MeshResult<()>)
    requires
        old(candidate).wf(),
        plan_ready(
            *plan,
            boundary@,
            old(candidate).points@.dom(),
            old(candidate).cells@.len() as int,
        ),
    ensures
        final(candidate).wf(),
        only_cells_changed(*old(candidate), *final(candidate)),
        final(candidate).cells@.len() >= old(candidate).cells@.len(),
        group_collapses(*plan, boundary@) ==> fails_input(
            result,
            layer_message(domain@, "collapsed at an open-patch endpoint"@),
        ),
        !group_collapses(*plan, boundary@) ==> result is Ok && final(candidate).cells_view() == old(
            candidate,
        ).cells_view() + group_cells(
            *plan,
            boundary@,
            old(candidate).cells_view(),
            plan.edges@.len() as int,
        ),
{
    let ghost before = candidate.cells_view();
    let ghost known = candidate.points@.dom();
    let mut place: usize = 0;
    assert(candidate.cells_view() =~= before + group_cells(*plan, boundary@, before, 0));
    while place < plan.edges.len()
        invariant
            place <= plan.edges@.len(),
            before == old(candidate).cells_view(),
            known == candidate.points@.dom(),
            before.len() == old(candidate).cells@.len(),
            candidate.wf(),
            only_cells_changed(*old(candidate), *candidate),
            plan_ready(*plan, boundary@, known, before.len() as int),
            candidate.cells_view() == before + group_cells(
                *plan,
                boundary@,
                before,
                place as int,
            ),
            forall|k: int|
                0 <= k < place ==> !edge_collapses(
                    #[trigger] plan_from(*plan, boundary@, k),
                    plan_to(*plan, boundary@, k),
                    plan.layers as int,
                ),
        decreases plan.edges@.len() - place,
    {
        assert(place_ready(*plan, boundary@, known, before.len() as int, place as int));
        assert(candidate.cells_view().len() == candidate.cells@.len());
        let edge = &boundary[plan.edges[place]];
        assert(*edge == plan_edge(*plan, boundary@, place as int));
        assert(candidate.cells_view()[edge.cell as int] == before[edge.cell as int]);
        match lay_edge(domain, candidate, plan, edge, place) {
            Ok(_) => {},
            Err(error) => {
                assert(edge_collapses(
                    plan_from(*plan, boundary@, place as int),
                    plan_to(*plan, boundary@, place as int),
                    plan.layers as int,
                ));
                return Err(error);
            },
        }
        assert(candidate.cells_view() =~= before + group_cells(
            *plan,
            boundary@,
            before,
            place + 1,
        ));
        place += 1;
    }
    Ok(())
}

/// Lays the rows of all groups, one after the other. The cells that were there
/// stay, and behind them come those of the groups.
pub fn lay_groups(
    domain: &str,
    candidate: &mut Candidate,
    boundary: &Vec<BoundaryEdge>,
    plans: &Vec<GroupPlan>,
) -> (result: MeshResult<()>)
    requires
        old(candidate).wf(),
        forall|g: int|
            0 <= g < plans@.len() ==> plan_ready(
                #[trigger] plans@[g],
                boundary@,
                old(candidate).points@.dom(),
                old(candidate).cells@.len() as int,
            ),
    ensures
        final(candidate).wf(),
        only_cells_changed(*old(candidate), *final(candidate)),
        (exists|g: int| 0 <= g < plans@.len() && group_collapses(#[trigger] plans@[g], boundary@))
            ==> fails_input(
            result,
            layer_message(domain@, "collapsed at an open-patch endpoint"@),
        ),
        (forall|g: int| 0 <= g < plans@.len() ==> !group_collapses(#[trigger] plans@[g], boundary@))
            ==> result is Ok && final(candidate).cells_view() == old(candidate).cells_view()
            + laid_cells(plans@, boundary@, old(candidate).cells_view(), plans@.len() as int),
        result is Ok ==> final(candidate).cells@.len() == old(candidate).cells@.len()
            + planned_cells(plans@, plans@.len() as int),
{
    let ghost before = candidate.cells_view();
    let ghost known = candidate.points@.dom();
    let mut g: usize = 0;
    assert(candidate.cells_view() =~= before + laid_cells(plans@, boundary@, before, 0));
    while g < plans.len()
        invariant
            g <= plans@.len(),
            before == old(candidate).cells_view(),
            before.len() == old(candidate).cells@.len(),
            known == candidate.points@.dom(),
            candidate.wf(),
            only_cells_changed(*old(candidate), *candidate),
            forall|k: int|
                0 <= k < plans@.len() ==> plan_ready(
                    #[trigger] plans@[k],
                    boundary@,
                    known,
                    before.len() as int,
                ),
            forall|k: int| 0 <= k < g ==> !group_collapses(#[trigger] plans@[k], boundary@),
            candidate.cells_view() == before + laid_cells(plans@, boundary@, before, g as int),
        decreases plans@.len() - g,
    {
        let ghost held = candidate.cells_view();
        assert(held.len() == candidate.cells@.len());
        proof {
            still_ready(plans@[g as int], boundary@, known, before.len() as int, held.len() as int);
            same_leaves(
                plans@[g as int],
                boundary@,
                known,
                before,
                held,
                plans@[g as int].edges@.len() as int,
            );
        }
        match lay_group(domain, candidate, boundary, &plans[g]) {
            Ok(_) => {},
            Err(error) => {
                assert(group_collapses(plans@[g as int], boundary@));
                return Err(error);
            },
        }
        assert(candidate.cells_view() =~= before + laid_cells(plans@, boundary@, before, g + 1));
        g += 1;
    }
    proof {
        laid_count(plans@, boundary@, known, before, g as int);
        assert(candidate.cells_view().len() == candidate.cells@.len());
    }
    Ok(())
}

/// How many cells the first groups add: a group's rows times its edges.
pub open spec fn planned_cells(plans: Seq<GroupPlan>, count: int) -> nat
    decreases count,
{
    if count <= 0 {
        0
    } else {
        planned_cells(plans, count - 1) + (plans[count - 1].layers as nat) * plans[count
            - 1].edges@.len()
    }
}

/// The plans are for these groups, in order.
pub open spec fn plans_follow(
    plans: Seq<GroupPlan>,
    keys: Seq<LayerKey>,
    groups: Seq<Vec<usize>>,
) -> bool {
    &&& plans.len() == keys.len()
    &&& groups.len() == keys.len()
    &&& forall|g: int|
        0 <= g < plans.len() ==> (#[trigger] plans[g]).layers == keys[g].layers
            && plans[g].edges@.len() == groups[g]@.len()
}

/// Laying the rows of all groups adds as many cells as was checked against the
/// limit beforehand.
pub proof fn laying_adds_what_was_checked(
    plans: Seq<GroupPlan>,
    keys: Seq<LayerKey>,
    groups: Seq<Vec<usize>>,
    count: int,
)
    requires
        plans_follow(plans, keys, groups),
        0 <= count <= plans.len(),
    ensures
        planned_cells(plans, count) == added_cells(keys, groups, count),
    decreases count,
{
    if count > 0 {
        laying_adds_what_was_checked(plans, keys, groups, count - 1);
        assert(plans[count - 1].layers == keys[count - 1].layers);
    }
}

proof fn still_ready(
    plan: GroupPlan,
    boundary: Seq<BoundaryEdge>,
    points: Set<PointKey>,
    cells: int,
    more: int,
)
    requires
        plan_ready(plan, boundary, points, cells),
        cells <= more,
    ensures
        plan_ready(plan, boundary, points, more),
{
    assert forall|place: int| 0 <= place < plan.edges@.len() implies #[trigger] place_ready(
        plan,
        boundary,
        points,
        more,
        place,
    ) by {
        assert(place_ready(plan, boundary, points, cells, place));
    }
}

/// Cells behind the first ones change no leaf.
proof fn same_leaves(
    plan: GroupPlan,
    boundary: Seq<BoundaryEdge>,
    points: Set<PointKey>,
    before: Seq<CellView>,
    held: Seq<CellView>,
    count: int,
)
    requires
        plan_ready(plan, boundary, points, before.len() as int),
        before.len() <= held.len(),
        forall|i: int| 0 <= i < before.len() ==> #[trigger] held[i] == before[i],
        count <= plan.edges@.len(),
    ensures
        group_cells(plan, boundary, held, count) == group_cells(plan, boundary, before, count),
    decreases count,
{
    if count > 0 {
        same_leaves(plan, boundary, points, before, held, count - 1);
        assert(place_ready(plan, boundary, points, before.len() as int, count - 1));
        let cell = plan_edge(plan, boundary, count - 1).cell as int;
        assert(held[cell] == before[cell]);
    }
}

proof fn group_count(
    plan: GroupPlan,
    boundary: Seq<BoundaryEdge>,
    points: Set<PointKey>,
    before: Seq<CellView>,
    count: int,
)
    requires
        plan_ready(plan, boundary, points, before.len() as int),
        0 <= count <= plan.edges@.len(),
    ensures
        group_cells(plan, boundary, before, count).len() == plan.layers * count,
    decreases count,
{
    if count > 0 {
        group_count(plan, boundary, points, before, count - 1);
        assert(place_ready(plan, boundary, points, before.len() as int, count - 1));
        assert(plan.layers * count == plan.layers * (count - 1) + plan.layers)
            by (nonlinear_arith);
    } else {
        assert(plan.layers * 0 == 0) by (nonlinear_arith);
    }
}

proof fn laid_count(
    plans: Seq<GroupPlan>,
    boundary: Seq<BoundaryEdge>,
    points: Set<PointKey>,
    before: Seq<CellView>,
    count: int,
)
    requires
        forall|k: int|
            0 <= k < plans.len() ==> plan_ready(
                #[trigger] plans[k],
                boundary,
                points,
                before.len() as int,
            ),
        0 <= count <= plans.len(),
    ensures
        laid_cells(plans, boundary, before, count).len() == planned_cells(plans, count),
    decreases count,
{
    if count > 0 {
        laid_count(plans, boundary, points, before, count - 1);
        let plan = plans[count - 1];
        group_count(plan, boundary, points, before, plan.edges@.len() as int);
    }
}

} // verus!
