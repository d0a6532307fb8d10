//! Boundary layers in 2D: which edges get which rows, and the cells of the
//! rows.

use vstd::prelude::*;

use crate::assess::{vertex_uses, BoundaryEdge};
#[allow(unused_imports)]
use crate::assess::{capped, degree, degree_bound, on_exposed};
use crate::controls::BoundaryLayerControl;
use crate::edits::{cell_limit, Site};
#[allow(unused_imports)]
use crate::edits::{cell_capacity, point_at};
use crate::error::{MeshError, MeshResult};
#[allow(unused_imports)]
use crate::error::{fails_input, fails_limit};
use crate::incidence::Side;
use crate::marching::dedup_polygon;
#[allow(unused_imports)]
use crate::marching::ring_without_repeats;
use crate::number::Real;
use crate::sorted::{same_key, Key, SortedMap, SortedSet};
use crate::text::{around, join, quoted, same_text, sentence};
#[allow(unused_imports)]
use crate::text::{debug_text, decimal};
use crate::topology::{ordered_pair, Candidate, Cell, EdgeKey, Point, PointKey};
#[allow(unused_imports)]
use crate::topology::{cell_known, edge_key, CellView};

verus! {

/// The rows that a boundary edge asks for: the bits of the first height, the
/// number of rows, and the bits of the growth.
#[derive(Debug, Clone, Copy, PartialEq, Eq, Structural)]
pub struct LayerKey {
    pub first_height: u64,
    pub layers: usize,
    pub growth: u64,
}

impl Key for LayerKey {
    open spec fn before(self, other: Self) -> bool {
        self.first_height < other.first_height || (self.first_height == other.first_height && (
        self.layers < other.layers || (self.layers == other.layers && self.growth < other.growth)))
    }

    proof fn irreflexive(a: Self) {
    }

    proof fn transitive(a: Self, b: Self, c: Self) {
    }

    proof fn total(a: Self, b: Self) {
    }

    fn precedes(&self, other: &Self) -> (result: bool) {
        self.first_height < other.first_height || (self.first_height == other.first_height && (
        self.layers < other.layers || (self.layers == other.layers && self.growth < other.growth)))
    }
}

impl LayerKey {
    pub open spec fn of(control: BoundaryLayerControl) -> LayerKey {
        LayerKey {
            first_height: control.hwall_n.bits,
            layers: control.layers,
            growth: control.ratio.bits,
        }
    }

    pub fn from_control(control: &BoundaryLayerControl) -> (result: LayerKey)
        ensures
            result == LayerKey::of(*control),
    {
        LayerKey {
            first_height: control.hwall_n.bits,
            layers: control.layers,
            growth: control.ratio.bits,
        }
    }

    pub fn first_height(self) -> (result: Real)
        ensures
            result.bits == self.first_height,
    {
        Real { bits: self.first_height }
    }

    pub fn growth(self) -> (result: Real)
        ensures
            result.bits == self.growth,
    {
        Real { bits: self.growth }
    }
}

/// The controls that an edge belongs to ask for different rows.
pub open spec fn members_disagree(controls: Seq<BoundaryLayerControl>, members: Seq<usize>) -> bool {
    exists|i: int, j: int|
        0 <= i < members.len() && 0 <= j < members.len() && LayerKey::of(
            controls[(#[trigger] members[i]) as int],
        ) != LayerKey::of(controls[(#[trigger] members[j]) as int])
}

/// The rows an edge asks for; `None` where it belongs to no control.
pub open spec fn rows_of(controls: Seq<BoundaryLayerControl>, members: Seq<usize>) -> Option<LayerKey> {
    if members.len() == 0 {
        None
    } else {
        Some(LayerKey::of(controls[members[0] as int]))
    }
}

/// Two edges have an end in common.
pub open spec fn edges_meet(a: BoundaryEdge, b: BoundaryEdge) -> bool {
    a.points[0] == b.points[0] || a.points[0] == b.points[1] || a.points[1] == b.points[0]
        || a.points[1] == b.points[1]
}

/// An earlier edge at the same vertex asks for other rows.
pub open spec fn neighbors_disagree(
    controls: Seq<BoundaryLayerControl>,
    boundary: Seq<BoundaryEdge>,
    members: Seq<Vec<usize>>,
    index: int,
) -> bool {
    exists|earlier: int|
        0 <= earlier < index && #[trigger] edges_meet(boundary[earlier], boundary[index])
            && rows_of(controls, members[earlier]@) is Some && rows_of(controls, members[index]@)
            is Some && rows_of(controls, members[earlier]@) != rows_of(controls, members[index]@)
}

/// The edge can take its rows.
pub open spec fn edge_agrees(
    controls: Seq<BoundaryLayerControl>,
    boundary: Seq<BoundaryEdge>,
    members: Seq<Vec<usize>>,
    index: int,
) -> bool {
    !members_disagree(controls, members[index]@) && !neighbors_disagree(
        controls,
        boundary,
        members,
        index,
    )
}

/// Some edge belongs to the control.
pub open spec fn control_used(members: Seq<Vec<usize>>, control: int) -> bool {
    exists|i: int| 0 <= i < members.len() && (#[trigger] members[i])@.contains(control as usize)
}

/// The control is meant for the domain but no edge belongs to it.
pub open spec fn control_missed(
    controls: Seq<BoundaryLayerControl>,
    members: Seq<Vec<usize>>,
    domain: Seq<char>,
    control: int,
) -> bool {
    controls[control].domain@ == domain && !control_used(members, control)
}

/// The edges that ask for the given rows, among the first `count`.
pub open spec fn edges_with(
    controls: Seq<BoundaryLayerControl>,
    members: Seq<Vec<usize>>,
    key: LayerKey,
    count: int,
) -> Seq<usize>
    decreases count,
{
    if count <= 0 {
        Seq::empty()
    } else {
        let rest = edges_with(controls, members, key, count - 1);
        if rows_of(controls, members[count - 1]@) == Some(key) {
            rest.push((count - 1) as usize)
        } else {
            rest
        }
    }
}

/// What is said of controls on one edge that differ in the given terms.
pub open spec fn overlap_message(domain: Seq<char>, terms: Seq<char>) -> Seq<char> {
    "domain "@ + debug_text(domain) + (
    " has overlapping boundary-layer controls with incompatible "@ + terms)
}

/// What is said of controls on adjacent edges that differ in the given terms.
pub open spec fn adjacent_message(domain: Seq<char>, terms: Seq<char>) -> Seq<char> {
    "domain "@ + debug_text(domain) + (
    " has adjacent boundary-layer controls with incompatible "@ + terms)
}

pub open spec fn missed_message(domain: Seq<char>, region: Seq<char>) -> Seq<char> {
    "boundary-layer control for domain "@ + debug_text(domain)
        + " matched no boundary edges in region "@ + debug_text(region)
}

/// The grouping of edges by rows is complete and in order.
pub open spec fn groups_edges(
    groups: SortedMap<LayerKey, Vec<usize>>,
    controls: Seq<BoundaryLayerControl>,
    members: Seq<Vec<usize>>,
    count: int,
) -> bool {
    &&& groups.wf()
    &&& forall|key: LayerKey| #[trigger]
        groups@.dom().contains(key) <==> edges_with(controls, members, key, count).len() > 0
    &&& forall|key: LayerKey| #[trigger]
        groups@.dom().contains(key) ==> groups@[key]@ == edges_with(controls, members, key, count)
}

fn rows_for_edge(controls: &Vec<BoundaryLayerControl>, members: &Vec<usize>) -> (result: Option<
    LayerKey,
>)
    requires
        forall|i: int| 0 <= i < members.len() ==> (#[trigger] members[i]) < controls.len(),
    ensures
        result == rows_of(controls@, members@),
{
    if members.len() == 0 {
        None
    } else {
        Some(LayerKey::from_control(&controls[members[0]]))
    }
}

pub(crate) fn disagreement(controls: &Vec<BoundaryLayerControl>, members: &Vec<usize>) -> (result: bool)
    requires
        forall|i: int| 0 <= i < members.len() ==> (#[trigger] members[i]) < controls.len(),
    ensures
        result == members_disagree(controls@, members@),
{
    if members.len() == 0 {
        return false;
    }
    let first = LayerKey::from_control(&controls[members[0]]);
    let mut i: usize = 1;
    while i < members.len()
        invariant
            1 <= i <= members.len(),
            forall|k: int| 0 <= k < members.len() ==> (#[trigger] members[k]) < controls.len(),
            first == LayerKey::of(controls[members[0] as int]),
            forall|k: int|
                0 <= k < i ==> LayerKey::of(controls[(#[trigger] members[k]) as int]) == first,
        decreases members.len() - i,
    {
        let key = LayerKey::from_control(&controls[members[i]]);
        if !same_key(&key, &first) {
            assert(LayerKey::of(controls@[members@[i as int] as int]) != LayerKey::of(
                controls@[members@[0] as int],
            ));
            return true;
        }
        i = i + 1;
    }
    false
}

/// Gives each boundary edge of a domain its rows and gathers the edges by
/// rows. `members[i]` lists the controls that edge `i` belongs to; `terms` is
/// what the controls call that in which they differ.
pub fn group_layers(
    domain: &str,
    terms: &str,
    controls: &Vec<BoundaryLayerControl>,
    boundary: &Vec<BoundaryEdge>,
    members: &Vec<Vec<usize>>,
) -> (result: MeshResult<SortedMap<LayerKey, Vec<usize>>>)
    requires
        members.len() == boundary.len(),
        forall|i: int, k: int|
            0 <= i < members.len() && 0 <= k < members[i].len() ==> (#[trigger] members[i][k])
                < controls.len(),
    ensures
        match result {
            Ok(groups) => {
                &&& forall|i: int|
                    0 <= i < boundary.len() ==> #[trigger] edge_agrees(
                        controls@,
                        boundary@,
                        members@,
                        i,
                    )
                &&& forall|c: int|
                    0 <= c < controls.len() ==> !#[trigger] control_missed(
                        controls@,
                        members@,
                        domain@,
                        c,
                    )
                &&& groups_edges(groups, controls@, members@, boundary@.len() as int)
            },
            Err(_) => {
                ||| exists|i: int|
                    {
                        &&& 0 <= i < boundary.len()
                        &&& !#[trigger] edge_agrees(controls@, boundary@, members@, i)
                        &&& forall|j: int|
                            0 <= j < i ==> edge_agrees(controls@, boundary@, members@, j)
                        &&& if members_disagree(controls@, members[i]@) {
                            fails_input(result, overlap_message(domain@, terms@))
                        } else {
                            fails_input(result, adjacent_message(domain@, terms@))
                        }
                    }
                ||| exists|c: int|
                    {
                        &&& 0 <= c < controls.len()
                        &&& #[trigger] control_missed(controls@, members@, domain@, c)
                        &&& forall|d: int|
                            0 <= d < c ==> !control_missed(controls@, members@, domain@, d)
                        &&& forall|j: int|
                            0 <= j < boundary.len() ==> edge_agrees(
                                controls@,
                                boundary@,
                                members@,
                                j,
                            )
                        &&& fails_input(
                            result,
                            missed_message(domain@, controls[c].boundary_region@),
                        )
                    }
            },
        },
{
    let mut groups: SortedMap<LayerKey, Vec<usize>> = SortedMap::new();
    let mut vertex_rows: SortedMap<PointKey, LayerKey> = SortedMap::new();
    let mut used: SortedSet<usize> = SortedSet::new();
    let mut i: usize = 0;
    while i < boundary.len()
        invariant
            i <= boundary.len(),
            members.len() == boundary.len(),
            forall|p: int, q: int|
                0 <= p < members.len() && 0 <= q < members[p].len() ==> (#[trigger] members[p][q])
                    < controls.len(),
            groups_edges(groups, controls@, members@, i as int),
            vertex_rows.wf(),
            used.wf(),
            forall|j: int|
                0 <= j < i ==> #[trigger] edge_agrees(controls@, boundary@, members@, j),
            forall|j: int|
                #![trigger boundary[j]]
                0 <= j < i && rows_of(controls@, members[j]@) is Some
                    ==> vertex_rows@.dom().contains(boundary[j].points[0])
                    && vertex_rows@[boundary[j].points[0]] == rows_of(controls@, members[j]@)->0
                    && vertex_rows@.dom().contains(boundary[j].points[1])
                    && vertex_rows@[boundary[j].points[1]] == rows_of(controls@, members[j]@)->0,
            forall|point: PointKey| #[trigger]
                vertex_rows@.dom().contains(point) ==> exists|j: int|
                    0 <= j < i && rows_of(controls@, members[j]@) == Some(vertex_rows@[point]) && ((
                    #[trigger] boundary[j]).points[0] == point || boundary[j].points[1] == point),
            forall|c: usize| #[trigger]
                used@.contains(c) <==> exists|j: int|
                    0 <= j < i && (#[trigger] members[j])@.contains(c),
        decreases boundary.len() - i,
    {
        let list = &members[i];
        let edge = &boundary[i];
        proof {
            assert forall|k: int| 0 <= k < list.len() implies (#[trigger] list[k])
                < controls.len() by {
                assert(members[i as int][k] < controls.len());
            }
        }
        if disagreement(controls, list) {
            let reason = join(
                " has overlapping boundary-layer controls with incompatible ",
                terms,
            );
            let text = around("domain ", quoted(domain).as_str(), reason.as_str());
            assert(!edge_agrees(controls@, boundary@, members@, i as int));
            return Err(MeshError::InvalidInput(text));
        }
        let ghost used_before = used@;
        match rows_for_edge(controls, list) {
            None => {
                proof {
                    assert(!neighbors_disagree(controls@, boundary@, members@, i as int));
                    assert(edge_agrees(controls@, boundary@, members@, i as int));
                    assert forall|key: LayerKey| #[trigger]
                        edges_with(controls@, members@, key, i + 1) == edges_with(
                        controls@,
                        members@,
                        key,
                        i as int,
                    ) by {}
                    assert forall|c: usize| #[trigger] used@.contains(c) <==> exists|j: int|
                        0 <= j < i + 1 && (#[trigger] members[j])@.contains(c) by {
                        assert(used_before.contains(c) <==> exists|j: int|
                            0 <= j < i && (#[trigger] members[j])@.contains(c));
                        assert(!members[i as int]@.contains(c));
                        if exists|j: int|
                            0 <= j < i + 1 && (#[trigger] members[j])@.contains(c) {
                            let j = choose|j: int|
                                0 <= j < i + 1 && (#[trigger] members[j])@.contains(c);
                            assert(0 <= j < i && members[j]@.contains(c));
                        }
                    }
                }
            },
            Some(key) => {
                let mut k: usize = 0;
                while k < list.len()
                    invariant
                        k <= list.len(),
                        used.wf(),
                        forall|c: usize| #[trigger]
                            used@.contains(c) <==> used_before.contains(c) || list@.take(
                                k as int,
                            ).contains(c),
                    decreases list.len() - k,
                {
                    let ghost partial = used@;
                    used.insert(list[k]);
                    proof {
                        let short = list@.take(k as int);
                        let long = list@.take(k as int + 1);
                        assert forall|c: usize| #[trigger]
                            used@.contains(c) <==> used_before.contains(c) || long.contains(c) by {
                            assert(partial.contains(c) <==> used_before.contains(c)
                                || short.contains(c));
                            if short.contains(c) {
                                let p = short.index_of(c);
                                assert(long[p] == c);
                            }
                            if long.contains(c) && c != list@[k as int] {
                                let p = long.index_of(c);
                                assert(short[p] == c);
                            }
                            assert(long[k as int] == list@[k as int]);
                        }
                    }
                    k = k + 1;
                }
                assert(list@.take(k as int) =~= list@);
                let first = edge.points[0];
                let second = edge.points[1];
                let clash_first = match vertex_rows.get(&first) {
                    Some(other) => !same_key(other, &key),
                    None => false,
                };
                let clash_second = match vertex_rows.get(&second) {
                    Some(other) => !same_key(other, &key),
                    None => false,
                };
                if clash_first || clash_second {
                    proof {
                        let point = if clash_first {
                            first
                        } else {
                            second
                        };
                        let j = choose|j: int|
                            0 <= j < i && rows_of(controls@, members[j]@) == Some(
                                vertex_rows@[point],
                            ) && ((#[trigger] boundary[j]).points[0] == point
                                || boundary[j].points[1] == point);
                        assert(edges_meet(boundary@[j], boundary@[i as int]));
                        assert(neighbors_disagree(controls@, boundary@, members@, i as int));
                        assert(!edge_agrees(controls@, boundary@, members@, i as int));
                    }
                    let reason = join(
                        " has adjacent boundary-layer controls with incompatible ",
                        terms,
                    );
                    let text = around("domain ", quoted(domain).as_str(), reason.as_str());
                    return Err(MeshError::InvalidInput(text));
                }
                proof {
                    assert(!neighbors_disagree(controls@, boundary@, members@, i as int)) by {
                        if neighbors_disagree(controls@, boundary@, members@, i as int) {
                            let j = choose|j: int|
                                0 <= j < i && #[trigger] edges_meet(
                                    boundary@[j],
                                    boundary@[i as int],
                                ) && rows_of(controls@, members@[j]@) is Some && rows_of(
                                    controls@,
                                    members@[i as int]@,
                                ) is Some && rows_of(controls@, members@[j]@) != rows_of(
                                    controls@,
                                    members@[i as int]@,
                                );
                            assert(boundary[j].points[0] == first || boundary[j].points[0]
                                == second || boundary[j].points[1] == first
                                || boundary[j].points[1] == second);
                        }
                    }
                    assert(edge_agrees(controls@, boundary@, members@, i as int));
                }
                let ghost rows_before = vertex_rows@;
                vertex_rows.insert(first, key);
                vertex_rows.insert(second, key);
                let ghost groups_before = groups@;
                let mut group: Vec<usize> = match groups.get(&key) {
                    Some(found) => {
                        let copy = found.clone();
                        assert(copy@ =~= found@);
                        copy
                    },
                    None => Vec::new(),
                };
                assert(group@ =~= edges_with(controls@, members@, key, i as int));
                group.push(i);
                groups.insert(key, group);
                proof {
                    assert forall|other: LayerKey| #[trigger]
                        groups@.dom().contains(other) <==> edges_with(
                            controls@,
                            members@,
                            other,
                            i + 1,
                        ).len() > 0 by {
                        assert(groups_before.dom().contains(other) <==> edges_with(
                            controls@,
                            members@,
                            other,
                            i as int,
                        ).len() > 0);
                    }
                    assert forall|other: LayerKey| #[trigger]
                        groups@.dom().contains(other) implies groups@[other]@ == edges_with(
                        controls@,
                        members@,
                        other,
                        i + 1,
                    ) by {
                        if other != key {
                            assert(groups_before.dom().contains(other));
                        }
                    }
                    assert forall|c: usize| #[trigger] used@.contains(c) <==> exists|j: int|
                        0 <= j < i + 1 && (#[trigger] members[j])@.contains(c) by {
                        assert(used_before.contains(c) <==> exists|j: int|
                            0 <= j < i && (#[trigger] members[j])@.contains(c));
                        if used_before.contains(c) {
                            let j = choose|j: int|
                                0 <= j < i && (#[trigger] members[j])@.contains(c);
                            assert(0 <= j < i + 1 && members[j]@.contains(c));
                        }
                        if exists|j: int|
                            0 <= j < i + 1 && (#[trigger] members[j])@.contains(c) {
                            let j = choose|j: int|
                                0 <= j < i + 1 && (#[trigger] members[j])@.contains(c);
                            if j < i {
                                assert(used_before.contains(c));
                            }
                        }
                    }
                    assert forall|point: PointKey| #[trigger]
                        vertex_rows@.dom().contains(point) implies exists|j: int|
                        0 <= j < i + 1 && rows_of(controls@, members[j]@) == Some(
                            vertex_rows@[point],
                        ) && ((#[trigger] boundary[j]).points[0] == point
                            || boundary[j].points[1] == point) by {
                        if point == first || point == second {
                            assert(boundary[i as int].points[0] == first);
                        } else {
                            assert(rows_before.dom().contains(point));
                            let j = choose|j: int|
                                0 <= j < i && rows_of(controls@, members[j]@) == Some(
                                    rows_before[point],
                                ) && ((#[trigger] boundary[j]).points[0] == point
                                    || boundary[j].points[1] == point);
                            assert(0 <= j < i + 1 && (boundary[j].points[0] == point
                                || boundary[j].points[1] == point));
                        }
                    }
                }
            },
        }
        i = i + 1;
    }
    let mut c: usize = 0;
    while c < controls.len()
        invariant
            c <= controls.len(),
            members.len() == boundary.len(),
            used.wf(),
            forall|j: int|
                0 <= j < boundary.len() ==> #[trigger] edge_agrees(
                    controls@,
                    boundary@,
                    members@,
                    j,
                ),
            forall|k: usize| #[trigger]
                used@.contains(k) <==> exists|j: int|
                    0 <= j < boundary.len() && (#[trigger] members[j])@.contains(k),
            forall|d: int|
                0 <= d < c ==> !#[trigger] control_missed(controls@, members@, domain@, d),
        decreases controls.len() - c,
    {
        proof {
            assert(used@.contains(c) <==> control_used(members@, c as int));
        }
        if same_text(controls[c].domain.as_str(), domain) && !used.contains(&c) {
            let mut text = around(
                "boundary-layer control for domain ",
                quoted(domain).as_str(),
                " matched no boundary edges in region ",
            );
            text = join(
                text.as_str(),
                quoted(controls[c].boundary_region.as_str()).as_str(),
            );
            assert(control_missed(controls@, members@, domain@, c as int));
            return Err(MeshError::InvalidInput(text));
        }
        c = c + 1;
    }
    Ok(groups)
}

/// The cells that the first `count` groups of edges would add.
pub open spec fn added_cells(keys: Seq<LayerKey>, groups: Seq<Vec<usize>>, count: int) -> nat
    decreases count,
{
    if count <= 0 {
        0
    } else {
        added_cells(keys, groups, count - 1) + (keys[count - 1].layers as nat) * groups[count - 1]@.len()
    }
}

pub open spec fn layer_limit_message(max_cells: u64) -> Seq<char> {
    "requested boundary layers exceed the configured "@ + decimal(max_cells as nat)
        + " cell limit"@
}

pub(crate) fn saturating_product(a: usize, b: usize) -> (result: usize)
    ensures
        result == capped((a * b) as nat),
{
    match a.checked_mul(b) {
        Some(value) => value,
        None => usize::MAX,
    }
}

/// Refuses layers that would make too many cells.
pub fn check_layer_room(
    cell_count: usize,
    groups: &SortedMap<LayerKey, Vec<usize>>,
    max_cells: u64,
) -> (result: MeshResult<()>)
    requires
        groups.wf(),
    ensures
        ({
            let total = cell_count as nat + added_cells(
                groups.keys@,
                groups.values@,
                groups.keys@.len() as int,
            );
            &&& capped(total) <= cell_capacity(max_cells) ==> result is Ok
            &&& capped(total) > cell_capacity(max_cells) ==> fails_limit(
                result,
                layer_limit_message(max_cells),
            )
        }),
{
    let mut added: usize = 0;
    let mut i: usize = 0;
    while i < groups.keys.len()
        invariant
            i <= groups.keys@.len(),
            groups.wf(),
            added == capped(added_cells(groups.keys@, groups.values@, i as int)),
        decreases groups.keys@.len() - i,
    {
        proof {
            let a = groups.keys@[i as int].layers as int;
            let b = groups.values@[i as int]@.len() as int;
            assert(a * b >= 0) by (nonlinear_arith)
                requires
                    a >= 0,
                    b >= 0,
            ;
        }
        added = added.saturating_add(
            saturating_product(groups.keys[i].layers, groups.values[i].len()),
        );
        i = i + 1;
    }
    if cell_count.saturating_add(added) > cell_limit(max_cells) {
        return Err(
            MeshError::LimitExceeded(
                sentence(
                    "requested boundary layers exceed the configured ",
                    max_cells,
                    " cell limit",
                ),
            ),
        );
    }
    Ok(())
}

/// What is said of layers that a domain cannot take.
pub open spec fn layer_message(domain: Seq<char>, reason: Seq<char>) -> Seq<char> {
    "domain "@ + debug_text(domain) + " rejected the requested boundary layers: "@ + reason
}

pub fn layer_error(domain: &str, reason: &str) -> (result: MeshError)
    ensures
        result is InvalidInput,
        result.text() == layer_message(domain@, reason@),
{
    let text = around(
        "domain ",
        quoted(domain).as_str(),
        " rejected the requested boundary layers: ",
    );
    MeshError::InvalidInput(join(text.as_str(), reason))
}

/// The sides of the boundary edges at the given places.
pub open spec fn patch_sides(boundary: Seq<BoundaryEdge>, edges: Seq<usize>) -> Seq<Side> {
    edges.map_values(
        |edge: usize|
            Side {
                cell: boundary[edge as int].cell,
                from: boundary[edge as int].points[0],
                to: boundary[edge as int].points[1],
            },
    )
}

/// The vertices of a patch of boundary edges, in order, and which of them are
/// the ends of an open patch.
pub struct LayerPatch {
    pub vertices: Vec<PointKey>,
    pub ends: Vec<bool>,
}

impl LayerPatch {
    pub open spec fn wf(self) -> bool {
        crate::sorted::increasing(self.vertices@) && self.ends@.len() == self.vertices@.len()
    }

    /// The patch is the given sides: their ends are its vertices, no vertex
    /// has more than two sides, and the ends of the patch have one.
    pub open spec fn covers(self, sides: Seq<Side>) -> bool {
        &&& self.wf()
        &&& forall|point: PointKey| #[trigger]
            self.vertices@.contains(point) <==> on_exposed(sides, point)
        &&& forall|i: int|
            0 <= i < self.vertices@.len() ==> degree(sides, #[trigger] self.vertices@[i]) <= 2
        &&& forall|i: int|
            0 <= i < self.vertices@.len() ==> #[trigger] self.ends@[i] == (degree(
                sides,
                self.vertices@[i],
            ) == 1)
    }
}

/// Some vertex has more than two sides.
pub open spec fn branches(sides: Seq<Side>) -> bool {
    exists|point: PointKey| #[trigger] degree(sides, point) > 2
}

/// The vertices of a group of boundary edges. Edges that branch are refused.
pub fn layer_patch(domain: &str, boundary: &Vec<BoundaryEdge>, edges: &Vec<usize>) -> (result: MeshResult<
    LayerPatch,
>)
    requires
        forall|i: int| 0 <= i < edges.len() ==> (#[trigger] edges[i]) < boundary.len(),
        2 * edges.len() <= usize::MAX,
    ensures
        branches(patch_sides(boundary@, edges@)) ==> fails_input(
            result,
            layer_message(
                domain@,
                "controlled boundary edges do not form manifold open or closed patches"@,
            ),
        ),
        !branches(patch_sides(boundary@, edges@)) ==> (result matches Ok(patch) && patch.covers(
            patch_sides(boundary@, edges@),
        )),
{
    let mut sides: Vec<Side> = Vec::new();
    let mut i: usize = 0;
    while i < edges.len()
        invariant
            i <= edges.len(),
            forall|k: int| 0 <= k < edges.len() ==> (#[trigger] edges[k]) < boundary.len(),
            sides@ == patch_sides(boundary@, edges@).take(i as int),
        decreases edges.len() - i,
    {
        let edge = &boundary[edges[i]];
        let side = Side { cell: edge.cell, from: edge.points[0], to: edge.points[1] };
        sides.push(side);
        assert(patch_sides(boundary@, edges@).take(i as int + 1) =~= patch_sides(
            boundary@,
            edges@,
        ).take(i as int).push(side));
        i = i + 1;
    }
    assert(sides@ =~= patch_sides(boundary@, edges@));
    let uses = vertex_uses(&sides);
    let mut ends: Vec<bool> = Vec::new();
    let mut k: usize = 0;
    while k < uses.keys.len()
        invariant
            k <= uses.keys@.len(),
            uses.wf(),
            sides@ == patch_sides(boundary@, edges@),
            forall|point: PointKey| #[trigger]
                uses@.dom().contains(point) ==> uses@[point].0 == degree(sides@, point),
            ends.len() == k,
            forall|p: int|
                0 <= p < k ==> degree(sides@, #[trigger] uses.keys@[p]) <= 2 && ends[p] == (degree(
                    sides@,
                    uses.keys@[p],
                ) == 1),
        decreases uses.keys@.len() - k,
    {
        proof {
            uses.entry_at(k as int);
        }
        let count: usize = uses.values[k].0;
        if count > 2 {
            assert(degree(sides@, uses.keys@[k as int]) > 2);
            return Err(
                layer_error(
                    domain,
                    "controlled boundary edges do not form manifold open or closed patches",
                ),
            );
        }
        ends.push(count == 1);
        k = k + 1;
    }
    proof {
        assert forall|point: PointKey| #[trigger] degree(sides@, point) <= 2 by {
            degree_bound(sides@, point);
            if degree(sides@, point) > 0 {
                assert(uses@.dom().contains(point));
                let p = uses.keys@.index_of(point);
                assert(uses.keys@[p] == point);
            }
        }
        assert forall|point: PointKey| #[trigger]
            uses.keys@.contains(point) <==> on_exposed(sides@, point) by {
            assert(uses@.dom().contains(point) == uses.keys@.contains(point));
        }
    }
    Ok(LayerPatch { vertices: uses.keys, ends })
}

/// The names of a vertex's rows, from the wall inwards. The vertex itself
/// becomes the innermost row; at the end of an open patch it is every row.
pub open spec fn column_keys(vertex: PointKey, end: bool, layers: usize, next: int) -> Seq<PointKey> {
    Seq::new(
        (layers + 1) as nat,
        |row: int|
            if end || row == layers {
                vertex
            } else {
                PointKey::Inserted((next + row) as u64)
            },
    )
}

/// The points with the first `rows` rows of a column added.
pub open spec fn rows_added(
    points: Map<PointKey, Point>,
    sites: Seq<Site>,
    next: int,
    rows: int,
) -> Map<PointKey, Point>
    decreases rows,
{
    if rows <= 0 {
        points
    } else {
        rows_added(points, sites, next, rows - 1).insert(
            PointKey::Inserted((next + rows - 1) as u64),
            point_at(sites[rows - 1], rows == 1, true),
        )
    }
}

/// The points with a whole column added.
pub open spec fn column_added(
    points: Map<PointKey, Point>,
    vertex: PointKey,
    end: bool,
    layers: usize,
    sites: Seq<Site>,
    next: int,
) -> Map<PointKey, Point> {
    if end {
        points.insert(vertex, Point { protected: true, ..points[vertex] })
    } else {
        rows_added(points, sites, next, layers as int).insert(
            vertex,
            point_at(sites[layers as int], false, true),
        )
    }
}

/// The next free name after the first `count` columns.
pub open spec fn next_after(ends: Seq<bool>, layers: usize, next: int, count: int) -> int
    decreases count,
{
    if count <= 0 {
        next
    } else {
        next_after(ends, layers, next, count - 1) + if ends[count - 1] {
            0int
        } else {
            layers as int
        }
    }
}

/// The points after the first `count` columns.
pub open spec fn columns_added(
    points: Map<PointKey, Point>,
    patch: LayerPatch,
    layers: usize,
    sites: Seq<Vec<Site>>,
    next: int,
    count: int,
) -> Map<PointKey, Point>
    decreases count,
{
    if count <= 0 {
        points
    } else {
        column_added(
            columns_added(points, patch, layers, sites, next, count - 1),
            patch.vertices@[count - 1],
            patch.ends@[count - 1],
            layers,
            sites[count - 1]@,
            next_after(patch.ends@, layers, next, count - 1),
        )
    }
}

proof fn next_after_bound(ends: Seq<bool>, layers: usize, next: int, count: int)
    requires
        0 <= count <= ends.len(),
    ensures
        next <= next_after(ends, layers, next, count) <= next + layers * count,
        next_after(ends, layers, next, count) + layers * (ends.len() - count) <= next + layers
            * ends.len(),
    decreases count,
{
    if count > 0 {
        next_after_bound(ends, layers, next, count - 1);
        let l = layers as int;
        let n = ends.len() as int;
        assert(l * (count - 1) + l == l * count) by (nonlinear_arith);
        assert(l * (n - count) + l * count == l * n) by (nonlinear_arith);
    } else {
        let l = layers as int;
        let n = ends.len() as int;
        assert(l * (n - 0) == l * n) by (nonlinear_arith);
        assert(l * 0 == 0) by (nonlinear_arith);
    }
}

/// Adds the rows of every vertex of a patch. `sites[i][r]` is where row `r` of
/// vertex `i` goes; the ends of an open patch have no rows of their own.
pub fn install_rows(
    candidate: &mut Candidate,
    patch: &LayerPatch,
    layers: usize,
    sites: &Vec<Vec<Site>>,
) -> (result: SortedMap<PointKey, Vec<PointKey>>)
    requires
        old(candidate).wf(),
        patch.wf(),
        sites.len() == patch.vertices.len(),
        layers < usize::MAX,
        forall|i: int|
            0 <= i < patch.vertices@.len() ==> old(candidate).points@.dom().contains(
                #[trigger] patch.vertices@[i],
            ),
        forall|i: int|
            0 <= i < sites.len() && !patch.ends@[i] ==> (#[trigger] sites[i])@.len() == layers + 1,
        old(candidate).next_inserted + layers * patch.vertices@.len() <= u64::MAX,
    ensures
        final(candidate).wf(),
        final(candidate).cells == old(candidate).cells,
        final(candidate).construction_failures == old(candidate).construction_failures,
        final(candidate).layer_edge_targets == old(candidate).layer_edge_targets,
        final(candidate).points@ == columns_added(
            old(candidate).points@,
            *patch,
            layers,
            sites@,
            old(candidate).next_inserted as int,
            patch.vertices@.len() as int,
        ),
        final(candidate).next_inserted == next_after(
            patch.ends@,
            layers,
            old(candidate).next_inserted as int,
            patch.vertices@.len() as int,
        ),
        result.wf(),
        result.keys@ == patch.vertices@,
        forall|i: int|
            0 <= i < patch.vertices@.len() ==> (#[trigger] result.values@[i])@ == column_keys(
                patch.vertices@[i],
                patch.ends@[i],
                layers,
                next_after(patch.ends@, layers, old(candidate).next_inserted as int, i),
            ),
        forall|i: int, row: int|
            0 <= i < patch.vertices@.len() && 0 <= row <= layers ==> final(
                candidate).points@.dom().contains(#[trigger] result.values@[i]@[row]),
{
    let ghost start = candidate.points@;
    let ghost first = candidate.next_inserted as int;
    let ghost views = candidate.cells_view();
    let mut values: Vec<Vec<PointKey>> = Vec::new();
    let mut keys: Vec<PointKey> = Vec::new();
    let mut i: usize = 0;
    while i < patch.vertices.len()
        invariant
            i <= patch.vertices@.len(),
            patch.wf(),
            sites.len() == patch.vertices.len(),
            layers < usize::MAX,
            start == old(candidate).points@,
            first == old(candidate).next_inserted,
            forall|k: int|
                0 <= k < patch.vertices@.len() ==> start.dom().contains(
                    #[trigger] patch.vertices@[k],
                ),
            forall|k: int|
                0 <= k < sites.len() && !patch.ends@[k] ==> (#[trigger] sites[k])@.len() == layers
                    + 1,
            first + layers * patch.vertices@.len() <= u64::MAX,
            candidate.points.wf(),
            candidate.construction_failures.wf(),
            candidate.layer_edge_targets.wf(),
            candidate.cells == old(candidate).cells,
            candidate.construction_failures == old(candidate).construction_failures,
            candidate.layer_edge_targets == old(candidate).layer_edge_targets,
            start.dom().subset_of(candidate.points@.dom()),
            candidate.points@ == columns_added(
                start,
                *patch,
                layers,
                sites@,
                first,
                i as int,
            ),
            candidate.next_inserted == next_after(patch.ends@, layers, first, i as int),
            keys@ == patch.vertices@.take(i as int),
            values.len() == i,
            forall|k: int|
                0 <= k < i ==> (#[trigger] values[k])@ == column_keys(
                    patch.vertices@[k],
                    patch.ends@[k],
                    layers,
                    next_after(patch.ends@, layers, first, k),
                ),
            forall|k: int, row: int|
                0 <= k < i && 0 <= row <= layers ==> candidate.points@.dom().contains(
                    #[trigger] values[k]@[row],
                ),
        decreases patch.vertices@.len() - i,
    {
        let vertex = patch.vertices[i];
        let end = patch.ends[i];
        let ghost before = candidate.points@;
        let ghost next = candidate.next_inserted as int;
        let ghost done = values@;
        proof {
            next_after_bound(patch.ends@, layers, first, i as int);
            let l = layers as int;
            let rest = patch.vertices@.len() - i;
            assert(l * rest >= l) by (nonlinear_arith)
                requires
                    l >= 0,
                    rest >= 1,
            ;
            assert(start.dom().contains(patch.vertices@[i as int]));
        }
        let mut column: Vec<PointKey> = Vec::new();
        if end {
            let point = match candidate.points.get(&vertex) {
                Some(found) => *found,
                None => Point {
                    uv: [Real::zero(), Real::zero()],
                    world: [Real::zero(), Real::zero(), Real::zero()],
                    boundary: false,
                    protected: true,
                },
            };
            candidate.points.insert(
                vertex,
                Point {
                    uv: point.uv,
                    world: point.world,
                    boundary: point.boundary,
                    protected: true,
                },
            );
            let mut row: usize = 0;
            while row <= layers
                invariant
                    row <= layers + 1,
                    layers < usize::MAX,
                    column.len() == row,
                    forall|k: int| 0 <= k < row ==> #[trigger] column[k] == vertex,
                decreases layers + 1 - row,
            {
                column.push(vertex);
                row = row + 1;
            }
        } else {
            let list = &sites[i];
            let mut row: usize = 0;
            while row < layers
                invariant
                    row <= layers < usize::MAX,
                    list@.len() == layers + 1,
                    next + layers <= u64::MAX,
                    candidate.next_inserted == next + row,
                    candidate.points.wf(),
                    candidate.construction_failures.wf(),
                    candidate.layer_edge_targets.wf(),
                    candidate.cells == old(candidate).cells,
                    candidate.construction_failures == old(candidate).construction_failures,
                    candidate.layer_edge_targets == old(candidate).layer_edge_targets,
                    before.dom().subset_of(candidate.points@.dom()),
                    candidate.points@ == rows_added(before, list@, next, row as int),
                    column.len() == row,
                    forall|k: int|
                        0 <= k < row ==> #[trigger] column[k] == PointKey::Inserted(
                            (next + k) as u64,
                        ) && candidate.points@.dom().contains(column[k]),
                decreases layers - row,
            {
                let key = PointKey::Inserted(candidate.next_inserted);
                candidate.next_inserted = candidate.next_inserted + 1;
                candidate.points.insert(
                    key,
                    Point {
                        uv: list[row].uv,
                        world: list[row].world,
                        boundary: row == 0,
                        protected: true,
                    },
                );
                column.push(key);
                row = row + 1;
            }
            candidate.points.insert(
                vertex,
                Point {
                    uv: list[layers].uv,
                    world: list[layers].world,
                    boundary: false,
                    protected: true,
                },
            );
            column.push(vertex);
        }
        assert(column@ =~= column_keys(vertex, end, layers, next));
        keys.push(vertex);
        assert(keys@ =~= patch.vertices@.take(i as int + 1));
        values.push(column);
        proof {
            assert forall|k: int, row: int|
                0 <= k < i + 1 && 0 <= row <= layers implies candidate.points@.dom().contains(
                #[trigger] values[k]@[row],
            ) by {
                if k < i {
                    assert(values[k] == done[k]);
                    assert(before.dom().contains(done[k]@[row]));
                } else {
                    assert(values[k]@[row] == column_keys(vertex, end, layers, next)[row]);
                }
            }
        }
        i = i + 1;
    }
    proof {
        assert(patch.vertices@.take(i as int) =~= patch.vertices@);
        assert forall|k: int| 0 <= k < views.len() implies cell_known(
            #[trigger] views[k],
            candidate.points@,
        ) by {
            assert(cell_known(views[k], start));
            assert forall|p: int| 0 <= p < views[k].points.len() implies candidate.points@.dom().contains(
                #[trigger] views[k].points[p],
            ) by {
                assert(start.dom().contains(views[k].points[p]));
            }
        }
    }
    SortedMap { keys, values }
}

/// The quad between two columns at a row, without repeated points.
pub open spec fn strip_polygon(from: Seq<PointKey>, to: Seq<PointKey>, row: int) -> Seq<PointKey> {
    ring_without_repeats(seq![from[row], to[row], to[row + 1], from[row + 1]])
}

/// The cells of one boundary edge's rows, from the wall inwards, before they
/// are oriented. A cell with fewer than three points is refused.
pub fn strip_polygons(
    domain: &str,
    columns: &SortedMap<PointKey, Vec<PointKey>>,
    edge: &BoundaryEdge,
    layers: usize,
) -> (result: MeshResult<Vec<Vec<PointKey>>>)
    requires
        columns.wf(),
        layers < usize::MAX,
        columns@.dom().contains(edge.points[0]),
        columns@.dom().contains(edge.points[1]),
        columns@[edge.points[0]]@.len() == layers + 1,
        columns@[edge.points[1]]@.len() == layers + 1,
    ensures
        ({
            let from = columns@[edge.points[0]]@;
            let to = columns@[edge.points[1]]@;
            &&& (exists|row: int|
                0 <= row < layers && (#[trigger] strip_polygon(from, to, row)).len() < 3)
                ==> fails_input(
                result,
                layer_message(domain@, "collapsed at an open-patch endpoint"@),
            )
            &&& (forall|row: int|
                0 <= row < layers ==> (#[trigger] strip_polygon(from, to, row)).len() >= 3) ==> (
            result matches Ok(list) && list.len() == layers && forall|row: int|
                0 <= row < layers ==> (#[trigger] list[row])@ == strip_polygon(from, to, row))
        }),
{
    let ghost from_keys = columns@[edge.points[0]]@;
    let ghost to_keys = columns@[edge.points[1]]@;
    let mut list: Vec<Vec<PointKey>> = Vec::new();
    let start = columns.find(&edge.points[0]);
    let stop = columns.find(&edge.points[1]);
    if let (Some(start), Some(stop)) = (start, stop) {
        let from = &columns.values[start];
        let to = &columns.values[stop];
        let mut row: usize = 0;
        while row < layers
            invariant
                row <= layers < usize::MAX,
                from@ == from_keys,
                to@ == to_keys,
                from_keys == columns@[edge.points[0]]@,
                to_keys == columns@[edge.points[1]]@,
                from@.len() == layers + 1,
                to@.len() == layers + 1,
                list.len() == row,
                forall|k: int|
                    0 <= k < row ==> (#[trigger] list[k])@ == strip_polygon(from_keys, to_keys, k)
                        && list[k]@.len() >= 3,
            decreases layers - row,
        {
            let mut ring: Vec<PointKey> = Vec::new();
            ring.push(from[row]);
            ring.push(to[row]);
            ring.push(to[row + 1]);
            ring.push(from[row + 1]);
            assert(ring@ =~= seq![
                from_keys[row as int],
                to_keys[row as int],
                to_keys[row + 1],
                from_keys[row + 1],
            ]);
            let polygon = dedup_polygon(&ring);
            assert(polygon@ == strip_polygon(from_keys, to_keys, row as int));
            if polygon.len() < 3 {
                assert(strip_polygon(from_keys, to_keys, row as int).len() < 3);
                return Err(layer_error(domain, "collapsed at an open-patch endpoint"));
            }
            list.push(polygon);
            row = row + 1;
        }
        proof {
            assert forall|k: int| 0 <= k < layers implies (#[trigger] strip_polygon(
                from_keys,
                to_keys,
                k,
            )).len() >= 3 by {
                assert(list[k]@ == strip_polygon(from_keys, to_keys, k));
            }
        }
    }
    Ok(list)
}

/// Adds a protected layer cell, turned round where it was found to be
/// clockwise.
pub fn push_layer_cell(
    candidate: &mut Candidate,
    polygon: &Vec<PointKey>,
    clockwise: bool,
    edge: &BoundaryEdge,
)
    requires
        old(candidate).wf(),
        polygon@.len() == 3 || polygon@.len() == 4,
        edge.cell < old(candidate).cells@.len(),
        forall|i: int|
            0 <= i < polygon@.len() ==> old(candidate).points@.dom().contains(
                #[trigger] polygon@[i],
            ),
    ensures
        final(candidate).wf(),
        final(candidate).points == old(candidate).points,
        final(candidate).next_inserted == old(candidate).next_inserted,
        final(candidate).construction_failures == old(candidate).construction_failures,
        final(candidate).layer_edge_targets == old(candidate).layer_edge_targets,
        final(candidate).cells_view() == old(candidate).cells_view().push(
            CellView {
                points: if clockwise {
                    polygon@.reverse()
                } else {
                    polygon@
                },
                leaf: old(candidate).cells_view()[edge.cell as int].leaf,
                protected: true,
            },
        ),
{
    let ghost before = candidate.cells_view();
    let mut points: Vec<PointKey> = Vec::new();
    let mut i: usize = 0;
    while i < polygon.len()
        invariant
            i <= polygon.len(),
            points.len() == i,
            forall|k: int|
                0 <= k < i ==> #[trigger] points[k] == (if clockwise {
                    polygon[polygon.len() - 1 - k]
                } else {
                    polygon[k]
                }),
        decreases polygon.len() - i,
    {
        points.push(
            if clockwise {
                polygon[polygon.len() - 1 - i]
            } else {
                polygon[i]
            },
        );
        i = i + 1;
    }
    let cell = Cell { points, leaf: candidate.cells[edge.cell].leaf, protected: true };
    proof {
        assert(before[edge.cell as int] == candidate.cells[edge.cell as int]@);
        assert(cell@.points =~= if clockwise {
            polygon@.reverse()
        } else {
            polygon@
        });
        assert forall|k: int| 0 <= k < cell@.points.len() implies candidate.points@.dom().contains(
            #[trigger] cell@.points[k],
        ) by {
            let p = if clockwise {
                polygon@.len() - 1 - k
            } else {
                k
            };
            assert(candidate.points@.dom().contains(polygon@[p]));
        }
        assert(cell_known(cell@, candidate.points@));
    }
    candidate.cells.push(cell);
    assert(candidate.cells_view() =~= before.push(cell@));
}

/// The targets with those of the first `rows` steps of a column added.
pub open spec fn column_targets(
    targets: Map<EdgeKey, Real>,
    column: Seq<PointKey>,
    heights: Seq<Real>,
    rows: int,
) -> Map<EdgeKey, Real>
    decreases rows,
{
    if rows <= 0 {
        targets
    } else {
        let rest = column_targets(targets, column, heights, rows - 1);
        if column[rows - 1] == column[rows] {
            rest
        } else {
            rest.insert(edge_key(column[rows - 1], column[rows]), heights[rows - 1])
        }
    }
}

/// Notes the height of each row as the target length of the edge across it.
pub fn note_row_heights(candidate: &mut Candidate, column: &Vec<PointKey>, heights: &Vec<Real>)
    requires
        old(candidate).wf(),
        column@.len() == heights@.len() + 1,
    ensures
        final(candidate).wf(),
        final(candidate).points == old(candidate).points,
        final(candidate).cells == old(candidate).cells,
        final(candidate).next_inserted == old(candidate).next_inserted,
        final(candidate).construction_failures == old(candidate).construction_failures,
        final(candidate).layer_edge_targets@ == column_targets(
            old(candidate).layer_edge_targets@,
            column@,
            heights@,
            heights@.len() as int,
        ),
{
    let mut row: usize = 0;
    while row < heights.len()
        invariant
            row <= heights.len(),
            column@.len() == heights@.len() + 1,
            candidate.wf(),
            candidate.points == old(candidate).points,
            candidate.cells == old(candidate).cells,
            candidate.next_inserted == old(candidate).next_inserted,
            candidate.construction_failures == old(candidate).construction_failures,
            candidate.layer_edge_targets@ == column_targets(
                old(candidate).layer_edge_targets@,
                column@,
                heights@,
                row as int,
            ),
        decreases heights.len() - row,
    {
        if !same_key(&column[row], &column[row + 1]) {
            candidate.layer_edge_targets.insert(
                ordered_pair(column[row], column[row + 1]),
                heights[row],
            );
        }
        row = row + 1;
    }
}

/// Away from the ends of a patch the rows of two neighbouring columns with
/// fresh names bound proper quads.
pub proof fn inner_strip_is_quads(a: PointKey, b: PointKey, layers: usize, p: int, q: int, row: int)
    requires
        a != b,
        0 <= row < layers,
        0 <= p,
        0 <= q,
        p + layers <= q || q + layers <= p,
        p + layers <= u64::MAX,
        q + layers <= u64::MAX,
        forall|n: u64| p <= n < p + layers || q <= n < q + layers ==> a != PointKey::Inserted(n),
        forall|n: u64| p <= n < p + layers || q <= n < q + layers ==> b != PointKey::Inserted(n),
    ensures
        strip_polygon(column_keys(a, false, layers, p), column_keys(b, false, layers, q), row).len()
            == 4,
{
    let from = column_keys(a, false, layers, p);
    let to = column_keys(b, false, layers, q);
    let ring = seq![from[row], to[row], to[row + 1], from[row + 1]];
    assert(from[row] == PointKey::Inserted((p + row) as u64));
    assert(to[row] == PointKey::Inserted((q + row) as u64));
    if row + 1 < layers {
        assert(from[row + 1] == PointKey::Inserted((p + row + 1) as u64));
        assert(to[row + 1] == PointKey::Inserted((q + row + 1) as u64));
    } else {
        assert(from[row + 1] == a);
        assert(to[row + 1] == b);
        let m = (p + row) as u64;
        let n = (q + row) as u64;
        assert(p <= m < p + layers);
        assert(q <= n < q + layers);
    }
    reveal_with_fuel(crate::marching::without_repeats, 5);
    assert(ring.drop_last() =~= seq![from[row], to[row], to[row + 1]]);
    assert(ring.drop_last().drop_last() =~= seq![from[row], to[row]]);
    assert(ring.drop_last().drop_last().drop_last() =~= seq![from[row]]);
    assert(ring.drop_last().drop_last().drop_last().drop_last() =~= Seq::<PointKey>::empty());
    let one = crate::marching::without_repeats(seq![from[row]]);
    assert(one =~= seq![from[row]]);
    let two = crate::marching::without_repeats(seq![from[row], to[row]]);
    assert(two =~= seq![from[row], to[row]]);
    let three = crate::marching::without_repeats(seq![from[row], to[row], to[row + 1]]);
    assert(three =~= seq![from[row], to[row], to[row + 1]]);
    let four = crate::marching::without_repeats(ring);
    assert(four =~= ring);
}

/// The edges of a group are those that ask for its rows, in order.
pub proof fn groups_have_their_edges(
    controls: Seq<BoundaryLayerControl>,
    members: Seq<Vec<usize>>,
    key: LayerKey,
    count: int,
) -> (places: Seq<int>)
    requires
        0 <= count <= usize::MAX,
    ensures
        edges_with(controls, members, key, count).len() == places.len(),
        forall|i: int, j: int|
            0 <= i < j < places.len() ==> (#[trigger] places[i]) < (#[trigger] places[j]),
        forall|k: int| #[trigger] places.contains(k) <==> 0 <= k < count && (members[k]@.len() > 0 && LayerKey::of(controls[members[k]@[0] as int]) == key),
        forall|i: int|
            0 <= i < places.len() ==> edges_with(controls, members, key, count)[i] == ((#[trigger] places[i]) as usize),
    decreases count,
{
    if count == 0 {
        Seq::empty()
    } else {
        let list = groups_have_their_edges(controls, members, key, count - 1);
        let last = count - 1;
        let takes = (members[last]@.len() > 0 && LayerKey::of(controls[members[last]@[0] as int]) == key);
        let places = if takes {
            list.push(last)
        } else {
            list
        };
        let rest = edges_with(controls, members, key, count - 1);
        let now = edges_with(controls, members, key, count);
        assert(takes == (rows_of(controls, members[last]@) == Some(key)));
        assert forall|i: int| 0 <= i < list.len() implies 0 <= (#[trigger] list[i]) < last by {
            assert(list.contains(list[i]));
        }
        assert forall|k: int| #[trigger] places.contains(k) <==> 0 <= k < count && (members[k]@.len() > 0 && LayerKey::of(controls[members[k]@[0] as int]) == key) by {
            if places.contains(k) {
                let m = places.index_of(k);
                if m < list.len() {
                    assert(list[m] == k);
                    assert(list.contains(k));
                }
            }
            if list.contains(k) {
                let m = list.index_of(k);
                assert(places[m] == k);
            }
            if k == last && takes {
                assert(places[list.len() as int] == k);
            }
        }
        assert forall|i: int| 0 <= i < places.len() implies now[i] == ((#[trigger] places[i]) as usize) by {
            if i < list.len() {
                assert(places[i] == list[i]);
                assert(now[i] == rest[i]);
            }
        }
        places
    }
}

/// Where every edge can take its rows, all controls of an edge and of the edges that it
/// meets ask for the same ones.
pub proof fn agreeing_edges_share_rows(
    controls: Seq<BoundaryLayerControl>,
    boundary: Seq<BoundaryEdge>,
    members: Seq<Vec<usize>>,
    i: int,
    j: int,
    a: int,
    b: int,
)
    requires
        0 <= i <= j < members.len(),
        edge_agrees(controls, boundary, members, i),
        edge_agrees(controls, boundary, members, j),
        i == j || edges_meet(boundary[i], boundary[j]),
        0 <= a < members[i]@.len(),
        0 <= b < members[j]@.len(),
    ensures
        ({
            let one = controls[members[i]@[a] as int];
            let two = controls[members[j]@[b] as int];
            one.hwall_n.bits == two.hwall_n.bits && one.layers == two.layers && one.ratio.bits
                == two.ratio.bits
        }),
{
    let first = LayerKey::of(controls[members[i]@[a] as int]);
    let second = LayerKey::of(controls[members[j]@[b] as int]);
    assert(first == LayerKey::of(controls[members[i]@[0] as int]));
    assert(second == LayerKey::of(controls[members[j]@[0] as int]));
    if i < j {
        assert(!neighbors_disagree(controls, boundary, members, j));
        assert(edges_meet(boundary[i], boundary[j]));
    }
}

/// Two boundary edges meet exactly where some end of one is an end of the other, whichever is
/// named first.
pub proof fn meeting_edges_share_end(a: BoundaryEdge, b: BoundaryEdge)
    ensures
        edges_meet(a, b) <==> exists|i: int, j: int|
            0 <= i < 2 && 0 <= j < 2 && #[trigger] a.points@[i] == #[trigger] b.points@[j],
        edges_meet(a, b) == edges_meet(b, a),
        edges_meet(a, a),
{
    if edges_meet(a, b) {
        let (i, j) = if a.points[0] == b.points[0] {
            (0int, 0int)
        } else if a.points[0] == b.points[1] {
            (0int, 1int)
        } else if a.points[1] == b.points[0] {
            (1int, 0int)
        } else {
            (1int, 1int)
        };
        assert(a.points@[i] == b.points@[j]);
    }
    if exists|i: int, j: int|
        0 <= i < 2 && 0 <= j < 2 && #[trigger] a.points@[i] == #[trigger] b.points@[j] {
        let (i, j) = choose|i: int, j: int|
            0 <= i < 2 && 0 <= j < 2 && #[trigger] a.points@[i] == #[trigger] b.points@[j];
        assert(i == 0 || i == 1);
        assert(j == 0 || j == 1);
    }
}

} // verus!
