//! Choosing nodes of the spatial tree: the leaves that meet a box, the nodes
//! that a view shows, and the leaves nearest to a point.

use vstd::prelude::*;

use crate::number::Real;
#[allow(unused_imports)]
use crate::number::total_rank_injective;
use crate::schema::Bounds3;
#[allow(unused_imports)]
use crate::sorted::ordered;
use crate::sorted::{sort_keys, Key, SortedMap, SortedSet};
use crate::spatial::SpatialNodeMeta;
#[allow(unused_imports)]
use crate::tree::{child_is_sound, has_parent, is_tree, node_fault};

verus! {

/// How many nodes a walk meets at and below the listed nodes that lie below a
/// level.
pub open spec fn weight(nodes: Map<u64, SpatialNodeMeta>, above: int, list: Seq<u64>) -> nat
    decreases u32::MAX - above, list.len(),
{
    if list.len() == 0 {
        0
    } else {
        let id = list.last();
        let rest = weight(nodes, above, list.drop_last());
        if nodes.dom().contains(id) && nodes[id].level > above {
            1 + rest + weight(nodes, nodes[id].level as int, nodes[id].children@)
        } else {
            1 + rest
        }
    }
}

/// All listed nodes lie below the level.
pub open spec fn all_below(nodes: Map<u64, SpatialNodeMeta>, above: int, list: Seq<u64>) -> bool {
    forall|i: int|
        0 <= i < list.len() && nodes.dom().contains(#[trigger] list[i]) ==> nodes[list[i]].level
            > above
}

proof fn weight_from_above(nodes: Map<u64, SpatialNodeMeta>, above: int, list: Seq<u64>)
    requires
        above >= -1,
        all_below(nodes, above, list),
    ensures
        weight(nodes, above, list) == weight(nodes, -1, list),
    decreases list.len(),
{
    if list.len() > 0 {
        let rest = list.drop_last();
        assert forall|i: int|
            0 <= i < rest.len() && nodes.dom().contains(#[trigger] rest[i]) implies nodes[rest[i]].level
            > above by {
            assert(rest[i] == list[i]);
        }
        weight_from_above(nodes, above, rest);
        assert(list[list.len() - 1] == list.last());
    }
}

proof fn weight_adds(nodes: Map<u64, SpatialNodeMeta>, a: Seq<u64>, b: Seq<u64>)
    ensures
        weight(nodes, -1, a + b) == weight(nodes, -1, a) + weight(nodes, -1, b),
    decreases b.len(),
{
    if b.len() == 0 {
        assert(a + b =~= a);
    } else {
        weight_adds(nodes, a, b.drop_last());
        assert((a + b).drop_last() =~= a + b.drop_last());
        assert((a + b).last() == b.last());
    }
}

/// Visiting a sound node in place of its children leaves less to walk.
proof fn visiting_weighs_less(nodes: Map<u64, SpatialNodeMeta>, stack: Seq<u64>, children: Seq<u64>)
    requires
        stack.len() > 0,
        nodes.dom().contains(stack.last()) ==> node_fault(nodes, stack.last()) is None,
        children.len() == 0 || (nodes.dom().contains(stack.last()) && children.to_multiset()
            =~= nodes[stack.last()].children@.to_multiset()),
    ensures
        weight(nodes, -1, stack.drop_last() + children) < weight(nodes, -1, stack),
{
    let id = stack.last();
    weight_adds(nodes, stack.drop_last(), children);
    if children.len() > 0 {
        let own = nodes[id].children@;
        assert forall|i: int|
            0 <= i < own.len() && nodes.dom().contains(#[trigger] own[i]) implies nodes[own[i]].level
            > nodes[id].level by {
            assert(own.contains(own[i]));
            child_is_sound(nodes, id, own[i]);
        }
        weight_from_above(nodes, nodes[id].level as int, own);
        weight_is_order_free(nodes, children, own);
    }
}

proof fn weight_is_order_free(nodes: Map<u64, SpatialNodeMeta>, a: Seq<u64>, b: Seq<u64>)
    requires
        a.to_multiset() =~= b.to_multiset(),
    ensures
        weight(nodes, -1, a) == weight(nodes, -1, b),
    decreases a.len(),
{
    broadcast use vstd::seq_lib::group_to_multiset_ensures;

    assert(a.len() == a.to_multiset().len() && b.len() == b.to_multiset().len());
    if a.len() > 0 {
        let id = a.last();
        assert(a[a.len() - 1] == id);
        assert(a.to_multiset().contains(id));
        assert(b.to_multiset().contains(id));
        assert(b.contains(id));
        let k = choose|k: int| 0 <= k < b.len() && b[k] == id;
        let left = b.take(k);
        let right = b.skip(k + 1);
        let less = left + right;
        assert(b =~= left + (seq![id] + right));
        weight_adds(nodes, left, seq![id] + right);
        weight_adds(nodes, seq![id], right);
        weight_adds(nodes, left, right);
        assert(b.remove(k) =~= less);
        assert(b.remove(k).to_multiset() =~= b.to_multiset().remove(id));
        assert(a.remove(a.len() - 1) =~= a.drop_last());
        assert(a.drop_last().to_multiset() =~= a.to_multiset().remove(id));
        weight_is_order_free(nodes, a.drop_last(), less);
        assert(a =~= a.drop_last() + seq![id]);
        weight_adds(nodes, a.drop_last(), seq![id]);
    }
}

/// The node lies at or below another.
pub open spec fn under(nodes: Map<u64, SpatialNodeMeta>, top: u64, id: u64) -> bool
    decreases nodes[id].level,
{
    id == top || (has_parent(nodes, id) && nodes[nodes[id].parent.unwrap()].level < nodes[id].level
        && under(nodes, top, nodes[id].parent.unwrap()))
}

proof fn parent_is_above(nodes: Map<u64, SpatialNodeMeta>, root: u64, id: u64)
    requires
        is_tree(nodes, root),
        nodes.dom().contains(id),
        id != root,
    ensures
        has_parent(nodes, id),
        nodes[nodes[id].parent.unwrap()].level < nodes[id].level,
{
    assert(has_parent(nodes, id));
    let parent = nodes[id].parent.unwrap();
    assert(node_fault(nodes, parent) is None);
    child_is_sound(nodes, parent, id);
}

proof fn all_under_root(nodes: Map<u64, SpatialNodeMeta>, root: u64, id: u64)
    requires
        is_tree(nodes, root),
        nodes.dom().contains(id),
    ensures
        under(nodes, root, id),
    decreases nodes[id].level,
{
    if id != root {
        parent_is_above(nodes, root, id);
        all_under_root(nodes, root, nodes[id].parent.unwrap());
    }
}

proof fn under_a_child(nodes: Map<u64, SpatialNodeMeta>, top: u64, id: u64) -> (place: int)
    requires
        under(nodes, top, id),
        id != top,
    ensures
        0 <= place < nodes[top].children@.len(),
        under(nodes, nodes[top].children@[place], id),
    decreases nodes[id].level,
{
    let parent = nodes[id].parent.unwrap();
    if parent == top {
        let place = choose|k: int| 0 <= k < nodes[top].children@.len() && nodes[top].children@[k] == id;
        assert(nodes[top].children@[place] == id);
        assert(under(nodes, id, id));
        place
    } else {
        let place = under_a_child(nodes, top, parent);
        assert(under(nodes, nodes[top].children@[place], id));
        place
    }
}

proof fn meets_upward(nodes: Map<u64, SpatialNodeMeta>, root: u64, top: u64, id: u64, bounds: Bounds3)
    requires
        is_tree(nodes, root),
        nodes.dom().contains(id),
        under(nodes, top, id),
        nodes[id].bounds.meets(bounds),
    ensures
        nodes[top].bounds.meets(bounds),
    decreases nodes[id].level,
{
    if id != top {
        let parent = nodes[id].parent.unwrap();
        assert(node_fault(nodes, parent) is None);
        child_is_sound(nodes, parent, id);
        let outer = nodes[parent].bounds;
        let inner = nodes[id].bounds;
        assert forall|axis: int| 0 <= axis < 3 implies (#[trigger] outer.min[axis]).le(
            bounds.max[axis],
        ) && bounds.min[axis].le(outer.max[axis]) by {
            assert(inner.min[axis].le(bounds.max[axis]) && bounds.min[axis].le(inner.max[axis]));
            assert(outer.min[axis].le(inner.min[axis]) && inner.min[axis].le(outer.max[axis]));
            assert(outer.min[axis].le(inner.max[axis]) && inner.max[axis].le(outer.max[axis]));
        }
        meets_upward(nodes, root, top, parent, bounds);
    }
}

/// The leaves whose boxes meet a box.
pub open spec fn meeting_leaves(nodes: Map<u64, SpatialNodeMeta>, bounds: Bounds3) -> Set<u64> {
    Set::new(
        |id: u64|
            nodes.dom().contains(id) && nodes[id].children@.len() == 0 && nodes[id].bounds.meets(
                bounds,
            ),
    )
}

/// The leaf is found, or a node on the stack has it below.
pub open spec fn pending(
    nodes: Map<u64, SpatialNodeMeta>,
    stack: Seq<u64>,
    found: Set<u64>,
    leaf: u64,
) -> bool {
    found.contains(leaf) || exists|i: int|
        0 <= i < stack.len() && under(nodes, #[trigger] stack[i], leaf)
}

/// Every leaf that meets the box is found or lies below the stack.
pub open spec fn all_pending(
    nodes: Map<u64, SpatialNodeMeta>,
    bounds: Bounds3,
    stack: Seq<u64>,
    found: Set<u64>,
) -> bool {
    forall|leaf: u64| #[trigger]
        meeting_leaves(nodes, bounds).contains(leaf) ==> pending(nodes, stack, found, leaf)
}

proof fn visit_keeps_pending(
    nodes: Map<u64, SpatialNodeMeta>,
    root: u64,
    bounds: Bounds3,
    before: Seq<u64>,
    known: Set<u64>,
    after: Seq<u64>,
    found: Set<u64>,
)
    requires
        is_tree(nodes, root),
        before.len() > 0,
        all_pending(nodes, bounds, before, known),
        ({
            let id = before.last();
            let rest = before.drop_last();
            ||| !nodes[id].bounds.meets(bounds) && after == rest && found == known
            ||| nodes[id].children@.len() == 0 && after == rest && found == known.insert(id)
            ||| after == rest + nodes[id].children@ && nodes[id].children@.len() > 0 && found == known
        }),
    ensures
        all_pending(nodes, bounds, after, found),
{
    let id = before.last();
    assert forall|leaf: u64| #[trigger] meeting_leaves(nodes, bounds).contains(
        leaf,
    ) implies pending(nodes, after, found, leaf) by {
        assert(pending(nodes, before, known, leaf));
        if !known.contains(leaf) {
            let i = choose|i: int|
                0 <= i < before.len() && under(nodes, #[trigger] before[i], leaf);
            if i < before.len() - 1 {
                assert(after[i] == before[i]);
                assert(under(nodes, after[i], leaf));
            } else if !nodes[id].bounds.meets(bounds) {
                meets_upward(nodes, root, id, leaf, bounds);
            } else if nodes[id].children@.len() == 0 {
                if leaf != id {
                    let place = under_a_child(nodes, id, leaf);
                }
            } else {
                let place = under_a_child(nodes, id, leaf);
                assert(after[before.len() - 1 + place] == nodes[id].children@[place]);
            }
        }
    }
}

proof fn children_are_known(nodes: Map<u64, SpatialNodeMeta>, root: u64, rest: Seq<u64>, id: u64)
    requires
        is_tree(nodes, root),
        nodes.dom().contains(id),
        forall|i: int| 0 <= i < rest.len() ==> nodes.dom().contains(#[trigger] rest[i]),
    ensures
        forall|i: int|
            0 <= i < rest.len() + nodes[id].children@.len() ==> nodes.dom().contains(
                #[trigger] (rest + nodes[id].children@)[i],
            ),
{
    let all = rest + nodes[id].children@;
    assert forall|i: int| 0 <= i < all.len() implies nodes.dom().contains(#[trigger] all[i]) by {
        if i >= rest.len() {
            assert(nodes[id].children@.contains(all[i]));
            child_is_sound(nodes, id, all[i]);
        }
    }
}

fn push_all(stack: &mut Vec<u64>, list: &Vec<u64>)
    ensures
        final(stack)@ == old(stack)@ + list@,
{
    let ghost start = stack@;
    let mut i: usize = 0;
    assert(start + list@.take(0) =~= start);
    while i < list.len()
        invariant
            i <= list.len(),
            stack@ == start + list@.take(i as int),
        decreases list.len() - i,
    {
        stack.push(list[i]);
        assert(stack@ =~= start + list@.take(i + 1));
        i += 1;
    }
    assert(list@.take(i as int) =~= list@);
}

/// The leaves of the tree whose boxes meet a box, found by passing over every
/// subtree whose box does not.
pub fn candidate_leaf_tiles(
    nodes: &SortedMap<u64, SpatialNodeMeta>,
    root: u64,
    bounds: Bounds3,
) -> (result: SortedSet<u64>)
    requires
        nodes.wf(),
        is_tree(nodes@, root),
    ensures
        result.wf(),
        result@ == meeting_leaves(nodes@, bounds),
{
    let mut found = SortedSet::<u64>::new();
    let mut stack: Vec<u64> = Vec::new();
    stack.push(root);
    proof {
        assert forall|leaf: u64| #[trigger] meeting_leaves(nodes@, bounds).contains(
            leaf,
        ) implies pending(nodes@, stack@, found@, leaf) by {
            all_under_root(nodes@, root, leaf);
            assert(under(nodes@, stack@[0], leaf));
        }
    }
    while stack.len() > 0
        invariant
            nodes.wf(),
            is_tree(nodes@, root),
            found.wf(),
            forall|i: int| 0 <= i < stack.len() ==> nodes@.dom().contains(#[trigger] stack@[i]),
            found@.subset_of(meeting_leaves(nodes@, bounds)),
            all_pending(nodes@, bounds, stack@, found@),
        decreases weight(nodes@, -1, stack@),
    {
        let ghost before = stack@;
        let ghost known = found@;
        let id: u64 = stack[stack.len() - 1];
        stack.truncate(stack.len() - 1);
        assert(stack@ =~= before.drop_last());
        let ghost rest = stack@;
        proof {
            assert(before[before.len() - 1] == id);
            assert(before.last() == id);
            assert(node_fault(nodes@, id) is None);
            visiting_weighs_less(nodes@, before, Seq::empty());
            assert(before.drop_last() + Seq::<u64>::empty() =~= before.drop_last());
            visiting_weighs_less(nodes@, before, nodes@[id].children@);
        }
        if let Some(node) = nodes.get(&id) {
            if node.bounds.intersects(bounds) {
                if node.children.len() == 0 {
                    found.insert(id);
                } else {
                    push_all(&mut stack, &node.children);
                    proof {
                        children_are_known(nodes@, root, rest, id);
                    }
                }
            }
        }
        proof {
            visit_keeps_pending(nodes@, root, bounds, before, known, stack@, found@);
        }
    }
    assert(found@ =~= meeting_leaves(nodes@, bounds)) by {
        assert forall|leaf: u64| meeting_leaves(nodes@, bounds).contains(
            leaf,
        ) implies found@.contains(leaf) by {
            assert(pending(nodes@, stack@, found@, leaf));
        }
    }
    found
}

/// How large a node is in a view: not in it at all, or against the two sizes
/// between which a node keeps its state.
#[derive(Debug, Clone, Copy, PartialEq, Eq, Structural)]
pub enum LodMeasure {
    Hidden,
    Shown {
        /// At least as large as the size below which a refined node collapses.
        keeps: bool,
        /// Larger than the size above which a coarse node expands.
        expands: bool,
    },
}

/// What the nodes of a tree show at a moment: the selected nodes, each with
/// whether its exact cells are shown, and the nodes that are refined.
pub struct LodState {
    pub selected: Seq<(u64, bool)>,
    pub refined: Set<u64>,
}

/// Whether a node is refined: it stays so while it keeps its size, and becomes
/// so when it expands.
pub open spec fn refines(measure: LodMeasure, refined: bool) -> bool {
    measure matches LodMeasure::Shown { keeps, expands } && if refined {
        keeps
    } else {
        expands
    }
}

/// The state after one node: refined inner nodes give way to their children,
/// all others are selected.
pub open spec fn lod_step(
    nodes: Map<u64, SpatialNodeMeta>,
    measures: Map<u64, LodMeasure>,
    id: u64,
    state: LodState,
) -> LodState {
    let refine = refines(measures[id], state.refined.contains(id));
    let leaf = nodes[id].children@.len() == 0;
    if measures[id] is Hidden {
        state
    } else {
        LodState {
            selected: if !leaf && refine {
                state.selected
            } else {
                state.selected.push((id, leaf && refine))
            },
            refined: if refine {
                state.refined.insert(id)
            } else {
                state.refined.remove(id)
            },
        }
    }
}

/// The nodes that a walk visits next in place of a node, last first.
pub open spec fn lod_next(
    nodes: Map<u64, SpatialNodeMeta>,
    measures: Map<u64, LodMeasure>,
    id: u64,
    refined: Set<u64>,
) -> Seq<u64> {
    if refines(measures[id], refined.contains(id)) {
        nodes[id].children@.reverse()
    } else {
        Seq::empty()
    }
}

/// The state after a walk from the top of a stack of nodes.
pub open spec fn lod_walk(
    nodes: Map<u64, SpatialNodeMeta>,
    measures: Map<u64, LodMeasure>,
    stack: Seq<u64>,
    state: LodState,
) -> LodState
    decreases weight(nodes, -1, stack),
    when all_sound(nodes, stack)
    via lod_walk_ends
{
    if stack.len() == 0 {
        state
    } else {
        let id = stack.last();
        lod_walk(
            nodes,
            measures,
            stack.drop_last() + lod_next(nodes, measures, id, state.refined),
            lod_step(nodes, measures, id, state),
        )
    }
}

/// The nodes are sound, and those on the stack are among them.
pub open spec fn all_sound(nodes: Map<u64, SpatialNodeMeta>, stack: Seq<u64>) -> bool {
    &&& forall|id: u64| #[trigger] nodes.dom().contains(id) ==> node_fault(nodes, id) is None
    &&& forall|i: int| 0 <= i < stack.len() ==> nodes.dom().contains(#[trigger] stack[i])
}

proof fn reversed_is_rearranged(list: Seq<u64>)
    ensures
        list.reverse().to_multiset() =~= list.to_multiset(),
    decreases list.len(),
{
    broadcast use vstd::seq_lib::group_to_multiset_ensures;

    if list.len() > 0 {
        let less = list.drop_last();
        reversed_is_rearranged(less);
        assert(list.reverse() =~= seq![list.last()] + less.reverse());
        assert(list =~= less.push(list.last()));
        let turned = list.reverse();
        assert(turned.remove(0) =~= less.reverse());
        assert(turned.remove(0).to_multiset() =~= turned.to_multiset().remove(turned[0]));
        assert(turned.to_multiset() =~= less.reverse().to_multiset().insert(list.last()));
        assert(list.to_multiset() =~= less.to_multiset().insert(list.last()));
    } else {
        assert(list.reverse() =~= list);
    }
}

proof fn lod_visit_is_sound(
    nodes: Map<u64, SpatialNodeMeta>,
    measures: Map<u64, LodMeasure>,
    stack: Seq<u64>,
    refined: Set<u64>,
)
    requires
        all_sound(nodes, stack),
        stack.len() > 0,
    ensures
        ({
            let next = stack.drop_last() + lod_next(nodes, measures, stack.last(), refined);
            all_sound(nodes, next) && weight(nodes, -1, next) < weight(nodes, -1, stack)
        }),
{
    let id = stack.last();
    assert(stack[stack.len() - 1] == id);
    let more = lod_next(nodes, measures, id, refined);
    let own = nodes[id].children@;
    reversed_is_rearranged(own);
    visiting_weighs_less(nodes, stack, more);
    let next = stack.drop_last() + more;
    assert forall|i: int| 0 <= i < next.len() implies nodes.dom().contains(#[trigger] next[i]) by {
        if i < stack.len() - 1 {
            assert(next[i] == stack[i]);
        } else {
            let k = i - (stack.len() - 1);
            assert(next[i] == own[own.len() - 1 - k]);
            assert(own.contains(next[i]));
            child_is_sound(nodes, id, next[i]);
        }
    }
}

#[via_fn]
proof fn lod_walk_ends(
    nodes: Map<u64, SpatialNodeMeta>,
    measures: Map<u64, LodMeasure>,
    stack: Seq<u64>,
    state: LodState,
) {
    if stack.len() > 0 {
        lod_visit_is_sound(nodes, measures, stack, state.refined);
    }
}

/// The measure of each node, given in the order of the nodes' IDs.
pub open spec fn measures_by_id(
    nodes: SortedMap<u64, SpatialNodeMeta>,
    measures: Seq<LodMeasure>,
) -> Map<u64, LodMeasure> {
    Map::new(
        |id: u64| nodes@.dom().contains(id),
        |id: u64| measures[nodes.keys@.index_of(id)],
    )
}

fn push_reversed(stack: &mut Vec<u64>, list: &Vec<u64>)
    ensures
        final(stack)@ == old(stack)@ + list@.reverse(),
{
    let ghost start = stack@;
    let mut left: usize = list.len();
    assert(start + list@.reverse().take(0) =~= start);
    while left > 0
        invariant
            left <= list.len(),
            stack@ == start + list@.reverse().take(list.len() - left),
        decreases left,
    {
        left -= 1;
        stack.push(list[left]);
        assert(stack@ =~= start + list@.reverse().take(list.len() - left));
    }
    assert(list@.reverse().take(list.len() as int) =~= list@.reverse());
}

/// The nodes to show, in the order of a depth-first walk, each with whether its
/// exact cells are shown. `refined` holds the nodes that are refined, before
/// and after. `measures` is in the order of the nodes' IDs.
pub fn select_lod_nodes(
    nodes: &SortedMap<u64, SpatialNodeMeta>,
    root: u64,
    measures: &Vec<LodMeasure>,
    refined: &mut SortedSet<u64>,
) -> (result: Vec<(u64, bool)>)
    requires
        nodes.wf(),
        is_tree(nodes@, root),
        measures.len() == nodes.keys.len(),
        old(refined).wf(),
    ensures
        final(refined).wf(),
        ({
            let state = lod_walk(
                nodes@,
                measures_by_id(*nodes, measures@),
                seq![root],
                LodState { selected: Seq::empty(), refined: old(refined)@ },
            );
            result@ == state.selected && final(refined)@ == state.refined
        }),
{
    let ghost by_id = measures_by_id(*nodes, measures@);
    let mut selected: Vec<(u64, bool)> = Vec::new();
    let mut stack: Vec<u64> = Vec::new();
    stack.push(root);
    assert(stack@ =~= seq![root]);
    let ghost wanted = lod_walk(
        nodes@,
        by_id,
        seq![root],
        LodState { selected: Seq::empty(), refined: refined@ },
    );
    assert(selected@ =~= Seq::<(u64, bool)>::empty());
    while stack.len() > 0
        invariant
            nodes.wf(),
            measures.len() == nodes.keys.len(),
            by_id == measures_by_id(*nodes, measures@),
            refined.wf(),
            all_sound(nodes@, stack@),
            lod_walk(
                nodes@,
                by_id,
                stack@,
                LodState { selected: selected@, refined: refined@ },
            ) == wanted,
        decreases weight(nodes@, -1, stack@),
    {
        let ghost before = stack@;
        let ghost state = LodState { selected: selected@, refined: refined@ };
        proof {
            lod_visit_is_sound(nodes@, by_id, before, refined@);
            assert(before[before.len() - 1] == before.last());
        }
        let id: u64 = stack[stack.len() - 1];
        stack.truncate(stack.len() - 1);
        assert(stack@ =~= before.drop_last());
        if let Some(place) = nodes.find(&id) {
            proof {
                nodes.entry_at(place as int);
            }
            let node = &nodes.values[place];
            let refine = match measures[place] {
                LodMeasure::Hidden => false,
                LodMeasure::Shown { keeps, expands } => if refined.contains(&id) {
                    keeps
                } else {
                    expands
                },
            };
            let hidden = match measures[place] {
                LodMeasure::Hidden => true,
                LodMeasure::Shown { keeps, expands } => false,
            };
            assert(by_id[id] == measures@[place as int]);
            if !hidden {
                if refine {
                    refined.insert(id);
                } else {
                    refined.remove(&id);
                }
                if node.children.len() > 0 && refine {
                    push_reversed(&mut stack, &node.children);
                } else {
                    selected.push((id, node.children.len() == 0 && refine));
                }
            }
            assert(stack@ =~= before.drop_last() + lod_next(nodes@, by_id, id, state.refined));
            assert(lod_step(nodes@, by_id, id, state) == (LodState {
                selected: selected@,
                refined: refined@,
            }));
        }
    }
    selected
}

/// A leaf and how far it is from a point.
#[derive(Debug, Clone, Copy)]
pub struct NearLeaf {
    pub bounds_distance: Real,
    pub center_distance: Real,
    pub id: u64,
}

impl Key for NearLeaf {
    open spec fn before(self, other: Self) -> bool {
        let near = self.bounds_distance.total_rank();
        let far = other.bounds_distance.total_rank();
        let center = self.center_distance.total_rank();
        let off = other.center_distance.total_rank();
        near < far || (near == far && (center < off || (center == off && self.id < other.id)))
    }

    proof fn irreflexive(a: Self) {
    }

    proof fn transitive(a: Self, b: Self, c: Self) {
    }

    proof fn total(a: Self, b: Self) {
        total_rank_injective(a.bounds_distance, b.bounds_distance);
        total_rank_injective(a.center_distance, b.center_distance);
    }

    fn precedes(&self, other: &Self) -> bool {
        if self.bounds_distance.total_less(other.bounds_distance) {
            true
        } else if other.bounds_distance.total_less(self.bounds_distance) {
            false
        } else if self.center_distance.total_less(other.center_distance) {
            true
        } else if other.center_distance.total_less(self.center_distance) {
            false
        } else {
            self.id < other.id
        }
    }
}

/// The IDs of the first leaves of a list.
pub open spec fn first_ids(leaves: Seq<NearLeaf>, limit: int) -> Seq<u64> {
    let count = if limit < leaves.len() {
        limit
    } else {
        leaves.len() as int
    };
    Seq::new(count as nat, |i: int| leaves[i].id)
}

/// The IDs of the `limit` nearest leaves: first by the distance to the box,
/// then by the distance to its center, then by ID.
pub fn nearest_leaf_nodes(leaves: Vec<NearLeaf>, limit: usize) -> (result: Vec<u64>)
    ensures
        exists|order: Seq<NearLeaf>|
            ordered(order) && order.to_multiset() == leaves@.to_multiset() && result@
                == #[trigger] first_ids(order, limit as int),
{
    let mut order = leaves;
    sort_keys(&mut order);
    let mut ids: Vec<u64> = Vec::new();
    let mut i: usize = 0;
    while i < order.len() && i < limit
        invariant
            i <= order.len(),
            i <= limit,
            ids@ == first_ids(order@, i as int),
        decreases order.len() - i,
    {
        ids.push(order[i].id);
        assert(ids@ =~= first_ids(order@, i + 1));
        i += 1;
    }
    assert(ids@ =~= first_ids(order@, limit as int));
    ids
}

/// A shown node is open where it was open and is still large enough to stay so, or was
/// closed and has grown large enough to be opened.
pub open spec fn is_open(measures: Map<u64, LodMeasure>, refined: Set<u64>, id: u64) -> bool {
    measures[id] matches LodMeasure::Shown { keeps, expands } && (refined.contains(id) && keeps
        || !refined.contains(id) && expands)
}

/// Every node above the node is open.
pub open spec fn in_view(
    nodes: Map<u64, SpatialNodeMeta>,
    measures: Map<u64, LodMeasure>,
    refined: Set<u64>,
    root: u64,
    id: u64,
) -> bool
    decreases nodes[id].level,
{
    id == root || {
        let parent = nodes[id].parent.unwrap();
        nodes[parent].level < nodes[id].level && is_open(measures, refined, parent) && in_view(
            nodes,
            measures,
            refined,
            root,
            parent,
        )
    }
}

proof fn under_is_deeper(nodes: Map<u64, SpatialNodeMeta>, top: u64, id: u64)
    requires
        under(nodes, top, id),
    ensures
        id != top ==> nodes[top].level < nodes[id].level,
    decreases nodes[id].level,
{
    if id != top {
        under_is_deeper(nodes, top, nodes[id].parent.unwrap());
    }
}

proof fn under_carries_over(nodes: Map<u64, SpatialNodeMeta>, a: u64, b: u64, c: u64)
    requires
        under(nodes, a, b),
        under(nodes, b, c),
    ensures
        under(nodes, a, c),
    decreases nodes[c].level,
{
    if c != b {
        under_carries_over(nodes, a, b, nodes[c].parent.unwrap());
    }
}

/// A node in view below another one has it open.
proof fn view_needs_open(
    nodes: Map<u64, SpatialNodeMeta>,
    measures: Map<u64, LodMeasure>,
    refined: Set<u64>,
    root: u64,
    top: u64,
    id: u64,
)
    requires
        is_tree(nodes, root),
        nodes.dom().contains(id),
        under(nodes, top, id),
        id != top,
        in_view(nodes, measures, refined, root, id),
    ensures
        is_open(measures, refined, top),
    decreases nodes[id].level,
{
    assert(has_parent(nodes, id));
    let parent = nodes[id].parent.unwrap();
    assert(id != root) by {
        assert(nodes.dom().contains(parent));
        assert(!nodes[parent].children@.contains(root));
    }
    if parent != top {
        view_needs_open(nodes, measures, refined, root, top, parent);
    }
}

/// What a walk has done so far: the nodes seen are in view, and what was selected and
/// opened of them is right; every other node in view lies below the stack.
spec fn walked(
    nodes: Map<u64, SpatialNodeMeta>,
    measures: Map<u64, LodMeasure>,
    refined: Set<u64>,
    root: u64,
    seen: Set<u64>,
    stack: Seq<u64>,
    state: LodState,
) -> bool {
    &&& forall|id: u64| #[trigger]
        seen.contains(id) ==> nodes.dom().contains(id) && in_view(nodes, measures, refined, root, id)
    &&& forall|i: int|
        0 <= i < stack.len() ==> nodes.dom().contains(#[trigger] stack[i]) && in_view(
            nodes,
            measures,
            refined,
            root,
            stack[i],
        )
    &&& forall|i: int, j: int|
        0 <= i < stack.len() && 0 <= j < stack.len() && i != j ==> !under(
            nodes,
            #[trigger] stack[i],
            #[trigger] stack[j],
        )
    &&& forall|i: int, id: u64|
        0 <= i < stack.len() && #[trigger] seen.contains(id) ==> !under(
            nodes,
            #[trigger] stack[i],
            id,
        )
    &&& forall|id: u64| #[trigger]
        in_view(nodes, measures, refined, root, id) && nodes.dom().contains(id) ==> seen.contains(
            id,
        ) || exists|i: int| 0 <= i < stack.len() && under(nodes, #[trigger] stack[i], id)
    &&& forall|id: u64| #[trigger]
        state.refined.contains(id) <==> if seen.contains(id) && !(measures[id] is Hidden) {
            is_open(measures, refined, id)
        } else {
            refined.contains(id)
        }
    &&& forall|id: u64, exact: bool| #[trigger]
        state.selected.contains((id, exact)) <==> seen.contains(id) && picked(
            nodes,
            measures,
            refined,
            id,
            exact,
        )
    &&& state.selected.no_duplicates()
}

/// A node in view is picked where it is shown and does not give way to its children; its
/// exact cells are shown where it is an open leaf.
pub open spec fn picked(
    nodes: Map<u64, SpatialNodeMeta>,
    measures: Map<u64, LodMeasure>,
    refined: Set<u64>,
    id: u64,
    exact: bool,
) -> bool {
    let leaf = nodes[id].children@.len() == 0;
    &&& !(measures[id] is Hidden)
    &&& leaf || !is_open(measures, refined, id)
    &&& exact == (leaf && is_open(measures, refined, id))
}

proof fn walk_step(
    nodes: Map<u64, SpatialNodeMeta>,
    measures: Map<u64, LodMeasure>,
    refined: Set<u64>,
    root: u64,
    seen: Set<u64>,
    stack: Seq<u64>,
    state: LodState,
)
    requires
        is_tree(nodes, root),
        stack.len() > 0,
        walked(nodes, measures, refined, root, seen, stack, state),
    ensures
        ({
            let id = stack.last();
            walked(
                nodes,
                measures,
                refined,
                root,
                seen.insert(id),
                stack.drop_last() + lod_next(nodes, measures, id, state.refined),
                lod_step(nodes, measures, id, state),
            )
        }),
{
    let n = stack.len() - 1;
    let id = stack[n];
    let own = nodes[id].children@;
    let more = lod_next(nodes, measures, id, state.refined);
    let next = stack.drop_last() + more;
    let after = lod_step(nodes, measures, id, state);
    let now = seen.insert(id);
    assert(under(nodes, id, id));
    assert(!seen.contains(id));
    assert(state.refined.contains(id) == refined.contains(id));
    let open = is_open(measures, refined, id);
    assert(refines(measures[id], state.refined.contains(id)) == open);
    assert forall|k: int| 0 <= k < more.len() implies {
        let child = #[trigger] more[k];
        &&& own.contains(child)
        &&& nodes.dom().contains(child)
        &&& nodes[child].parent == Some(id)
        &&& nodes[child].level > nodes[id].level
        &&& under(nodes, id, child)
        &&& in_view(nodes, measures, refined, root, child)
        &&& child != root
    } by {
        let child = more[k];
        assert(child == own[own.len() - 1 - k]);
        assert(own.contains(child));
        child_is_sound(nodes, id, child);
        assert(has_parent(nodes, child));
        assert(under(nodes, id, child));
    }
    assert forall|i: int| 0 <= i < next.len() implies nodes.dom().contains(#[trigger] next[i])
        && in_view(nodes, measures, refined, root, next[i]) by {
        if i < n {
            assert(next[i] == stack[i]);
        } else {
            assert(next[i] == more[i - n]);
        }
    }
    assert forall|i: int, j: int|
        0 <= i < next.len() && 0 <= j < next.len() && i != j implies !under(
        nodes,
        #[trigger] next[i],
        #[trigger] next[j],
    ) by {
        if under(nodes, next[i], next[j]) {
            if i < n && j < n {
                assert(next[i] == stack[i] && next[j] == stack[j]);
            } else if i < n {
                let child = more[j - n];
                assert(next[j] == child && next[i] == stack[i]);
                if stack[i] == child {
                    assert(under(nodes, stack[n], stack[i]));
                } else {
                    assert(under(nodes, stack[i], stack[n]));
                }
            } else if j < n {
                let child = more[i - n];
                assert(next[i] == child && next[j] == stack[j]);
                under_carries_over(nodes, id, child, stack[j]);
                assert(under(nodes, stack[n], stack[j]));
            } else {
                let a = more[i - n];
                let b = more[j - n];
                assert(next[i] == a && next[j] == b);
                assert(a == own[own.len() - 1 - (i - n)] && b == own[own.len() - 1 - (j - n)]);
                assert(a != b);
                under_is_deeper(nodes, a, id);
            }
        }
    }
    assert forall|i: int, old_id: u64| 0 <= i < next.len() && #[trigger] now.contains(old_id) implies !under(
        nodes,
        #[trigger] next[i],
        old_id,
    ) by {
        if under(nodes, next[i], old_id) {
            if i < n {
                assert(next[i] == stack[i]);
                if old_id == id {
                    assert(under(nodes, stack[i], stack[n]));
                } else {
                    assert(seen.contains(old_id));
                }
            } else {
                let child = more[i - n];
                assert(next[i] == child);
                if old_id == id {
                    under_is_deeper(nodes, child, id);
                } else {
                    assert(seen.contains(old_id));
                    under_carries_over(nodes, id, child, old_id);
                    assert(under(nodes, stack[n], old_id));
                }
            }
        }
    }
    assert forall|x: u64| #[trigger]
        in_view(nodes, measures, refined, root, x) && nodes.dom().contains(x) implies now.contains(
        x,
    ) || exists|i: int| 0 <= i < next.len() && under(nodes, #[trigger] next[i], x) by {
        if !now.contains(x) {
            let i = choose|i: int| 0 <= i < stack.len() && under(nodes, #[trigger] stack[i], x);
            if i < n {
                assert(next[i] == stack[i]);
            } else {
                view_needs_open(nodes, measures, refined, root, id, x);
                let place = under_a_child(nodes, id, x);
                let k = own.len() - 1 - place;
                assert(more[k] == own[place]);
                assert(next[n + k] == own[place]);
            }
        }
    }
    assert forall|x: u64, exact: bool| #[trigger]
        after.selected.contains((x, exact)) <==> now.contains(x) && picked(
            nodes,
            measures,
            refined,
            x,
            exact,
        ) by {
        let list = after.selected;
        if list.contains((x, exact)) {
            let k = list.index_of((x, exact));
            if k < state.selected.len() {
                assert(state.selected[k] == (x, exact));
                assert(state.selected.contains((x, exact)));
            }
        }
        if state.selected.contains((x, exact)) {
            let k = state.selected.index_of((x, exact));
            assert(list[k] == (x, exact));
        }
        if x == id && picked(nodes, measures, refined, x, exact) {
            assert(list[state.selected.len() as int] == (x, exact));
        }
    }
    assert(after.selected.no_duplicates()) by {
        if after.selected.len() > state.selected.len() {
            let last = after.selected.last();
            assert(!state.selected.contains(last)) by {
                if state.selected.contains((last.0, last.1)) {
                    assert(seen.contains(id));
                }
            }
        }
    }
}

proof fn walk_tells(
    nodes: Map<u64, SpatialNodeMeta>,
    measures: Map<u64, LodMeasure>,
    refined: Set<u64>,
    root: u64,
    seen: Set<u64>,
    stack: Seq<u64>,
    state: LodState,
) -> (all: Set<u64>)
    requires
        is_tree(nodes, root),
        all_sound(nodes, stack),
        walked(nodes, measures, refined, root, seen, stack, state),
    ensures
        walked(
            nodes,
            measures,
            refined,
            root,
            all,
            Seq::empty(),
            lod_walk(nodes, measures, stack, state),
        ),
    decreases weight(nodes, -1, stack),
{
    if stack.len() == 0 {
        assert(stack =~= Seq::empty());
        seen
    } else {
        let id = stack.last();
        lod_visit_is_sound(nodes, measures, stack, state.refined);
        walk_step(nodes, measures, refined, root, seen, stack, state);
        walk_tells(
            nodes,
            measures,
            refined,
            root,
            seen.insert(id),
            stack.drop_last() + lod_next(nodes, measures, id, state.refined),
            lod_step(nodes, measures, id, state),
        )
    }
}

/// The nodes selected for a level of detail: of the nodes in view, each once, those that
/// are shown and are leaves or closed; an open leaf with its exact cells. A shown
/// node in view is noted as open where it is, and no other note changes.
pub proof fn detail_follows_open_nodes(
    nodes: Map<u64, SpatialNodeMeta>,
    measures: Map<u64, LodMeasure>,
    refined: Set<u64>,
    root: u64,
    id: u64,
    exact: bool,
)
    requires
        is_tree(nodes, root),
        nodes.dom().contains(id),
    ensures
        ({
            let last = lod_walk(
                nodes,
                measures,
                seq![root],
                LodState { selected: Seq::empty(), refined },
            );
            let viewed = in_view(nodes, measures, refined, root, id);
            &&& last.selected.no_duplicates()
            &&& last.selected.contains((id, exact)) <==> viewed && picked(
                nodes,
                measures,
                refined,
                id,
                exact,
            )
            &&& last.refined.contains(id) <==> if viewed && !(measures[id] is Hidden) {
                is_open(measures, refined, id)
            } else {
                refined.contains(id)
            }
        }),
{
    let stack = seq![root];
    let state = LodState { selected: Seq::empty(), refined };
    let none = Set::<u64>::empty();
    assert(stack[0] == root);
    assert forall|x: u64| #[trigger]
        in_view(nodes, measures, refined, root, x) && nodes.dom().contains(x) implies none.contains(
        x,
    ) || exists|i: int| 0 <= i < stack.len() && under(nodes, #[trigger] stack[i], x) by {
        all_under_root(nodes, root, x);
        assert(under(nodes, stack[0], x));
    }
    assert(walked(nodes, measures, refined, root, none, stack, state));
    let all = walk_tells(nodes, measures, refined, root, none, stack, state);
    let last = lod_walk(nodes, measures, stack, state);
    let empty = Seq::<u64>::empty();
    if in_view(nodes, measures, refined, root, id) && !all.contains(id) {
        let i = choose|i: int| 0 <= i < empty.len() && under(nodes, #[trigger] empty[i], id);
        assert(false);
    }
}

/// The first leaves of a list are its beginning: as many as the limit allows, and no more than
/// there are.
pub proof fn first_leaves_are_taken(leaves: Seq<NearLeaf>, limit: int)
    requires
        0 <= limit,
    ensures
        first_ids(leaves, limit).len() <= limit,
        first_ids(leaves, limit).len() <= leaves.len(),
        first_ids(leaves, limit).len() == limit || first_ids(leaves, limit).len() == leaves.len(),
        forall|i: int|
            0 <= i < first_ids(leaves, limit).len() ==> #[trigger] first_ids(leaves, limit)[i]
                == leaves[i].id,
{
}

} // verus!
