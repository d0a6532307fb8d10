//! What makes the spatial nodes of a mesh file a tree.

use vstd::prelude::*;

#[allow(unused_imports)]
use crate::error::fails_file;
use crate::error::{MeshError, MeshResult};
use crate::schema::BatchDirectoryEntry;
#[allow(unused_imports)]
use crate::sorted::increasing_has_no_duplicates;
use crate::sorted::{SortedMap, SortedSet};
use crate::spatial::SpatialNodeMeta;

verus! {

/// What is wrong with a child of a node, if anything.
pub open spec fn child_fault(nodes: Map<u64, SpatialNodeMeta>, id: u64, place: int) -> Option<
    Seq<char>,
> {
    let node = nodes[id];
    let child = node.children@[place];
    if !nodes.dom().contains(child) {
        Some("spatial tree references a missing child"@)
    } else if nodes[child].parent != Some(id) || nodes[child].level <= node.level
        || !node.bounds.holds(nodes[child].bounds.min) || !node.bounds.holds(
        nodes[child].bounds.max,
    ) {
        Some("spatial child has invalid parent, level, or bounds"@)
    } else {
        None
    }
}

/// The fault of the first child that has one, from a place on.
pub open spec fn children_fault(nodes: Map<u64, SpatialNodeMeta>, id: u64, place: int) -> Option<
    Seq<char>,
>
    decreases nodes[id].children@.len() - place,
{
    if place < 0 || place >= nodes[id].children@.len() {
        None
    } else if child_fault(nodes, id, place) is Some {
        child_fault(nodes, id, place)
    } else {
        children_fault(nodes, id, place + 1)
    }
}

/// A leaf holds one chunk, an inner node none.
pub open spec fn payload_ok(node: SpatialNodeMeta) -> bool {
    if node.children@.len() == 0 {
        node.chunks@.len() == 1
    } else {
        node.chunks@.len() == 0
    }
}

/// What is wrong with a node or its children, if anything.
pub open spec fn node_fault(nodes: Map<u64, SpatialNodeMeta>, id: u64) -> Option<Seq<char>> {
    if !nodes[id].bounds.valid() || !payload_ok(nodes[id]) {
        Some("spatial node bounds or leaf payload is invalid"@)
    } else {
        children_fault(nodes, id, 0)
    }
}

/// What a depth-first walk reaches beyond what it has reached, from a stack of
/// nodes to visit; or the first fault that it meets.
pub open spec fn walk(
    nodes: Map<u64, SpatialNodeMeta>,
    reached: Set<u64>,
    stack: Seq<u64>,
) -> Result<Set<u64>, Seq<char>>
    decreases nodes.dom().difference(reached).len(),
    when nodes.dom().finite()
    via walk_ends
{
    if stack.len() == 0 {
        Ok(reached)
    } else {
        let id = stack.last();
        if reached.contains(id) {
            Err("spatial tree contains a cycle or shared child"@)
        } else if !nodes.dom().contains(id) {
            Err("spatial tree references a missing node"@)
        } else if node_fault(nodes, id) is Some {
            Err(node_fault(nodes, id).unwrap())
        } else {
            walk(nodes, reached.insert(id), stack.drop_last() + nodes[id].children@)
        }
    }
}

#[via_fn]
proof fn walk_ends(nodes: Map<u64, SpatialNodeMeta>, reached: Set<u64>, stack: Seq<u64>) {
    if stack.len() > 0 && nodes.dom().contains(stack.last()) && !reached.contains(stack.last()) {
        visiting_leaves_less(nodes.dom(), reached, stack.last());
    }
}

proof fn visiting_leaves_less(all: Set<u64>, reached: Set<u64>, id: u64)
    requires
        all.finite(),
        all.contains(id),
        !reached.contains(id),
    ensures
        all.difference(reached.insert(id)).len() < all.difference(reached).len(),
{
    let left = all.difference(reached);
    assert(left.contains(id));
    assert(all.difference(reached.insert(id)) =~= left.remove(id));
    vstd::set_lib::lemma_len_difference(all, reached);
    assert(left.finite());
}

/// The directory names a node that is not there.
pub open spec fn stray_entry(
    nodes: Map<u64, SpatialNodeMeta>,
    directory: Seq<BatchDirectoryEntry>,
) -> bool {
    exists|i: int|
        0 <= i < directory.len() && ((#[trigger] directory[i]).row_kind.exact()
            || directory[i].row_kind.preview()) && !nodes.dom().contains(
            directory[i].spatial_node_id.unwrap(),
        )
}

/// What is wrong with the tree, if anything.
pub open spec fn tree_fault(
    nodes: Map<u64, SpatialNodeMeta>,
    root: u64,
    count: u64,
    directory: Seq<BatchDirectoryEntry>,
) -> Option<Seq<char>> {
    if nodes.dom().len() != count || !nodes.dom().contains(root) {
        Some("spatial tree count or root is invalid"@)
    } else {
        match walk(nodes, Set::empty(), seq![root]) {
            Err(message) => Some(message),
            Ok(reached) => if reached.len() != nodes.dom().len() {
                Some("spatial tree contains unreachable nodes"@)
            } else if stray_entry(nodes, directory) {
                Some("directory references an unknown spatial node"@)
            } else {
                None
            },
        }
    }
}

/// The nodes say the same.
pub open spec fn same_node(a: SpatialNodeMeta, b: SpatialNodeMeta) -> bool {
    &&& a.parent == b.parent
    &&& a.children@ == b.children@
    &&& a.chunks@ == b.chunks@
    &&& a.level == b.level
    &&& a.bounds == b.bounds
}

/// The maps hold the same IDs, with nodes that say the same.
pub open spec fn same_nodes(
    a: Map<u64, SpatialNodeMeta>,
    b: Map<u64, SpatialNodeMeta>,
) -> bool {
    &&& a.dom() == b.dom()
    &&& forall|id: u64| #[trigger] a.dom().contains(id) ==> same_node(a[id], b[id])
}

proof fn children_settled(
    a: Map<u64, SpatialNodeMeta>,
    b: Map<u64, SpatialNodeMeta>,
    id: u64,
    place: int,
)
    requires
        same_nodes(a, b),
        a.dom().contains(id),
    ensures
        children_fault(a, id, place) == children_fault(b, id, place),
    decreases a[id].children@.len() - place,
{
    assert(same_node(a[id], b[id]));
    if 0 <= place < a[id].children@.len() {
        let child = a[id].children@[place];
        assert(a.dom().contains(child) ==> same_node(a[child], b[child]));
        assert(child_fault(a, id, place) == child_fault(b, id, place));
        children_settled(a, b, id, place + 1);
    }
}

proof fn walk_settled(
    a: Map<u64, SpatialNodeMeta>,
    b: Map<u64, SpatialNodeMeta>,
    reached: Set<u64>,
    stack: Seq<u64>,
)
    requires
        same_nodes(a, b),
        a.dom().finite(),
    ensures
        walk(a, reached, stack) == walk(b, reached, stack),
    decreases a.dom().difference(reached).len(),
{
    if stack.len() > 0 {
        let id = stack.last();
        if !reached.contains(id) && a.dom().contains(id) {
            assert(same_node(a[id], b[id]));
            children_settled(a, b, id, 0);
            visiting_leaves_less(a.dom(), reached, id);
            walk_settled(a, b, reached.insert(id), stack.drop_last() + a[id].children@);
        }
    }
}

/// Nodes that say the same are held to the same.
pub proof fn tree_is_settled(
    a: Map<u64, SpatialNodeMeta>,
    b: Map<u64, SpatialNodeMeta>,
    root: u64,
    count: u64,
    first: Seq<BatchDirectoryEntry>,
    second: Seq<BatchDirectoryEntry>,
)
    requires
        same_nodes(a, b),
        a.dom().finite(),
        first.len() == second.len(),
        forall|i: int|
            0 <= i < first.len() ==> (#[trigger] first[i]).row_kind == second[i].row_kind
                && first[i].spatial_node_id == second[i].spatial_node_id,
    ensures
        tree_fault(a, root, count, first) == tree_fault(b, root, count, second),
{
    walk_settled(a, b, Set::empty(), seq![root]);
    if stray_entry(a, first) {
        let i = choose|i: int|
            0 <= i < first.len() && ((#[trigger] first[i]).row_kind.exact()
                || first[i].row_kind.preview()) && !a.dom().contains(
                first[i].spatial_node_id.unwrap(),
            );
        assert(second[i].row_kind == first[i].row_kind);
    }
    if stray_entry(b, second) {
        let i = choose|i: int|
            0 <= i < second.len() && ((#[trigger] second[i]).row_kind.exact()
                || second[i].row_kind.preview()) && !b.dom().contains(
                second[i].spatial_node_id.unwrap(),
            );
        assert(second[i].row_kind == first[i].row_kind);
    }
}

/// The number of keys is the size of the domain.
pub(crate) proof fn nodes_counted<V>(nodes: SortedMap<u64, V>)
    requires
        nodes.wf(),
    ensures
        nodes@.dom().finite(),
        nodes@.dom().len() == nodes.keys@.len(),
{
    increasing_has_no_duplicates(nodes.keys@);
    nodes.keys@.unique_seq_to_set();
    assert(nodes@.dom() =~= nodes.keys@.to_set());
}

fn check_children(nodes: &SortedMap<u64, SpatialNodeMeta>, id: u64, node: &SpatialNodeMeta) -> (result:
    MeshResult<()>)
    requires
        nodes.wf(),
        nodes@.dom().contains(id),
        nodes@[id] == *node,
    ensures
        match children_fault(nodes@, id, 0) {
            Some(message) => fails_file(result, message),
            None => result is Ok,
        },
{
    let mut place: usize = 0;
    while place < node.children.len()
        invariant
            place <= node.children.len(),
            nodes.wf(),
            nodes@.dom().contains(id),
            nodes@[id] == *node,
            children_fault(nodes@, id, 0) == children_fault(nodes@, id, place as int),
        decreases node.children.len() - place,
    {
        let child_id: u64 = node.children[place];
        match nodes.get(&child_id) {
            None => {
                return Err(MeshError::invalid_file("spatial tree references a missing child"));
            },
            Some(child) => {
                let known = match child.parent {
                    Some(parent) => parent == id,
                    None => false,
                };
                if !known || child.level <= node.level || !node.bounds.contains(child.bounds.min)
                    || !node.bounds.contains(child.bounds.max) {
                    return Err(
                        MeshError::invalid_file(
                            "spatial child has invalid parent, level, or bounds",
                        ),
                    );
                }
            },
        }
        place += 1;
    }
    Ok(())
}

fn reach(nodes: &SortedMap<u64, SpatialNodeMeta>, root: u64) -> (result: MeshResult<usize>)
    requires
        nodes.wf(),
    ensures
        match walk(nodes@, Set::empty(), seq![root]) {
            Ok(reached) => result matches Ok(count) && count == reached.len(),
            Err(message) => fails_file(result, message),
        },
{
    proof {
        nodes_counted(*nodes);
    }
    let mut reached = SortedSet::<u64>::new();
    let mut stack: Vec<u64> = Vec::new();
    stack.push(root);
    assert(stack@ =~= seq![root]);
    let ghost wanted = walk(nodes@, Set::empty(), seq![root]);
    while stack.len() > 0
        invariant
            nodes.wf(),
            nodes@.dom().finite(),
            reached.wf(),
            walk(nodes@, reached@, stack@) == wanted,
            wanted == walk(nodes@, Set::empty(), seq![root]),
        decreases nodes@.dom().difference(reached@).len(), stack.len(),
    {
        let ghost before = stack@;
        let ghost known = reached@;
        let id: u64 = stack[stack.len() - 1];
        stack.truncate(stack.len() - 1);
        assert(stack@ =~= before.drop_last());
        if !reached.insert(id) {
            return Err(MeshError::invalid_file("spatial tree contains a cycle or shared child"));
        }
        match nodes.get(&id) {
            None => {
                return Err(MeshError::invalid_file("spatial tree references a missing node"));
            },
            Some(node) => {
                let inner = node.children.len() > 0;
                if !node.bounds.is_valid() || (inner && node.chunks.len() > 0) || (!inner
                    && node.chunks.len() != 1) {
                    return Err(
                        MeshError::invalid_file("spatial node bounds or leaf payload is invalid"),
                    );
                }
                match check_children(nodes, id, node) {
                    Ok(_) => {},
                    Err(error) => {
                        return Err(error);
                    },
                }
                proof {
                    visiting_leaves_less(nodes@.dom(), known, id);
                }
                let ghost rest = stack@;
                let mut place: usize = 0;
                while place < node.children.len()
                    invariant
                        place <= node.children.len(),
                        stack@ == rest + node.children@.take(place as int),
                    decreases node.children.len() - place,
                {
                    stack.push(node.children[place]);
                    assert(stack@ =~= rest + node.children@.take(place + 1));
                    place += 1;
                }
                assert(node.children@.take(place as int) =~= node.children@);
                assert(stack@ =~= before.drop_last() + nodes@[id].children@);
            },
        }
    }
    proof {
        increasing_has_no_duplicates(reached.items@);
        reached.items@.unique_seq_to_set();
    }
    Ok(reached.items.len())
}

/// Whether the nodes are a tree of this size below the root, and the directory
/// names only its nodes.
pub fn validate_spatial_tree(
    nodes: &SortedMap<u64, SpatialNodeMeta>,
    root: u64,
    count: u64,
    directory: &Vec<BatchDirectoryEntry>,
) -> (result: MeshResult<()>)
    requires
        nodes.wf(),
        forall|i: int|
            0 <= i < directory.len() && ((#[trigger] directory[i]).row_kind.exact()
                || directory[i].row_kind.preview()) ==> directory[i].spatial_node_id is Some,
    ensures
        match tree_fault(nodes@, root, count, directory@) {
            Some(message) => fails_file(result, message),
            None => result is Ok,
        },
{
    proof {
        nodes_counted(*nodes);
    }
    if nodes.len() as u64 != count || !nodes.contains_key(&root) {
        return Err(MeshError::invalid_file("spatial tree count or root is invalid"));
    }
    match reach(nodes, root) {
        Ok(reached) => {
            if reached != nodes.len() {
                return Err(MeshError::invalid_file("spatial tree contains unreachable nodes"));
            }
        },
        Err(error) => {
            return Err(error);
        },
    }
    let mut i: usize = 0;
    while i < directory.len()
        invariant
            i <= directory.len(),
            nodes.wf(),
            forall|k: int|
                0 <= k < directory.len() && ((#[trigger] directory[k]).row_kind.exact()
                    || directory[k].row_kind.preview()) ==> directory[k].spatial_node_id is Some,
            forall|k: int|
                0 <= k < i && ((#[trigger] directory[k]).row_kind.exact()
                    || directory[k].row_kind.preview()) ==> nodes@.dom().contains(
                    directory[k].spatial_node_id.unwrap(),
                ),
            tree_fault(nodes@, root, count, directory@) == if stray_entry(nodes@, directory@) {
                Some("directory references an unknown spatial node"@)
            } else {
                None
            },
        decreases directory.len() - i,
    {
        if directory[i].row_kind.is_exact() || directory[i].row_kind.is_preview() {
            match directory[i].spatial_node_id {
                Some(node) => {
                    if !nodes.contains_key(&node) {
                        assert(stray_entry(nodes@, directory@));
                        return Err(
                            MeshError::invalid_file("directory references an unknown spatial node"),
                        );
                    }
                },
                None => {},
            }
        }
        i += 1;
    }
    Ok(())
}

/// Every node is sound and lists no child twice, every node but the root is a
/// child of its parent, and the root is nobody's child.
pub open spec fn is_tree(nodes: Map<u64, SpatialNodeMeta>, root: u64) -> bool {
    &&& nodes.dom().contains(root)
    &&& forall|id: u64| #[trigger]
        nodes.dom().contains(id) ==> node_fault(nodes, id) is None
            && nodes[id].children@.no_duplicates() && !nodes[id].children@.contains(root)
    &&& forall|id: u64| #[trigger]
        nodes.dom().contains(id) && id != root ==> has_parent(nodes, id)
}

/// The node's parent is there and lists it.
pub open spec fn has_parent(nodes: Map<u64, SpatialNodeMeta>, id: u64) -> bool {
    nodes[id].parent matches Some(parent) && nodes.dom().contains(parent)
        && nodes[parent].children@.contains(id)
}

pub(crate) proof fn sound_children(nodes: Map<u64, SpatialNodeMeta>, id: u64, place: int)
    requires
        0 <= place,
        children_fault(nodes, id, place) is None,
    ensures
        forall|k: int|
            place <= k < nodes[id].children@.len() ==> (#[trigger] child_fault(nodes, id, k)) is None,
    decreases nodes[id].children@.len() - place,
{
    if place < nodes[id].children@.len() {
        sound_children(nodes, id, place + 1);
    }
}

/// A listed child is there, one level or more below.
pub(crate) proof fn child_is_sound(nodes: Map<u64, SpatialNodeMeta>, id: u64, child: u64)
    requires
        node_fault(nodes, id) is None,
        nodes[id].children@.contains(child),
    ensures
        nodes.dom().contains(child),
        nodes[child].parent == Some(id),
        nodes[child].level > nodes[id].level,
        nodes[id].bounds.holds(nodes[child].bounds.min),
        nodes[id].bounds.holds(nodes[child].bounds.max),
{
    sound_children(nodes, id, 0);
    let k = choose|k: int| 0 <= k < nodes[id].children@.len() && nodes[id].children@[k] == child;
    assert(child_fault(nodes, id, k) is None);
}

/// The children of a node are all reached, and none of them was before.
pub open spec fn children_reached(
    nodes: Map<u64, SpatialNodeMeta>,
    reached: Set<u64>,
    last: Set<u64>,
    id: u64,
) -> bool {
    forall|child: u64| #[trigger]
        nodes[id].children@.contains(child) ==> last.contains(child) && !reached.contains(child)
}

/// Some newly reached node lists the node.
pub open spec fn listed_below(
    nodes: Map<u64, SpatialNodeMeta>,
    reached: Set<u64>,
    last: Set<u64>,
    id: u64,
) -> bool {
    exists|parent: u64|
        last.contains(parent) && !reached.contains(parent) && (
        #[trigger] nodes[parent]).children@.contains(id)
}

proof fn walk_facts(
    nodes: Map<u64, SpatialNodeMeta>,
    reached: Set<u64>,
    stack: Seq<u64>,
    last: Set<u64>,
)
    requires
        nodes.dom().finite(),
        walk(nodes, reached, stack) == Ok::<Set<u64>, Seq<char>>(last),
    ensures
        reached.subset_of(last),
        stack.no_duplicates(),
        forall|i: int| 0 <= i < stack.len() ==> !reached.contains(#[trigger] stack[i]),
        forall|i: int| 0 <= i < stack.len() ==> last.contains(#[trigger] stack[i]),
        forall|id: u64| #[trigger]
            last.contains(id) && !reached.contains(id) ==> nodes.dom().contains(id) && node_fault(
                nodes,
                id,
            ) is None && nodes[id].children@.no_duplicates() && children_reached(
                nodes,
                reached,
                last,
                id,
            ),
        forall|id: u64| #[trigger]
            last.contains(id) && !reached.contains(id) && !stack.contains(id) ==> listed_below(
                nodes,
                reached,
                last,
                id,
            ),
    decreases nodes.dom().difference(reached).len(),
{
    if stack.len() > 0 {
        let id = stack.last();
        let rest = stack.drop_last();
        let children = nodes[id].children@;
        let more = reached.insert(id);
        let next = rest + children;
        visiting_leaves_less(nodes.dom(), reached, id);
        walk_facts(nodes, more, next, last);
        assert forall|i: int| 0 <= i < rest.len() implies stack[i] == next[i] && stack[i]
            != id && !reached.contains(stack[i]) && last.contains(stack[i]) by {
            assert(!more.contains(next[i]));
            assert(last.contains(next[i]));
        }
        assert(last.contains(id)) by {
            assert(more.contains(id));
        }
        assert(stack.no_duplicates()) by {
            assert forall|i: int, j: int| 0 <= i < stack.len() && 0 <= j < stack.len() && i
                != j implies stack[i] != stack[j] by {
                if i < rest.len() && j < rest.len() {
                    assert(next[i] != next[j]);
                }
            }
        }
        assert(children.no_duplicates()) by {
            assert forall|i: int, j: int| 0 <= i < children.len() && 0 <= j < children.len() && i
                != j implies children[i] != children[j] by {
                assert(next[rest.len() + i] == children[i]);
                assert(next[rest.len() + j] == children[j]);
            }
        }
        assert forall|child: u64| #[trigger] children.contains(child) implies last.contains(child)
            && !more.contains(child) by {
            let k = choose|k: int| 0 <= k < children.len() && children[k] == child;
            assert(next[rest.len() + k] == child);
            assert(!more.contains(next[rest.len() + k]));
            assert(last.contains(next[rest.len() + k]));
        }
        assert forall|other: u64| #[trigger] last.contains(other) && !reached.contains(
            other,
        ) implies nodes.dom().contains(other) && node_fault(nodes, other) is None
            && nodes[other].children@.no_duplicates() && children_reached(
            nodes,
            reached,
            last,
            other,
        ) by {
            if other != id {
                assert(!more.contains(other));
                assert(children_reached(nodes, more, last, other));
            }
        }
        assert forall|other: u64| #[trigger] last.contains(other) && !reached.contains(other)
            && !stack.contains(other) implies listed_below(nodes, reached, last, other) by {
            assert(stack[stack.len() - 1] == id);
            assert(other != id);
            assert(!more.contains(other));
            if next.contains(other) {
                let k = choose|k: int| 0 <= k < next.len() && next[k] == other;
                if k < rest.len() {
                    assert(stack[k] == other);
                } else {
                    assert(children[k - rest.len()] == other);
                    assert(nodes[id].children@.contains(other));
                }
            } else {
                assert(listed_below(nodes, more, last, other));
                let parent = choose|parent: u64|
                    last.contains(parent) && !more.contains(parent) && (
                    #[trigger] nodes[parent]).children@.contains(other);
                assert(nodes[parent].children@.contains(other));
            }
        }
    }
}

/// Nodes that pass the check are a tree below the root.
pub proof fn accepted_nodes_are_a_tree(
    nodes: Map<u64, SpatialNodeMeta>,
    root: u64,
    count: u64,
    directory: Seq<BatchDirectoryEntry>,
)
    requires
        nodes.dom().finite(),
        tree_fault(nodes, root, count, directory) is None,
    ensures
        is_tree(nodes, root),
        !stray_entry(nodes, directory),
{
    let none = Set::<u64>::empty();
    let stack = seq![root];
    let last = walk(nodes, none, stack)->Ok_0;
    walk_facts(nodes, none, stack, last);
    assert(last =~= nodes.dom()) by {
        assert(last.subset_of(nodes.dom()));
        vstd::set_lib::lemma_subset_equality(last, nodes.dom());
    }
    let first = none.insert(root);
    let next = stack.drop_last() + nodes[root].children@;
    assert(stack.last() == root);
    assert(stack[0] == root);
    visiting_leaves_less(nodes.dom(), none, root);
    walk_facts(nodes, first, next, last);
    assert forall|id: u64| #[trigger] nodes.dom().contains(id) implies node_fault(nodes, id) is None
        && nodes[id].children@.no_duplicates() && !nodes[id].children@.contains(root) by {
        assert(last.contains(id) && !none.contains(id));
        if id == root {
            if nodes[root].children@.contains(root) {
                let k = choose|k: int|
                    0 <= k < nodes[root].children@.len() && nodes[root].children@[k] == root;
                assert(next[k] == root);
                assert(!first.contains(next[k]));
            }
        } else {
            assert(!first.contains(id));
            assert(children_reached(nodes, first, last, id));
            assert(first.contains(root));
        }
    }
    assert forall|id: u64| #[trigger] nodes.dom().contains(id) && id != root implies has_parent(
        nodes,
        id,
    ) by {
        assert(last.contains(id) && !none.contains(id) && !stack.contains(id));
        assert(listed_below(nodes, none, last, id));
        let parent = choose|parent: u64|
            last.contains(parent) && !none.contains(parent) && (
            #[trigger] nodes[parent]).children@.contains(id);
        child_is_sound(nodes, parent, id);
    }
}

} // verus!
