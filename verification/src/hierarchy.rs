//! The category hierarchy: which node lies under which.
use crate::model::{CategoryNode, Membership};
use vstd::prelude::*;

verus! {

/// The parent of the node `id`: that of the first node of the list with this id.
/// `None` where the list has no such node, or the node is a root.
pub open spec fn parent_of(nodes: Seq<CategoryNode>, id: i32) -> Option<i32>
    decreases nodes.len(),
{
    if nodes.len() == 0 {
        None
    } else if nodes[0].id == id {
        nodes[0].parent_id
    } else {
        parent_of(nodes.skip(1), id)
    }
}

/// Following the parents from `from` leads to `target` within `steps` steps.
pub open spec fn climbs(nodes: Seq<CategoryNode>, from: i32, target: i32, steps: nat) -> bool
    decreases steps,
{
    from == target || (steps > 0 && match parent_of(nodes, from) {
        Some(parent) => climbs(nodes, parent, target, (steps - 1) as nat),
        None => false,
    })
}

/// The node `leaf` is `target` or lies under it. In a hierarchy without cycles no
/// path to a root is longer than the number of nodes, so the walk is cut there.
pub open spec fn under(nodes: Seq<CategoryNode>, leaf: i32, target: i32) -> bool {
    climbs(nodes, leaf, target, nodes.len())
}

/// The node `leaf` is one of the nodes `targets` or lies under one of them.
pub open spec fn under_any(nodes: Seq<CategoryNode>, leaf: i32, targets: Seq<i32>) -> bool {
    exists|k: int| 0 <= k < targets.len() && under(nodes, leaf, #[trigger] targets[k])
}

/// The entity hangs, in the hierarchy of any root, at the node `node` or under it.
pub open spec fn hangs_under(
    memberships: Seq<Membership>,
    nodes: Seq<CategoryNode>,
    entity: u64,
    node: i32,
) -> bool {
    exists|j: int|
        0 <= j < memberships.len() && (#[trigger] memberships[j]).entity_key == entity && under(
            nodes,
            memberships[j].leaf_id,
            node,
        )
}

/// The parent of the node `id`.
pub fn find_parent(nodes: &Vec<CategoryNode>, id: i32) -> (parent: Option<i32>)
    ensures
        parent == parent_of(nodes@, id),
{
    let mut i: usize = 0;
    assert(nodes@.skip(0) =~= nodes@);
    while i < nodes.len()
        invariant
            i <= nodes.len(),
            parent_of(nodes@, id) == parent_of(nodes@.skip(i as int), id),
        decreases nodes.len() - i,
    {
        proof {
            assert(nodes@.skip(i as int).skip(1) =~= nodes@.skip(i + 1));
        }
        if nodes[i].id == id {
            return nodes[i].parent_id;
        }
        i += 1;
    }
    None
}

/// Whether the node `leaf` is `target` or lies under it.
pub fn is_under(nodes: &Vec<CategoryNode>, leaf: i32, target: i32) -> (found: bool)
    ensures
        found == under(nodes@, leaf, target),
{
    let mut at: i32 = leaf;
    let mut left: usize = nodes.len();
    loop
        invariant
            left <= nodes.len(),
            under(nodes@, leaf, target) == climbs(nodes@, at, target, left as nat),
        decreases left,
    {
        if at == target {
            return true;
        }
        if left == 0 {
            return false;
        }
        match find_parent(nodes, at) {
            None => {
                return false;
            },
            Some(parent) => {
                at = parent;
                left -= 1;
            },
        }
    }
}

/// Whether the node `leaf` is one of the nodes `targets` or lies under one of them.
pub fn is_under_any(nodes: &Vec<CategoryNode>, leaf: i32, targets: &Vec<i32>) -> (found: bool)
    ensures
        found == under_any(nodes@, leaf, targets@),
{
    let mut k: usize = 0;
    while k < targets.len()
        invariant
            k <= targets.len(),
            forall|i: int| 0 <= i < k ==> !under(nodes@, leaf, #[trigger] targets@[i]),
        decreases targets.len() - k,
    {
        if is_under(nodes, leaf, targets[k]) {
            return true;
        }
        k += 1;
    }
    false
}

/// Whether the entity hangs at the node `node` or under it.
pub fn is_member_under(
    memberships: &Vec<Membership>,
    nodes: &Vec<CategoryNode>,
    entity: u64,
    node: i32,
) -> (found: bool)
    ensures
        found == hangs_under(memberships@, nodes@, entity, node),
{
    let mut j: usize = 0;
    while j < memberships.len()
        invariant
            j <= memberships.len(),
            forall|i: int|
                0 <= i < j ==> !((#[trigger] memberships@[i]).entity_key == entity && under(
                    nodes@,
                    memberships@[i].leaf_id,
                    node,
                )),
        decreases memberships.len() - j,
    {
        let m: Membership = memberships[j];
        if m.entity_key == entity && is_under(nodes, m.leaf_id, node) {
            return true;
        }
        j += 1;
    }
    false
}

} // verus!
