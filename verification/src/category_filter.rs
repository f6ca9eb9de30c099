//! The category filter: a row stays where its entity lies, for every root that the
//! filter names, under one of the nodes that the filter allows for that root.
use crate::hierarchy::{is_under_any, under_any};
use crate::model::{CategoryNode, Membership, TimeBlockRow};
use crate::sorting::{lists, sorted_keys};
use std::collections::HashMap;
use vstd::prelude::*;

verus! {

/// The entity hangs, under the root `root`, at one of the nodes `allowed` or under
/// one of them.
pub open spec fn passes_root(
    memberships: Seq<Membership>,
    nodes: Seq<CategoryNode>,
    entity: u64,
    root: i32,
    allowed: Seq<i32>,
) -> bool {
    exists|j: int|
        0 <= j < memberships.len() && (#[trigger] memberships[j]).entity_key == entity
            && memberships[j].root_id == root && under_any(nodes, memberships[j].leaf_id, allowed)
}

/// The entity passes the filter: it passes every root that the filter names. A
/// root that the filter does not name restricts nothing.
pub open spec fn passes(
    filter: Map<i32, Vec<i32>>,
    memberships: Seq<Membership>,
    nodes: Seq<CategoryNode>,
    entity: u64,
) -> bool {
    forall|root: i32|
        filter.contains_key(root) ==> passes_root(memberships, nodes, entity, root, filter[root]@)
}

/// The rows whose entity passes the filter, in their order.
pub open spec fn kept(
    rows: Seq<TimeBlockRow>,
    filter: Map<i32, Vec<i32>>,
    memberships: Seq<Membership>,
    nodes: Seq<CategoryNode>,
) -> Seq<TimeBlockRow>
    decreases rows.len(),
{
    if rows.len() == 0 {
        Seq::empty()
    } else {
        let before = kept(rows.drop_last(), filter, memberships, nodes);
        if passes(filter, memberships, nodes, rows.last().entity_key) {
            before.push(rows.last())
        } else {
            before
        }
    }
}

/// Filter exclusivity: every row that the filter keeps is a row of the input whose
/// entity passes the filter, so no row of an excluded entity is left.
pub proof fn lemma_kept_pass(
    rows: Seq<TimeBlockRow>,
    filter: Map<i32, Vec<i32>>,
    memberships: Seq<Membership>,
    nodes: Seq<CategoryNode>,
)
    ensures
        forall|i: int|
            0 <= i < kept(rows, filter, memberships, nodes).len() ==> passes(
                filter,
                memberships,
                nodes,
                (#[trigger] kept(rows, filter, memberships, nodes)[i]).entity_key,
            ) && rows.contains(kept(rows, filter, memberships, nodes)[i]),
    decreases rows.len(),
{
    if rows.len() > 0 {
        lemma_kept_pass(rows.drop_last(), filter, memberships, nodes);
        let before = kept(rows.drop_last(), filter, memberships, nodes);
        let all = kept(rows, filter, memberships, nodes);
        assert forall|i: int| 0 <= i < all.len() implies passes(
            filter,
            memberships,
            nodes,
            (#[trigger] all[i]).entity_key,
        ) && rows.contains(all[i]) by {
            if i < before.len() {
                assert(all[i] == before[i]);
                let k = choose|k: int|
                    0 <= k < rows.drop_last().len() && rows.drop_last()[k] == before[i];
                assert(rows[k] == all[i]);
            } else {
                assert(rows[rows.len() - 1] == all[i]);
            }
        }
    }
}

/// Every row of a passing entity is kept.
pub proof fn lemma_kept_all(
    rows: Seq<TimeBlockRow>,
    filter: Map<i32, Vec<i32>>,
    memberships: Seq<Membership>,
    nodes: Seq<CategoryNode>,
    i: int,
)
    requires
        0 <= i < rows.len(),
        passes(filter, memberships, nodes, rows[i].entity_key),
    ensures
        kept(rows, filter, memberships, nodes).contains(rows[i]),
    decreases rows.len(),
{
    let all = kept(rows, filter, memberships, nodes);
    if i == rows.len() - 1 {
        assert(all[all.len() - 1] == rows[i]);
    } else {
        lemma_kept_all(rows.drop_last(), filter, memberships, nodes, i);
        let before = kept(rows.drop_last(), filter, memberships, nodes);
        let k = choose|k: int| 0 <= k < before.len() && before[k] == rows.drop_last()[i];
        assert(all[k] == rows[i]);
    }
}

/// Whether the entity passes one root of the filter.
pub fn entity_passes_root(
    memberships: &Vec<Membership>,
    nodes: &Vec<CategoryNode>,
    entity: u64,
    root: i32,
    allowed: &Vec<i32>,
) -> (ok: bool)
    ensures
        ok == passes_root(memberships@, nodes@, entity, root, allowed@),
{
    let mut j: usize = 0;
    while j < memberships.len()
        invariant
            j <= memberships.len(),
            forall|i: int|
                0 <= i < j ==> !((#[trigger] memberships@[i]).entity_key == entity
                    && memberships@[i].root_id == root && under_any(
                    nodes@,
                    memberships@[i].leaf_id,
                    allowed@,
                )),
        decreases memberships.len() - j,
    {
        let m: Membership = memberships[j];
        if m.entity_key == entity && m.root_id == root && is_under_any(nodes, m.leaf_id, allowed) {
            return true;
        }
        j += 1;
    }
    false
}

/// Whether the entity passes the filter.
pub fn entity_passes(
    filter: &HashMap<i32, Vec<i32>>,
    memberships: &Vec<Membership>,
    nodes: &Vec<CategoryNode>,
    entity: u64,
) -> (ok: bool)
    ensures
        ok == passes(filter@, memberships@, nodes@, entity),
{
    broadcast use vstd::std_specs::hash::group_hash_axioms;

    let roots: Vec<i32> = sorted_keys(filter);
    let mut i: usize = 0;
    while i < roots.len()
        invariant
            i <= roots.len(),
            lists(roots@, filter@.dom()),
            forall|k: int|
                0 <= k < i ==> passes_root(
                    memberships@,
                    nodes@,
                    entity,
                    #[trigger] roots@[k],
                    filter@[roots@[k]]@,
                ),
        decreases roots.len() - i,
    {
        let root: i32 = roots[i];
        assert(roots@.contains(roots@[i as int]));
        assert(filter@.contains_key(root));
        match filter.get(&root) {
            None => {},
            Some(allowed) => {
                if !entity_passes_root(memberships, nodes, entity, root, allowed) {
                    return false;
                }
            },
        }
        i += 1;
    }
    assert forall|root: i32| filter@.contains_key(root) implies passes_root(
        memberships@,
        nodes@,
        entity,
        root,
        filter@[root]@,
    ) by {
        assert(roots@.contains(root));
        let k = choose|k: int| 0 <= k < roots@.len() && roots@[k] == root;
        assert(passes_root(memberships@, nodes@, entity, roots@[k], filter@[roots@[k]]@));
    }
    true
}

/// Keeps the rows whose entity lies, for every root that the filter names, under
/// one of the nodes that the filter allows for that root.
pub fn apply_filter(
    rows: &Vec<TimeBlockRow>,
    filter: &HashMap<i32, Vec<i32>>,
    memberships: &Vec<Membership>,
    nodes: &Vec<CategoryNode>,
) -> (out: Vec<TimeBlockRow>)
    ensures
        out@ == kept(rows@, filter@, memberships@, nodes@),
        forall|i: int|
            0 <= i < out@.len() ==> passes(
                filter@,
                memberships@,
                nodes@,
                (#[trigger] out@[i]).entity_key,
            ) && rows@.contains(out@[i]),
{
    let mut out: Vec<TimeBlockRow> = Vec::new();
    let mut i: usize = 0;
    while i < rows.len()
        invariant
            i <= rows.len(),
            out@ == kept(rows@.take(i as int), filter@, memberships@, nodes@),
        decreases rows.len() - i,
    {
        let row: TimeBlockRow = rows[i];
        proof {
            assert(rows@.take(i + 1).drop_last() =~= rows@.take(i as int));
        }
        if entity_passes(filter, memberships, nodes, row.entity_key) {
            out.push(row);
        }
        i += 1;
    }
    proof {
        assert(rows@.take(rows.len() as int) =~= rows@);
        lemma_kept_pass(rows@, filter@, memberships@, nodes@);
    }
    out
}

} // verus!
