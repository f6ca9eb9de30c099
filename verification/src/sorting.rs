//! Ascending listings of finite sets of integers.
use std::collections::HashMap;
use vstd::prelude::*;
use vstd::std_specs::hash::*;
use vstd::std_specs::iter::IteratorSpec;

verus! {

/// Each element is smaller than all that follow it.
pub open spec fn increasing(s: Seq<i32>) -> bool {
    forall|i: int, j: int| 0 <= i < j < s.len() ==> s[i] < s[j]
}

/// `s` lists exactly the elements of `dom`, in increasing order.
pub open spec fn lists(s: Seq<i32>, dom: Set<i32>) -> bool {
    &&& increasing(s)
    &&& forall|k: i32| dom.contains(k) <==> s.contains(k)
}

/// The elements of a finite set in increasing order.
pub open spec fn ascending(dom: Set<i32>) -> Seq<i32> {
    choose|s: Seq<i32>| lists(s, dom)
}

/// A set has at most one increasing listing.
pub proof fn lemma_listing_unique(a: Seq<i32>, b: Seq<i32>, dom: Set<i32>)
    requires
        lists(a, dom),
        lists(b, dom),
    ensures
        a == b,
    decreases a.len(),
{
    if a.len() == 0 {
        if b.len() > 0 {
            assert(b.contains(b[0]));
            assert(a.contains(b[0]));
        }
        assert(a =~= b);
    } else {
        let top = a.last();
        assert(a.contains(top));
        assert(b.contains(top));
        assert(b.len() > 0);
        assert(b.contains(b.last()));
        assert(a.contains(b.last()));
        assert(top == b.last());
        let rest = dom.remove(top);
        assert forall|k: i32| rest.contains(k) <==> a.drop_last().contains(k) by {
            if a.drop_last().contains(k) {
                let i = choose|i: int| 0 <= i < a.drop_last().len() && a.drop_last()[i] == k;
                assert(a[i] == k);
                assert(a.contains(k));
            }
            if rest.contains(k) {
                let i = choose|i: int| 0 <= i < a.len() && a[i] == k;
                assert(a.drop_last()[i] == k);
            }
        }
        assert forall|k: i32| rest.contains(k) <==> b.drop_last().contains(k) by {
            if b.drop_last().contains(k) {
                let i = choose|i: int| 0 <= i < b.drop_last().len() && b.drop_last()[i] == k;
                assert(b[i] == k);
                assert(b.contains(k));
            }
            if rest.contains(k) {
                let i = choose|i: int| 0 <= i < b.len() && b[i] == k;
                assert(b.drop_last()[i] == k);
            }
        }
        lemma_listing_unique(a.drop_last(), b.drop_last(), rest);
        assert(a =~= a.drop_last().push(top));
        assert(b =~= b.drop_last().push(top));
    }
}

/// Puts `k` at its place in an increasing list that does not hold it yet.
fn insert_ascending(v: &mut Vec<i32>, k: i32)
    requires
        increasing(old(v)@),
        !old(v)@.contains(k),
    ensures
        increasing(final(v)@),
        final(v)@.len() == old(v)@.len() + 1,
        forall|x: i32| final(v)@.contains(x) <==> (old(v)@.contains(x) || x == k),
{
    let mut at: usize = 0;
    while at < v.len() && v[at] < k
        invariant
            at <= v.len(),
            v@ == old(v)@,
            forall|i: int| 0 <= i < at ==> v@[i] < k,
        decreases v.len() - at,
    {
        at += 1;
    }
    let ghost before = v@;
    assert(forall|i: int| at <= i < before.len() ==> before[i] > k) by {
        assert forall|i: int| at <= i < before.len() implies before[i] > k by {
            assert(before.contains(before[i]));
            assert(before[at as int] >= k);
        }
    }
    v.insert(at, k);
    assert(v@ == before.insert(at as int, k));
    assert forall|x: i32| v@.contains(x) <==> (before.contains(x) || x == k) by {
        if v@.contains(x) {
            let i = choose|i: int| 0 <= i < v@.len() && v@[i] == x;
            if i < at {
                assert(before[i] == x);
            } else if i > at {
                assert(before[i - 1] == x);
            }
        }
        if before.contains(x) {
            let i = choose|i: int| 0 <= i < before.len() && before[i] == x;
            if i < at {
                assert(v@[i] == x);
            } else {
                assert(v@[i + 1] == x);
            }
        }
        if x == k {
            assert(v@[at as int] == k);
        }
    }
}

/// The keys of a map in increasing order.
pub fn sorted_keys(m: &HashMap<i32, Vec<i32>>) -> (keys: Vec<i32>)
    ensures
        keys@ == ascending(m@.dom()),
        lists(keys@, m@.dom()),
{
    broadcast use group_hash_axioms;

    let mut keys: Vec<i32> = Vec::new();
    let it = m.keys();
    let ghost all = it.remaining();
    for k in iter: it
        invariant
            increasing(keys@),
            all == iter.seq(),
            all.no_duplicates(),
            forall|x: i32| keys@.contains(x) <==> exists|i: int| 0 <= i < iter.index() && *all[i] == x,
    {
        proof {
            if keys@.contains(*k) {
                let i = choose|i: int| 0 <= i < iter.index() && *all[i] == *k;
                assert(all[i] == all[iter.index()]);
            }
        }
        insert_ascending(&mut keys, *k);
    }
    proof {
        assert forall|x: i32| m@.dom().contains(x) <==> keys@.contains(x) by {
            if m@.dom().contains(x) {
                assert(all.unref().to_set().contains(x));
            }
            if keys@.contains(x) {
                let i = choose|i: int| 0 <= i < all.len() && *all[i] == x;
                assert(all.unref()[i] == x);
                assert(all.unref().to_set().contains(x));
            }
        }
        assert(lists(keys@, m@.dom()));
        lemma_listing_unique(keys@, ascending(m@.dom()), m@.dom());
    }
    keys
}

} // verus!
