//! The union of two series: on a partition that both have, the values are summed; a
//! partition that only one has passes through.
use crate::series::{same_partition, seen, Piece};
use vstd::prelude::*;

verus! {

/// The piece `a` once per piece of `other` in its partition, each time with the sum
/// of both values. `None` where a sum does not fit.
pub open spec fn summed_with(a: Piece, other: Seq<Piece>) -> Option<Seq<Piece>>
    decreases other.len(),
{
    if other.len() == 0 {
        Some(Seq::empty())
    } else {
        match summed_with(a, other.drop_last()) {
            None => None,
            Some(before) => if same_partition(a, other.last()) {
                match a.value.plus(other.last().value) {
                    None => None,
                    Some(value) => Some(before.push(Piece { value, ..a })),
                }
            } else {
                Some(before)
            },
        }
    }
}

/// The pieces of `first`, in their order: summed with the pieces of `second` where
/// `second` has the partition, unchanged where it has not.
pub open spec fn summed(first: Seq<Piece>, second: Seq<Piece>) -> Option<Seq<Piece>>
    decreases first.len(),
{
    if first.len() == 0 {
        Some(Seq::empty())
    } else {
        match summed(first.drop_last(), second) {
            None => None,
            Some(before) => if seen(second, first.last()) {
                match summed_with(first.last(), second) {
                    None => None,
                    Some(more) => Some(before + more),
                }
            } else {
                Some(before.push(first.last()))
            },
        }
    }
}

/// The pieces of `second`, in their order, whose partition `first` does not have.
pub open spec fn only_in(second: Seq<Piece>, first: Seq<Piece>) -> Seq<Piece>
    decreases second.len(),
{
    if second.len() == 0 {
        Seq::empty()
    } else if seen(first, second.last()) {
        only_in(second.drop_last(), first)
    } else {
        only_in(second.drop_last(), first).push(second.last())
    }
}

/// The union of two series with summed overlap: the pieces of `first`, summed
/// where `second` has their partition, then the pieces of `second` on partitions
/// that `first` lacks. No partition of either series is dropped.
pub open spec fn combined(first: Seq<Piece>, second: Seq<Piece>) -> Option<Seq<Piece>> {
    match summed(first, second) {
        None => None,
        Some(both) => Some(both + only_in(second, first)),
    }
}

/// The sums of `a` with the pieces of `other` lie in the partition of `a`, and
/// there is one where `other` has that partition.
pub proof fn lemma_summed_with_seen(a: Piece, other: Seq<Piece>)
    requires
        summed_with(a, other) is Some,
    ensures
        forall|i: int|
            0 <= i < summed_with(a, other)->Some_0.len() ==> same_partition(
                #[trigger] summed_with(a, other)->Some_0[i],
                a,
            ),
        seen(other, a) ==> summed_with(a, other)->Some_0.len() > 0,
    decreases other.len(),
{
    if other.len() > 0 {
        lemma_summed_with_seen(a, other.drop_last());
        let before = summed_with(a, other.drop_last())->Some_0;
        let all = summed_with(a, other)->Some_0;
        assert forall|i: int| 0 <= i < all.len() implies same_partition(#[trigger] all[i], a) by {
            if i < before.len() {
                assert(all[i] == before[i]);
            }
        }
        if seen(other, a) && !same_partition(a, other.last()) {
            let k = choose|k: int| 0 <= k < other.len() && same_partition(#[trigger] other[k], a);
            assert(same_partition(other.drop_last()[k], a));
        }
    }
}

/// The summed pieces lie in the partitions of the first series, in all of them.
pub proof fn lemma_summed_seen(first: Seq<Piece>, second: Seq<Piece>, x: Piece)
    requires
        summed(first, second) is Some,
    ensures
        seen(summed(first, second)->Some_0, x) <==> seen(first, x),
    decreases first.len(),
{
    if first.len() > 0 {
        let prev = first.drop_last();
        let a = first.last();
        lemma_summed_seen(prev, second, x);
        let before = summed(prev, second)->Some_0;
        let all = summed(first, second)->Some_0;
        if seen(second, a) {
            lemma_summed_with_seen(a, second);
        }
        let more = if seen(second, a) {
            summed_with(a, second)->Some_0
        } else {
            seq![a]
        };
        assert(all =~= before + more);
        if seen(all, x) {
            let i = choose|i: int| 0 <= i < all.len() && same_partition(#[trigger] all[i], x);
            if i < before.len() {
                assert(same_partition(before[i], x));
                let k = choose|k: int| 0 <= k < prev.len() && same_partition(#[trigger] prev[k], x);
                assert(same_partition(first[k], x));
            } else {
                assert(all[i] == more[i - before.len()]);
                assert(same_partition(first[first.len() - 1], x));
            }
        }
        if seen(first, x) {
            let k = choose|k: int| 0 <= k < first.len() && same_partition(#[trigger] first[k], x);
            if k < prev.len() {
                assert(same_partition(prev[k], x));
                let i = choose|i: int|
                    0 <= i < before.len() && same_partition(#[trigger] before[i], x);
                assert(same_partition(all[i], x));
            } else {
                assert(all[before.len() as int] == more[0]);
                assert(same_partition(all[before.len() as int], x));
            }
        }
    }
}

/// The pieces that only the second series has lie in the partitions that the
/// second series has and the first lacks, in all of them.
pub proof fn lemma_only_in_seen(second: Seq<Piece>, first: Seq<Piece>, x: Piece)
    ensures
        seen(only_in(second, first), x) <==> seen(second, x) && !seen(first, x),
    decreases second.len(),
{
    if second.len() > 0 {
        let prev = second.drop_last();
        let b = second.last();
        lemma_only_in_seen(prev, first, x);
        let before = only_in(prev, first);
        let all = only_in(second, first);
        if seen(all, x) {
            let i = choose|i: int| 0 <= i < all.len() && same_partition(#[trigger] all[i], x);
            if i < before.len() {
                assert(same_partition(before[i], x));
                let k = choose|k: int| 0 <= k < prev.len() && same_partition(#[trigger] prev[k], x);
                assert(same_partition(second[k], x));
            } else {
                assert(same_partition(second[second.len() - 1], x));
                if seen(first, x) {
                    let k = choose|k: int|
                        0 <= k < first.len() && same_partition(#[trigger] first[k], x);
                    assert(same_partition(first[k], b));
                }
            }
        }
        if seen(second, x) && !seen(first, x) {
            let k = choose|k: int| 0 <= k < second.len() && same_partition(#[trigger] second[k], x);
            if k < prev.len() {
                assert(same_partition(prev[k], x));
                let i = choose|i: int|
                    0 <= i < before.len() && same_partition(#[trigger] before[i], x);
                assert(same_partition(all[i], x));
            } else {
                if seen(first, b) {
                    let j = choose|j: int|
                        0 <= j < first.len() && same_partition(#[trigger] first[j], b);
                    assert(same_partition(first[j], x));
                }
                assert(same_partition(all[all.len() - 1], x));
            }
        }
    }
}

/// The union drops no partition and brings none in: the united series has a piece
/// in a partition if and only if one of the two series has.
pub proof fn lemma_combined_seen(first: Seq<Piece>, second: Seq<Piece>, x: Piece)
    requires
        combined(first, second) is Some,
    ensures
        seen(combined(first, second)->Some_0, x) <==> seen(first, x) || seen(second, x),
{
    lemma_summed_seen(first, second, x);
    lemma_only_in_seen(second, first, x);
    let a = summed(first, second)->Some_0;
    let b = only_in(second, first);
    let all = combined(first, second)->Some_0;
    if seen(all, x) {
        let i = choose|i: int| 0 <= i < all.len() && same_partition(#[trigger] all[i], x);
        if i < a.len() {
            assert(same_partition(a[i], x));
        } else {
            assert(same_partition(b[i - a.len()], x));
        }
    }
    if seen(a, x) {
        let i = choose|i: int| 0 <= i < a.len() && same_partition(#[trigger] a[i], x);
        assert(same_partition(all[i], x));
    }
    if seen(b, x) {
        let i = choose|i: int| 0 <= i < b.len() && same_partition(#[trigger] b[i], x);
        assert(same_partition(all[a.len() + i], x));
    }
}

/// Whether some piece of the list lies in the partition of `x`.
pub fn has_partition(list: &Vec<Piece>, x: &Piece) -> (found: bool)
    ensures
        found == seen(list@, *x),
{
    let mut i: usize = 0;
    while i < list.len()
        invariant
            i <= list.len(),
            forall|k: int| 0 <= k < i ==> !same_partition(list@[k], *x),
        decreases list.len() - i,
    {
        let c: Piece = list[i];
        if c.group == x.group && c.year == x.year && c.period == x.period {
            return true;
        }
        i += 1;
    }
    false
}

/// Where the sums up to some piece do not fit, the sums with all pieces do not.
pub proof fn lemma_summed_with_prefix_none(a: Piece, other: Seq<Piece>, n: int)
    requires
        0 <= n <= other.len(),
        summed_with(a, other.take(n)) is None,
    ensures
        summed_with(a, other) is None,
    decreases other.len(),
{
    if n < other.len() {
        assert(other.drop_last().take(n) =~= other.take(n));
        lemma_summed_with_prefix_none(a, other.drop_last(), n);
    } else {
        assert(other.take(n) =~= other);
    }
}

/// Where the sums up to some piece do not fit, the sums of the whole series do not.
pub proof fn lemma_summed_prefix_none(first: Seq<Piece>, second: Seq<Piece>, n: int)
    requires
        0 <= n <= first.len(),
        summed(first.take(n), second) is None,
    ensures
        summed(first, second) is None,
    decreases first.len(),
{
    if n < first.len() {
        assert(first.drop_last().take(n) =~= first.take(n));
        lemma_summed_prefix_none(first.drop_last(), second, n);
    } else {
        assert(first.take(n) =~= first);
    }
}

/// Appends `a` summed with each piece of `other` in its partition. Returns whether
/// all sums fit.
fn push_summed(out: &mut Vec<Piece>, a: &Piece, other: &Vec<Piece>) -> (done: bool)
    ensures
        done ==> summed_with(*a, other@) is Some && final(out)@ == old(out)@ + summed_with(
            *a,
            other@,
        )->Some_0,
        !done ==> summed_with(*a, other@) is None,
{
    let mut j: usize = 0;
    assert(out@ =~= old(out)@ + summed_with(*a, other@.take(0))->Some_0);
    while j < other.len()
        invariant
            j <= other.len(),
            summed_with(*a, other@.take(j as int)) is Some,
            out@ == old(out)@ + summed_with(*a, other@.take(j as int))->Some_0,
        decreases other.len() - j,
    {
        let b: Piece = other[j];
        proof {
            assert(other@.take(j + 1).drop_last() =~= other@.take(j as int));
        }
        if a.group == b.group && a.year == b.year && a.period == b.period {
            match a.value.checked_add(&b.value) {
                None => {
                    proof {
                        lemma_summed_with_prefix_none(*a, other@, j + 1);
                    }
                    return false;
                },
                Some(value) => {
                    out.push(
                        Piece {
                            group: a.group,
                            year: a.year,
                            period: a.period,
                            start: a.start,
                            end: a.end,
                            value,
                        },
                    );
                    assert(out@ =~= old(out)@ + summed_with(*a, other@.take(j + 1))->Some_0);
                },
            }
        }
        j += 1;
    }
    assert(other@.take(other.len() as int) =~= other@);
    true
}

/// Unites two series, summing the values on the partitions that both have. A
/// partition that only one series has passes through; none is dropped.
pub fn combine(first: &Vec<Piece>, second: &Vec<Piece>) -> (out: Option<Vec<Piece>>)
    ensures
        match out {
            Some(series) => combined(first@, second@) == Some(series@),
            None => combined(first@, second@) is None,
        },
        out is Some ==> forall|x: Piece|
            #[trigger] seen(out->Some_0@, x) <==> seen(first@, x) || seen(second@, x),
{
    let mut out: Vec<Piece> = Vec::new();
    let mut i: usize = 0;
    while i < first.len()
        invariant
            i <= first.len(),
            summed(first@.take(i as int), second@) == Some(out@),
        decreases first.len() - i,
    {
        let a: Piece = first[i];
        proof {
            assert(first@.take(i + 1).drop_last() =~= first@.take(i as int));
        }
        if has_partition(second, &a) {
            if !push_summed(&mut out, &a, second) {
                proof {
                    lemma_summed_prefix_none(first@, second@, i + 1);
                }
                return None;
            }
        } else {
            out.push(a);
        }
        i += 1;
    }
    assert(first@.take(first.len() as int) =~= first@);
    let ghost both = out@;
    let mut j: usize = 0;
    assert(out@ =~= both + only_in(second@.take(0), first@));
    while j < second.len()
        invariant
            j <= second.len(),
            out@ == both + only_in(second@.take(j as int), first@),
        decreases second.len() - j,
    {
        let b: Piece = second[j];
        proof {
            assert(second@.take(j + 1).drop_last() =~= second@.take(j as int));
        }
        if !has_partition(first, &b) {
            out.push(b);
            assert(out@ =~= both + only_in(second@.take(j + 1), first@));
        }
        j += 1;
    }
    proof {
        assert(second@.take(second.len() as int) =~= second@);
        assert forall|x: Piece|
            #[trigger] seen(out@, x) <==> seen(first@, x) || seen(second@, x) by {
            lemma_combined_seen(first@, second@, x);
        }
    }
    Some(out)
}

} // verus!
