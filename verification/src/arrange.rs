//! The order of a series: by group, year, period and start. Pieces that agree in
//! all four keep the order in which they came.
use crate::series::Piece;
use vstd::prelude::*;

verus! {

/// `a` comes before `b`: in group, then year, then period, then start.
pub open spec fn precedes(a: Piece, b: Piece) -> bool {
    a.group < b.group || (a.group == b.group && (a.year < b.year || (a.year == b.year && (a.period
        < b.period || (a.period == b.period && a.start < b.start)))))
}

/// No piece comes before one that stands earlier in the list.
pub open spec fn ordered(s: Seq<Piece>) -> bool {
    forall|i: int, j: int| 0 <= i < j < s.len() ==> !precedes(s[j], s[i])
}

/// The list `s` with `x` put behind the last piece that `x` does not come before.
pub open spec fn inserted(s: Seq<Piece>, x: Piece) -> Seq<Piece>
    decreases s.len(),
{
    if s.len() > 0 && precedes(x, s.last()) {
        inserted(s.drop_last(), x).push(s.last())
    } else {
        s.push(x)
    }
}

/// The pieces of `s` in order: each piece, in turn, is put into the order of those
/// before it, behind the pieces that it does not come before.
pub open spec fn arranged(s: Seq<Piece>) -> Seq<Piece>
    decreases s.len(),
{
    if s.len() == 0 {
        Seq::empty()
    } else {
        inserted(arranged(s.drop_last()), s.last())
    }
}

/// Putting `x` in is inserting it at the place where the pieces that it comes
/// before begin.
pub proof fn lemma_inserted_at(s: Seq<Piece>, x: Piece, at: int)
    requires
        0 <= at <= s.len(),
        forall|k: int| at <= k < s.len() ==> precedes(x, s[k]),
        at == 0 || !precedes(x, s[at - 1]),
    ensures
        inserted(s, x) == s.insert(at, x),
    decreases s.len() - at,
{
    if at == s.len() {
        assert(s.insert(at, x) =~= s.push(x));
    } else {
        lemma_inserted_at(s.drop_last(), x, at);
        assert(s.insert(at, x) =~= s.drop_last().insert(at, x).push(s.last()));
    }
}

/// Putting a piece into an ordered list keeps it ordered, and keeps its pieces.
pub proof fn lemma_inserted_ordered(s: Seq<Piece>, x: Piece)
    requires
        ordered(s),
    ensures
        ordered(inserted(s, x)),
        inserted(s, x).to_multiset() == s.to_multiset().insert(x),
        inserted(s, x).len() == s.len() + 1,
    decreases s.len(),
{
    broadcast use vstd::seq_lib::group_to_multiset_ensures;

    if s.len() > 0 && precedes(x, s.last()) {
        let rest = s.drop_last();
        lemma_inserted_ordered(rest, x);
        let r = inserted(rest, x);
        let out = r.push(s.last());
        assert(s =~= rest.push(s.last()));
        assert(out.to_multiset() =~= s.to_multiset().insert(x));
        assert forall|i: int, j: int| 0 <= i < j < out.len() implies !precedes(out[j], out[i]) by {
            if j < out.len() - 1 {
                assert(!precedes(r[j], r[i]));
            } else {
                // out[i] is x or a piece of rest; the last of s comes before neither.
                assert(r.to_multiset().count(r[i]) > 0);
                if r[i] != x {
                    assert(rest.to_multiset().count(r[i]) > 0);
                    assert(rest.contains(r[i]));
                    let k = choose|k: int| 0 <= k < rest.len() && rest[k] == r[i];
                    assert(!precedes(s[s.len() - 1], s[k]));
                }
            }
        }
    } else {
        let out = s.push(x);
        assert forall|i: int, j: int| 0 <= i < j < out.len() implies !precedes(out[j], out[i]) by {
            if j == out.len() - 1 && s.len() > 0 {
                assert(!precedes(s[s.len() - 1], s[i]));
            }
        }
    }
}

/// The arranged list is ordered and holds the same pieces, each as often.
pub proof fn lemma_arranged(s: Seq<Piece>)
    ensures
        ordered(arranged(s)),
        arranged(s).to_multiset() == s.to_multiset(),
        arranged(s).len() == s.len(),
    decreases s.len(),
{
    broadcast use vstd::seq_lib::group_to_multiset_ensures;

    if s.len() > 0 {
        lemma_arranged(s.drop_last());
        lemma_inserted_ordered(arranged(s.drop_last()), s.last());
        assert(s =~= s.drop_last().push(s.last()));
    }
}

/// A list that is in order stays as it is.
pub proof fn lemma_arranged_of_ordered(s: Seq<Piece>)
    requires
        ordered(s),
    ensures
        arranged(s) == s,
    decreases s.len(),
{
    if s.len() > 0 {
        assert(ordered(s.drop_last())) by {
            assert forall|i: int, j: int| 0 <= i < j < s.drop_last().len() implies !precedes(
                s.drop_last()[j],
                s.drop_last()[i],
            ) by {
                assert(!precedes(s[j], s[i]));
            }
        }
        lemma_arranged_of_ordered(s.drop_last());
        if s.len() > 1 {
            assert(!precedes(s[s.len() - 1], s[s.len() - 2]));
        }
        assert(s.drop_last().push(s.last()) =~= s);
    }
}

/// Every piece of the arranged list is a piece of the list, and the other way
/// round.
pub proof fn lemma_arranged_same_pieces(s: Seq<Piece>)
    ensures
        forall|i: int| 0 <= i < arranged(s).len() ==> s.contains(#[trigger] arranged(s)[i]),
        forall|i: int| 0 <= i < s.len() ==> arranged(s).contains(#[trigger] s[i]),
{
    broadcast use vstd::seq_lib::group_to_multiset_ensures;

    lemma_arranged(s);
    let a = arranged(s);
    assert forall|i: int| 0 <= i < a.len() implies s.contains(#[trigger] a[i]) by {
        assert(a.to_multiset().count(a[i]) > 0);
    }
    assert forall|i: int| 0 <= i < s.len() implies a.contains(#[trigger] s[i]) by {
        assert(s.to_multiset().count(s[i]) > 0);
    }
}

/// Whether `a` comes before `b`.
pub fn comes_before(a: &Piece, b: &Piece) -> (before: bool)
    ensures
        before == precedes(*a, *b),
{
    if a.group != b.group {
        a.group < b.group
    } else if a.year != b.year {
        a.year < b.year
    } else if a.period != b.period {
        a.period < b.period
    } else {
        a.start < b.start
    }
}

/// Arranges the pieces by group, year, period and start.
pub fn arrange(pieces: &Vec<Piece>) -> (out: Vec<Piece>)
    ensures
        out@ == arranged(pieces@),
        ordered(out@),
        out@.to_multiset() == pieces@.to_multiset(),
        out@.len() == pieces@.len(),
{
    let mut out: Vec<Piece> = Vec::new();
    let mut i: usize = 0;
    while i < pieces.len()
        invariant
            i <= pieces.len(),
            out@ == arranged(pieces@.take(i as int)),
        decreases pieces.len() - i,
    {
        let x: Piece = pieces[i];
        let mut at: usize = out.len();
        while at > 0 && comes_before(&x, &out[at - 1])
            invariant
                at <= out.len(),
                forall|k: int| at <= k < out.len() ==> precedes(x, out@[k]),
            decreases at,
        {
            at -= 1;
        }
        proof {
            lemma_inserted_at(out@, x, at as int);
            assert(pieces@.take(i + 1).drop_last() =~= pieces@.take(i as int));
        }
        out.insert(at, x);
        i += 1;
    }
    proof {
        assert(pieces@.take(pieces.len() as int) =~= pieces@);
        lemma_arranged(pieces@);
    }
    out
}

} // verus!
