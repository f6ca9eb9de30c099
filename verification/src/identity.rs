//! Resampling at the width of the pieces gives the series back.
use crate::resample::{
    binned, exploded, lemma_next_multiple, lemma_settled_each, opened, resampled, same_window,
    settled, slices, window_end, window_index, Aggregation, Bin,
};
use crate::series::{flat, values_wf, Piece};
use vstd::prelude::*;

verus! {

/// Every piece fills exactly one window of width `w`, and no two pieces of one group
/// and year fill the same window.
pub open spec fn one_per_window(pieces: Seq<Piece>, w: int) -> bool {
    &&& forall|i: int|
        0 <= i < pieces.len() ==> (#[trigger] pieces[i]).start as int % w == 0 && pieces[i].end
            == pieces[i].start + w
    &&& forall|i: int, j: int|
        0 <= i < j < pieces.len() ==> !same_window(pieces[i], pieces[j], w)
}

/// A piece that fills one window is its own only part.
proof fn lemma_slices_of_window(p: Piece, w: int)
    requires
        w > 0,
        p.period == 0,
        p.start as int % w == 0,
        p.end == p.start + w,
    ensures
        slices(p, w) == seq![p],
{
    let from = p.start as int;
    lemma_next_multiple(from, w);
    assert(window_end(from, w) == from + w) by {
        assert(from == (from / w) * w + from % w) by (nonlinear_arith)
            requires
                w > 0,
        ;
        assert((from / w + 1) * w == (from / w) * w + w) by (nonlinear_arith);
    }
    assert(Piece { period: 0, start: from as u64, ..p } == p);
}

/// A series of pieces that fill one window each is its own list of parts.
proof fn lemma_exploded_of_windows(pieces: Seq<Piece>, w: int)
    requires
        w > 0,
        flat(pieces),
        one_per_window(pieces, w),
    ensures
        exploded(pieces, w) == pieces,
    decreases pieces.len(),
{
    if pieces.len() > 0 {
        let prev = pieces.drop_last();
        assert(flat(prev) && one_per_window(prev, w)) by {
            assert forall|i: int| 0 <= i < prev.len() implies (#[trigger] prev[i]).period == 0 by {
                assert(prev[i] == pieces[i]);
            }
            assert forall|i: int| 0 <= i < prev.len() implies (#[trigger] prev[i]).start as int % w
                == 0 && prev[i].end == prev[i].start + w by {
                assert(prev[i] == pieces[i]);
            }
            assert forall|i: int, j: int| 0 <= i < j < prev.len() implies !same_window(
                prev[i],
                prev[j],
                w,
            ) by {
                assert(!same_window(pieces[i], pieces[j], w));
            }
        }
        lemma_exploded_of_windows(prev, w);
        lemma_slices_of_window(pieces.last(), w);
        assert(prev + seq![pieces.last()] =~= pieces);
    }
}

/// A bin is on the window of `x` only if some bin is; where none is, the place of
/// the first such bin is the number of bins.
proof fn lemma_window_index_none(bins: Seq<Bin>, x: Piece, w: int)
    requires
        forall|k: int| 0 <= k < bins.len() ==> !same_window((#[trigger] bins[k]).piece, x, w),
    ensures
        window_index(bins, x, w) == bins.len(),
    decreases bins.len(),
{
    if bins.len() > 0 {
        assert forall|k: int| 0 <= k < bins.drop_last().len() implies !same_window(
            (#[trigger] bins.drop_last()[k]).piece,
            x,
            w,
        ) by {
            assert(bins.drop_last()[k] == bins[k]);
        }
        lemma_window_index_none(bins.drop_last(), x, w);
        assert(!same_window(bins[bins.len() - 1].piece, x, w));
    }
}

/// Parts that lie in different windows each open a bin of their own.
proof fn lemma_binned_of_windows(parts: Seq<Piece>, w: int)
    requires
        w > 0,
        one_per_window(parts, w),
        binned(parts, w) is Some,
    ensures
        binned(parts, w)->Some_0.len() == parts.len(),
        forall|i: int|
            0 <= i < parts.len() ==> opened(parts[i]) == Some(
                #[trigger] binned(parts, w)->Some_0[i],
            ),
    decreases parts.len(),
{
    if parts.len() > 0 {
        let prev = parts.drop_last();
        let x = parts.last();
        assert(one_per_window(prev, w)) by {
            assert forall|i: int| 0 <= i < prev.len() implies (#[trigger] prev[i]).start as int % w
                == 0 && prev[i].end == prev[i].start + w by {
                assert(prev[i] == parts[i]);
            }
            assert forall|i: int, j: int| 0 <= i < j < prev.len() implies !same_window(
                prev[i],
                prev[j],
                w,
            ) by {
                assert(!same_window(parts[i], parts[j], w));
            }
        }
        lemma_binned_of_windows(prev, w);
        let bins = binned(prev, w)->Some_0;
        assert forall|k: int| 0 <= k < bins.len() implies !same_window(
            (#[trigger] bins[k]).piece,
            x,
            w,
        ) by {
            assert(opened(prev[k]) == Some(bins[k]));
            assert(prev[k] == parts[k]);
            assert(!same_window(parts[k], parts[parts.len() - 1], w));
        }
        lemma_window_index_none(bins, x, w);
        let all = binned(parts, w)->Some_0;
        assert(all == bins.push(opened(x)->Some_0));
        assert forall|i: int| 0 <= i < parts.len() implies opened(parts[i]) == Some(
            #[trigger] all[i],
        ) by {
            if i < prev.len() {
                assert(prev[i] == parts[i]);
                assert(all[i] == bins[i]);
            }
        }
    }
}

/// Resample identity: where every piece fills exactly one window of the chosen
/// width, resampling gives each piece back on its stretch. By the average it has
/// the same value as before; by the sum it has that value times the width, which
/// at the width of one hour is the same piece.
pub proof fn lemma_resample_identity(pieces: Seq<Piece>, w: int, mode: Aggregation)
    requires
        w > 0,
        flat(pieces),
        values_wf(pieces),
        one_per_window(pieces, w),
        resampled(pieces, w, mode) is Some,
    ensures
        resampled(pieces, w, mode)->Some_0.len() == pieces.len(),
        forall|i: int|
            0 <= i < pieces.len() ==> {
                let out = #[trigger] resampled(pieces, w, mode)->Some_0[i];
                &&& out.group == pieces[i].group
                &&& out.year == pieces[i].year
                &&& out.period == pieces[i].period
                &&& out.start == pieces[i].start
                &&& out.end == pieces[i].end
                &&& mode == Aggregation::Avg ==> out.value.same(pieces[i].value)
                &&& mode == Aggregation::Sum ==> pieces[i].value.times(w) == Some(out.value)
                &&& w == 1 ==> out == pieces[i]
            },
{
    lemma_exploded_of_windows(pieces, w);
    lemma_binned_of_windows(pieces, w);
    let bins = binned(pieces, w)->Some_0;
    lemma_settled_each(bins, mode);
    let all = resampled(pieces, w, mode)->Some_0;
    assert forall|i: int| 0 <= i < pieces.len() implies {
        let out = #[trigger] all[i];
        &&& out.group == pieces[i].group
        &&& out.year == pieces[i].year
        &&& out.period == pieces[i].period
        &&& out.start == pieces[i].start
        &&& out.end == pieces[i].end
        &&& mode == Aggregation::Avg ==> out.value.same(pieces[i].value)
        &&& mode == Aggregation::Sum ==> pieces[i].value.times(w) == Some(out.value)
        &&& w == 1 ==> out == pieces[i]
    } by {
        let p = pieces[i];
        assert(opened(p) == Some(bins[i]));
        assert(settled(bins[i], mode) == Some(all[i]));
        let load = p.value.times(w)->Some_0;
        assert(bins[i].hours == w);
        let (n, d) = (p.value.num as int, p.value.den as int);
        assert(load.num == n * w);
        if mode == Aggregation::Avg {
            let out = all[i].value;
            assert(out.num == n * w && out.den == d * w);
            assert((n * w) * d == n * (d * w)) by (nonlinear_arith);
        }
        if w == 1 {
            assert(n * 1 == n && d * 1 == d) by (nonlinear_arith);
        }
    }
}

} // verus!
