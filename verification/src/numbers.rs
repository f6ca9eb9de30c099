//! Every value is a number: from rows with whole values and resolutions of at least
//! one hour, every stage gives fractions with a positive denominator, for which
//! being the same number is an equivalence.
use crate::arrange::{arranged, lemma_arranged_same_pieces};
use crate::combine::{combined, only_in, summed, summed_with};
use crate::compaction::compacted;
use crate::coverage::lemma_window_index_first;
use crate::gather::{gathered, lemma_place_index_place, place_index};
use crate::intervals::intervals;
use crate::local_coverage::{lemma_share_origin, resolutions_agree};
use crate::model::{PeriodLength, PeriodMapping};
use crate::ratio::lemma_plus_wf;
use crate::resample::{
    binned, exploded, lemma_settled_each, lemma_slices_shape, resampled, settled, slices,
    window_index, Aggregation, Bin,
};
use crate::series::{seen, values_wf, Piece};
use crate::timeline::shifted;
use crate::weighting::{placed, placements, share, shares, Placed, Placement};
use vstd::prelude::*;

verus! {

/// A prefix of a list of numbers is a list of numbers.
pub proof fn lemma_values_prefix(s: Seq<Piece>)
    requires
        values_wf(s),
        s.len() > 0,
    ensures
        values_wf(s.drop_last()),
        s.last().value.wf(),
{
    assert forall|i: int| 0 <= i < s.drop_last().len() implies (#[trigger] s.drop_last()[i]).value.wf() by {
        assert(s.drop_last()[i] == s[i]);
    }
    assert(s[s.len() - 1].value.wf());
}

/// Arranging keeps numbers.
pub proof fn lemma_arranged_values(s: Seq<Piece>)
    requires
        values_wf(s),
    ensures
        values_wf(arranged(s)),
{
    lemma_arranged_same_pieces(s);
    let a = arranged(s);
    assert forall|i: int| 0 <= i < a.len() implies (#[trigger] a[i]).value.wf() by {
        assert(s.contains(a[i]));
        let k = choose|k: int| 0 <= k < s.len() && s[k] == a[i];
        assert(s[k].value.wf());
    }
}

/// Compaction keeps numbers.
pub proof fn lemma_compacted_values(rows: Seq<Piece>)
    requires
        values_wf(rows),
    ensures
        values_wf(compacted(rows)),
    decreases rows.len(),
{
    if rows.len() > 0 {
        lemma_values_prefix(rows);
        lemma_compacted_values(rows.drop_last());
        let b = compacted(rows.drop_last());
        let c = compacted(rows);
        assert forall|i: int| 0 <= i < c.len() implies (#[trigger] c[i]).value.wf() by {
            if i < b.len() {
                assert(c[i].value == b[i].value);
                assert(b[i].value.wf());
            }
        }
    }
}

/// Gathering keeps numbers.
pub proof fn lemma_gathered_values(pieces: Seq<Piece>)
    requires
        values_wf(pieces),
        gathered(pieces) is Some,
    ensures
        values_wf(gathered(pieces)->Some_0),
    decreases pieces.len(),
{
    if pieces.len() > 0 {
        lemma_values_prefix(pieces);
        lemma_gathered_values(pieces.drop_last());
        let cells = gathered(pieces.drop_last())->Some_0;
        let all = gathered(pieces)->Some_0;
        let x = pieces.last();
        let at = place_index(cells, x);
        lemma_place_index_place(cells, x);
        assert forall|i: int| 0 <= i < all.len() implies (#[trigger] all[i]).value.wf() by {
            if i < cells.len() {
                assert(cells[i].value.wf());
                if i == at {
                    lemma_plus_wf(cells[i].value, x.value);
                }
            }
        }
    }
}

/// The shares are numbers, where the blocks hold numbers and the resolutions are at
/// least one hour.
pub proof fn lemma_shares_values(
    blocks: Seq<Piece>,
    mappings: Seq<PeriodMapping>,
    lengths: Seq<PeriodLength>,
)
    requires
        values_wf(blocks),
        resolutions_agree(placements(mappings, lengths)),
        shares(
            placed(blocks, placements(mappings, lengths)),
            intervals(blocks, mappings),
        ) is Some,
    ensures
        values_wf(
            shares(
                placed(blocks, placements(mappings, lengths)),
                intervals(blocks, mappings),
            )->Some_0,
        ),
{
    let places = placements(mappings, lengths);
    let cuts = intervals(blocks, mappings);
    let all = shares(placed(blocks, places), cuts)->Some_0;
    assert forall|k: int| 0 <= k < all.len() implies (#[trigger] all[k]).value.wf() by {
        let (bi, pl, ci) = lemma_share_origin(blocks, mappings, lengths, k);
        let j = choose|j: int| 0 <= j < places.len() && places[j] == pl;
        assert(places[j].resolution_hours >= 1);
        assert(blocks[bi].value.wf());
        let (d, r) = (blocks[bi].value.den as int, pl.resolution_hours as int);
        assert(d * r >= 1) by (nonlinear_arith)
            requires
                d >= 1,
                r >= 1,
        ;
        assert(share(Placed { block: blocks[bi], placement: pl }, cuts[ci]) == Some(all[k]));
    }
}

/// Laying the periods end to end keeps the values.
pub proof fn lemma_shifted_values(s: Seq<Piece>, n: int, places: Seq<Placement>)
    requires
        values_wf(s),
        0 <= n <= s.len(),
        shifted(s, n, places) is Some,
    ensures
        values_wf(shifted(s, n, places)->Some_0),
    decreases n,
{
    if n > 0 {
        lemma_shifted_values(s, n - 1, places);
        let before = shifted(s, n - 1, places)->Some_0;
        let all = shifted(s, n, places)->Some_0;
        assert forall|i: int| 0 <= i < all.len() implies (#[trigger] all[i]).value.wf() by {
            if i < before.len() {
                assert(all[i] == before[i]);
                assert(before[i].value.wf());
            } else {
                assert(s[n - 1].value.wf());
            }
        }
    }
}

/// The sums of a piece with the pieces of another series are numbers.
pub proof fn lemma_summed_with_values(a: Piece, other: Seq<Piece>)
    requires
        a.value.wf(),
        values_wf(other),
        summed_with(a, other) is Some,
    ensures
        values_wf(summed_with(a, other)->Some_0),
    decreases other.len(),
{
    if other.len() > 0 {
        lemma_values_prefix(other);
        lemma_summed_with_values(a, other.drop_last());
        let before = summed_with(a, other.drop_last())->Some_0;
        let all = summed_with(a, other)->Some_0;
        assert forall|i: int| 0 <= i < all.len() implies (#[trigger] all[i]).value.wf() by {
            if i < before.len() {
                assert(all[i] == before[i]);
                assert(before[i].value.wf());
            } else {
                lemma_plus_wf(a.value, other.last().value);
            }
        }
    }
}

/// The union of two series of numbers is a series of numbers.
pub proof fn lemma_combined_values(first: Seq<Piece>, second: Seq<Piece>)
    requires
        values_wf(first),
        values_wf(second),
        combined(first, second) is Some,
    ensures
        values_wf(combined(first, second)->Some_0),
{
    lemma_summed_values(first, second);
    lemma_only_in_values(second, first);
    let a = summed(first, second)->Some_0;
    let b = only_in(second, first);
    let all = combined(first, second)->Some_0;
    assert forall|i: int| 0 <= i < all.len() implies (#[trigger] all[i]).value.wf() by {
        if i < a.len() {
            assert(all[i] == a[i]);
            assert(a[i].value.wf());
        } else {
            assert(all[i] == b[i - a.len()]);
            assert(b[i - a.len()].value.wf());
        }
    }
}

/// The summed pieces of a series of numbers are numbers.
pub proof fn lemma_summed_values(first: Seq<Piece>, second: Seq<Piece>)
    requires
        values_wf(first),
        values_wf(second),
        summed(first, second) is Some,
    ensures
        values_wf(summed(first, second)->Some_0),
    decreases first.len(),
{
    if first.len() > 0 {
        lemma_values_prefix(first);
        lemma_summed_values(first.drop_last(), second);
        let before = summed(first.drop_last(), second)->Some_0;
        let all = summed(first, second)->Some_0;
        if seen(second, first.last()) {
            lemma_summed_with_values(first.last(), second);
        }
        assert forall|i: int| 0 <= i < all.len() implies (#[trigger] all[i]).value.wf() by {
            if i < before.len() {
                assert(all[i] == before[i]);
                assert(before[i].value.wf());
            } else if seen(second, first.last()) {
                let more = summed_with(first.last(), second)->Some_0;
                assert(all[i] == more[i - before.len()]);
                assert(more[i - before.len()].value.wf());
            }
        }
    }
}

/// The pieces that only the second series has are numbers.
pub proof fn lemma_only_in_values(second: Seq<Piece>, first: Seq<Piece>)
    requires
        values_wf(second),
    ensures
        values_wf(only_in(second, first)),
    decreases second.len(),
{
    if second.len() > 0 {
        lemma_values_prefix(second);
        lemma_only_in_values(second.drop_last(), first);
        let before = only_in(second.drop_last(), first);
        let all = only_in(second, first);
        assert forall|i: int| 0 <= i < all.len() implies (#[trigger] all[i]).value.wf() by {
            if i < before.len() {
                assert(all[i] == before[i]);
                assert(before[i].value.wf());
            }
        }
    }
}

/// The parts of a series of numbers are numbers, and none is an empty stretch.
pub proof fn lemma_exploded_values(pieces: Seq<Piece>, w: int)
    requires
        w > 0,
        values_wf(pieces),
    ensures
        values_wf(exploded(pieces, w)),
        forall|i: int|
            0 <= i < exploded(pieces, w).len() ==> (#[trigger] exploded(pieces, w)[i]).start
                < exploded(pieces, w)[i].end,
    decreases pieces.len(),
{
    if pieces.len() > 0 {
        lemma_values_prefix(pieces);
        lemma_exploded_values(pieces.drop_last(), w);
        let p = pieces.last();
        let head = exploded(pieces.drop_last(), w);
        let tail = slices(p, w);
        let all = exploded(pieces, w);
        if p.start < p.end {
            lemma_slices_shape(p, p.start as int, w);
        }
        assert forall|i: int| 0 <= i < all.len() implies (#[trigger] all[i]).value.wf() && all[i].start
            < all[i].end by {
            if i < head.len() {
                assert(all[i] == head[i]);
                assert(head[i].value.wf());
            } else {
                assert(all[i] == tail[i - head.len()]);
            }
        }
    }
}

/// Every bin holds a number and at least one hour.
pub open spec fn bins_wf(bins: Seq<Bin>) -> bool {
    forall|i: int| 0 <= i < bins.len() ==> (#[trigger] bins[i]).piece.value.wf() && bins[i].hours >= 1
}

/// The bins of parts that are numbers hold numbers, and at least one hour each.
pub proof fn lemma_binned_values(parts: Seq<Piece>, w: int)
    requires
        values_wf(parts),
        forall|i: int| 0 <= i < parts.len() ==> (#[trigger] parts[i]).start < parts[i].end,
        binned(parts, w) is Some,
    ensures
        bins_wf(binned(parts, w)->Some_0),
    decreases parts.len(),
{
    if parts.len() > 0 {
        lemma_values_prefix(parts);
        let prev = parts.drop_last();
        assert forall|i: int| 0 <= i < prev.len() implies (#[trigger] prev[i]).start
            < prev[i].end by {
            assert(prev[i] == parts[i]);
        }
        lemma_binned_values(prev, w);
        let bins0 = binned(prev, w)->Some_0;
        let bins = binned(parts, w)->Some_0;
        let x = parts.last();
        assert(parts[parts.len() - 1].start < parts[parts.len() - 1].end);
        let at = window_index(bins0, x, w);
        lemma_window_index_first(bins0, x, w);
        let load = x.value.times(x.end - x.start)->Some_0;
        assert(load.wf());
        assert forall|i: int| 0 <= i < bins.len() implies (#[trigger] bins[i]).piece.value.wf()
            && bins[i].hours >= 1 by {
            if i < bins0.len() {
                assert(bins0[i].piece.value.wf() && bins0[i].hours >= 1);
                if i == at {
                    lemma_plus_wf(bins0[i].piece.value, load);
                }
            }
        }
    }
}

/// Resampling a series of numbers gives a series of numbers.
pub proof fn lemma_resampled_values(axis: Seq<Piece>, w: int, mode: Aggregation)
    requires
        w > 0,
        values_wf(axis),
        resampled(axis, w, mode) is Some,
    ensures
        values_wf(resampled(axis, w, mode)->Some_0),
{
    let parts = exploded(axis, w);
    lemma_exploded_values(axis, w);
    lemma_binned_values(parts, w);
    let bins = binned(parts, w)->Some_0;
    lemma_settled_each(bins, mode);
    let out = resampled(axis, w, mode)->Some_0;
    assert forall|i: int| 0 <= i < out.len() implies (#[trigger] out[i]).value.wf() by {
        assert(settled(bins[i], mode) == Some(out[i]));
        assert(bins[i].piece.value.wf() && bins[i].hours >= 1);
        let (d, h) = (bins[i].piece.value.den as int, bins[i].hours as int);
        assert(d * h >= 1) by (nonlinear_arith)
            requires
                d >= 1,
                h >= 1,
        ;
    }
}

} // verus!
