//! Conservation under breakdown, from the rows to the windows: what the buckets
//! hold on a window is what their entities hold on it.
use crate::arrange::{arranged, lemma_arranged_of_ordered, lemma_arranged_same_pieces};
use crate::axis_offsets::{
    end_to_end, hours_before, lemma_offsets, lemma_periods_series_ordered, periods_series,
};
use crate::breakdown::{broken_down, bucket_of, classified, whole_values};
use crate::compaction::compacted;
use crate::conservation::{
    additive, any_period, at, dens_agree, hours_of_window, in_window,
    lemma_hours_of_window_additive, lemma_hours_of_window_any_period, lemma_moved_additive,
    lemma_resampled_total, lemma_total_classified, lemma_total_gathered, lemma_total_shifted,
    moved_weight, over_den, regrouped, total,
};
use crate::gather::gathered;
use crate::intervals::intervals;
use crate::local_coverage::{filled, lemma_share_facts, lemma_share_origin};
use crate::model::{CategoryNode, Membership, PeriodLength, PeriodMapping};
use crate::pipeline::local_series;
use crate::resample::{resampled, Aggregation};
use crate::series::{same_place, Piece};
use crate::shares_total::{block_weight, lemma_local_total, lemma_whole, places_sum};
use crate::timeline::{offset_at, on_global_axis, shifted};
use crate::weighting::{placed, placements, shares, weighted, Placed, Placement};
use vstd::prelude::*;

verus! {

/// The hour of the global axis at which each period starts.
pub open spec fn starts(places: Seq<Placement>) -> spec_fn(u32, u64) -> int {
    |y: u32, p: u64| hours_before(places, y, p)
}

/// All representative periods have the resolution `r`.
pub open spec fn one_resolution(places: Seq<Placement>, r: int) -> bool {
    forall|i: int| 0 <= i < places.len() ==> (#[trigger] places[i]).resolution_hours == r
}

/// Rows that the periods can be laid end to end for: whole values on blocks that
/// fill their representative periods, every group in every period of its years,
/// and one resolution.
pub open spec fn regular(
    pieces: Seq<Piece>,
    mappings: Seq<PeriodMapping>,
    lengths: Seq<PeriodLength>,
    r: int,
) -> bool {
    &&& whole_values(pieces)
    &&& filled(arranged(pieces))
    &&& end_to_end(compacted(arranged(pieces)), mappings, lengths)
    &&& one_resolution(placements(mappings, lengths), r)
}

/// Arranging and compacting keep a common denominator.
pub proof fn lemma_over_den(s: Seq<Piece>, d: int)
    requires
        over_den(s, d),
    ensures
        over_den(arranged(s), d),
        over_den(compacted(s), d),
    decreases s.len(),
{
    lemma_arranged_same_pieces(s);
    let a = arranged(s);
    assert forall|i: int| 0 <= i < a.len() implies (#[trigger] a[i]).value.den == d by {
        assert(s.contains(a[i]));
        let k = choose|k: int| 0 <= k < s.len() && s[k] == a[i];
        assert(s[k].value.den == d);
    }
    if s.len() > 0 {
        let prev = s.drop_last();
        assert(over_den(prev, d)) by {
            assert forall|i: int| 0 <= i < prev.len() implies (#[trigger] prev[i]).value.den
                == d by {
                assert(prev[i] == s[i]);
            }
        }
        lemma_over_den(prev, d);
        let b = compacted(prev);
        let c = compacted(s);
        assert forall|i: int| 0 <= i < c.len() implies (#[trigger] c[i]).value.den == d by {
            if i < b.len() {
                assert(c[i].value == b[i].value);
                assert(b[i].value.den == d);
            } else {
                assert(s[s.len() - 1].value.den == d);
            }
        }
    }
}

/// Moving the pieces to the global axis keeps a common denominator.
pub proof fn lemma_shifted_den(s: Seq<Piece>, n: int, d: int, places: Seq<Placement>)
    requires
        over_den(s, d),
        0 <= n <= s.len(),
        shifted(s, n, places) is Some,
    ensures
        over_den(shifted(s, n, places)->Some_0, d),
        shifted(s, n, places)->Some_0.len() == n,
    decreases n,
{
    if n > 0 {
        lemma_shifted_den(s, n - 1, d, places);
        let before = shifted(s, n - 1, places)->Some_0;
        let all = shifted(s, n, places)->Some_0;
        assert forall|i: int| 0 <= i < all.len() implies (#[trigger] all[i]).value.den == d by {
            if i < n - 1 {
                assert(all[i] == before[i]);
            } else {
                assert(all[i].value == s[n - 1].value);
            }
        }
    }
}

/// Under one resolution the shares of whole blocks stand over it.
pub proof fn lemma_shares_den(
    blocks: Seq<Piece>,
    mappings: Seq<PeriodMapping>,
    lengths: Seq<PeriodLength>,
    r: int,
)
    requires
        whole_values(blocks),
        one_resolution(placements(mappings, lengths), r),
        shares(
            placed(blocks, placements(mappings, lengths)),
            intervals(blocks, mappings),
        ) is Some,
    ensures
        over_den(
            shares(
                placed(blocks, placements(mappings, lengths)),
                intervals(blocks, mappings),
            )->Some_0,
            r,
        ),
{
    let places = placements(mappings, lengths);
    let cuts = intervals(blocks, mappings);
    let all = shares(placed(blocks, places), cuts)->Some_0;
    assert forall|i: int| 0 <= i < all.len() implies (#[trigger] all[i]).value.den == r by {
        let (bi, pl, ci) = lemma_share_origin(blocks, mappings, lengths, i);
        lemma_share_facts(Placed { block: blocks[bi], placement: pl }, cuts[ci]);
        assert(blocks[bi].value.den == 1);
        let k = choose|k: int| 0 <= k < places.len() && places[k] == pl;
        assert(places[k].resolution_hours == r);
        assert(all[i].value.den == 1 * pl.resolution_hours);
    }
}

/// Gathering keeps a common denominator.
pub proof fn lemma_gathered_den(pieces: Seq<Piece>, d: int)
    requires
        over_den(pieces, d),
        gathered(pieces) is Some,
    ensures
        over_den(gathered(pieces)->Some_0, d),
{
    let cells = gathered(pieces)->Some_0;
    assert(dens_agree(pieces));
    lemma_total_gathered(pieces, hours_of_window(|g: u64| true, 0, 0, 1));
    assert forall|i: int| 0 <= i < cells.len() implies (#[trigger] cells[i]).value.den == d by {
        let a = choose|a: int|
            0 <= a < pieces.len() && same_place(#[trigger] cells[i], #[trigger] pieces[a])
                && cells[i].value.den == pieces[a].value.den;
        assert(pieces[a].value.den == d);
    }
}

/// Under one resolution the series of the periods stands over it.
pub proof fn lemma_periods_series_den(
    blocks: Seq<Piece>,
    mappings: Seq<PeriodMapping>,
    lengths: Seq<PeriodLength>,
    r: int,
)
    requires
        whole_values(blocks),
        one_resolution(placements(mappings, lengths), r),
        weighted(blocks, mappings, lengths, intervals(blocks, mappings)) is Some,
    ensures
        over_den(periods_series(blocks, mappings, lengths), r),
{
    let all = shares(
        placed(blocks, placements(mappings, lengths)),
        intervals(blocks, mappings),
    )->Some_0;
    lemma_shares_den(blocks, mappings, lengths, r);
    lemma_gathered_den(all, r);
    lemma_over_den(gathered(all)->Some_0, r);
    lemma_over_den(arranged(gathered(all)->Some_0), r);
}

/// The total on the global axis. Where the rows are regular, the series on the
/// global axis has, under every additive weight that does not look at the period,
/// the total of the rows under the weight that the placements give to the
/// stretches moved to the starts of their periods.
pub proof fn lemma_axis_total(
    pieces: Seq<Piece>,
    mappings: Seq<PeriodMapping>,
    lengths: Seq<PeriodLength>,
    r: int,
    wt: spec_fn(u64, u32, u64, int, int) -> int,
)
    requires
        regular(pieces, mappings, lengths, r),
        additive(wt),
        any_period(wt),
        on_global_axis(periods_series(compacted(arranged(pieces)), mappings, lengths), placements(mappings, lengths)) is Some,
    ensures
        total(
            on_global_axis(periods_series(compacted(arranged(pieces)), mappings, lengths), placements(mappings, lengths))->Some_0,
            wt,
        ) == total(
            pieces,
            block_weight(
                placements(mappings, lengths),
                moved_weight(wt, starts(placements(mappings, lengths))),
            ),
        ),
        over_den(
            on_global_axis(periods_series(compacted(arranged(pieces)), mappings, lengths), placements(mappings, lengths))->Some_0,
            r,
        ),
{
    let places = placements(mappings, lengths);
    let blocks = compacted(arranged(pieces));
    let local = periods_series(blocks, mappings, lengths);
    let off = starts(places);
    lemma_periods_series_ordered(blocks, mappings, lengths);
    lemma_arranged_of_ordered(local);
    assert forall|i: int| 0 <= i < local.len() implies offset_at_is(local, i, off, places) by {
        lemma_offsets(blocks, mappings, lengths, i);
    }
    assert forall|i: int| 0 <= i < local.len() implies offset_at(local, i, places) == off(
        (#[trigger] local[i]).year,
        local[i].period,
    ) by {
        assert(offset_at_is(local, i, off, places));
    }
    lemma_total_shifted(local, local.len() as int, wt, off, places);
    assert(local.take(local.len() as int) =~= local);
    lemma_moved_additive(wt, off);
    lemma_local_total(pieces, mappings, lengths, moved_weight(wt, off));
    lemma_whole(pieces);
    lemma_whole(arranged(pieces));
    lemma_periods_series_den(blocks, mappings, lengths, r);
    lemma_shifted_den(local, local.len() as int, r, places);
}

/// The period of the piece at `i` starts at the hour that `off` gives.
pub open spec fn offset_at_is(s: Seq<Piece>, i: int, off: spec_fn(u32, u64) -> int, places: Seq<Placement>) -> bool {
    offset_at(s, i, places) == off(s[i].year, s[i].period)
}

/// The sums on the windows of width `w` of the series that the rows give: per
/// group, year and window the sum of the values, each times its hours.
pub open spec fn window_sums(
    pieces: Seq<Piece>,
    mappings: Seq<PeriodMapping>,
    lengths: Seq<PeriodLength>,
    w: int,
) -> Option<Seq<Piece>> {
    match local_series(pieces, mappings, lengths) {
        None => None,
        Some(local) => match on_global_axis(local, placements(mappings, lengths)) {
            None => None,
            Some(axis) => resampled(axis, w, Aggregation::Sum),
        },
    }
}

/// The entity falls into one of the chosen buckets.
pub open spec fn falls_into(
    memberships: Seq<Membership>,
    nodes: Seq<CategoryNode>,
    breakdown: Seq<i32>,
    chosen: spec_fn(u64) -> bool,
) -> spec_fn(u64) -> bool {
    |g: u64| chosen(bucket_of(memberships, nodes, g, breakdown) as u64)
}

/// Weights that agree on every piece give the same total.
pub proof fn lemma_total_same(
    s: Seq<Piece>,
    wa: spec_fn(u64, u32, u64, int, int) -> int,
    wb: spec_fn(u64, u32, u64, int, int) -> int,
)
    requires
        forall|i: int| 0 <= i < s.len() ==> at(wa, #[trigger] s[i]) == at(wb, s[i]),
    ensures
        total(s, wa) == total(s, wb),
    decreases s.len(),
{
    if s.len() > 0 {
        let prev = s.drop_last();
        assert forall|i: int| 0 <= i < prev.len() implies at(wa, #[trigger] prev[i]) == at(
            wb,
            prev[i],
        ) by {
            assert(prev[i] == s[i]);
        }
        lemma_total_same(prev, wa, wb);
        assert(at(wa, s[s.len() - 1]) == at(wb, s[s.len() - 1]));
    }
}

/// The placements give the same weight to two groups that have the same weight on
/// every stretch.
pub proof fn lemma_places_sum_same(
    places: Seq<Placement>,
    wa: spec_fn(u64, u32, u64, int, int) -> int,
    ga: u64,
    wb: spec_fn(u64, u32, u64, int, int) -> int,
    gb: u64,
    y: u32,
    rep: u64,
    start: int,
    end: int,
)
    requires
        forall|p: u64, a: int, b: int| #[trigger] wa(ga, y, p, a, b) == wb(gb, y, p, a, b),
    ensures
        places_sum(places, wa, ga, y, rep, start, end) == places_sum(
            places,
            wb,
            gb,
            y,
            rep,
            start,
            end,
        ),
    decreases places.len(),
{
    if places.len() > 0 {
        lemma_places_sum_same(places.drop_last(), wa, ga, wb, gb, y, rep, start, end);
        let pl = places.last();
        assert(wa(
            ga,
            y,
            pl.period as u64,
            (start - 1) * pl.resolution_hours,
            end * pl.resolution_hours,
        ) == wb(
            gb,
            y,
            pl.period as u64,
            (start - 1) * pl.resolution_hours,
            end * pl.resolution_hours,
        ));
    }
}

/// Conservation under breakdown, window by window. Let the rows of the entities be
/// regular, and the rows of their buckets too. Then on every window of every year
/// the sums of any chosen buckets are, together, the sums of the entities that
/// fall into them: both series stand over the resolution as their denominator,
/// and the numerators of those entities add up to those of the buckets.
pub proof fn lemma_windows_conserved(
    pieces: Seq<Piece>,
    mappings: Seq<PeriodMapping>,
    lengths: Seq<PeriodLength>,
    memberships: Seq<Membership>,
    nodes: Seq<CategoryNode>,
    breakdown: Seq<i32>,
    r: int,
    w: int,
    chosen: spec_fn(u64) -> bool,
    y: u32,
    b: int,
)
    requires
        w > 0,
        b >= 0,
        regular(pieces, mappings, lengths, r),
        broken_down(pieces, memberships, nodes, breakdown) is Some,
        regular(broken_down(pieces, memberships, nodes, breakdown)->Some_0, mappings, lengths, r),
        window_sums(pieces, mappings, lengths, w) is Some,
        window_sums(
            broken_down(pieces, memberships, nodes, breakdown)->Some_0,
            mappings,
            lengths,
            w,
        ) is Some,
    ensures
        total(
            window_sums(
                broken_down(pieces, memberships, nodes, breakdown)->Some_0,
                mappings,
                lengths,
                w,
            )->Some_0,
            in_window(chosen, y, b, w),
        ) == total(
            window_sums(pieces, mappings, lengths, w)->Some_0,
            in_window(falls_into(memberships, nodes, breakdown, chosen), y, b, w),
        ),
        over_den(window_sums(pieces, mappings, lengths, w)->Some_0, r),
        over_den(
            window_sums(
                broken_down(pieces, memberships, nodes, breakdown)->Some_0,
                mappings,
                lengths,
                w,
            )->Some_0,
            r,
        ),
{
    let places = placements(mappings, lengths);
    let named = classified(pieces, memberships, nodes, breakdown);
    let grouped = broken_down(pieces, memberships, nodes, breakdown)->Some_0;
    let own = falls_into(memberships, nodes, breakdown, chosen);
    let one = chosen;
    let hours_own = hours_of_window(own, y, b, w);
    let hours_one = hours_of_window(one, y, b, w);
    let at_own = block_weight(places, moved_weight(hours_own, starts(places)));
    let at_one = block_weight(places, moved_weight(hours_one, starts(places)));
    let axis_own = on_global_axis(local_series(pieces, mappings, lengths)->Some_0, placements(mappings, lengths))->Some_0;
    let axis_one = on_global_axis(local_series(grouped, mappings, lengths)->Some_0, placements(mappings, lengths))->Some_0;
    lemma_hours_of_window_additive(own, y, b, w);
    lemma_hours_of_window_additive(one, y, b, w);
    lemma_hours_of_window_any_period(own, y, b, w);
    lemma_hours_of_window_any_period(one, y, b, w);
    lemma_axis_total(pieces, mappings, lengths, r, hours_own);
    lemma_axis_total(grouped, mappings, lengths, r, hours_one);
    lemma_resampled_total(axis_own, w, r, own, y, b);
    lemma_resampled_total(axis_one, w, r, one, y, b);
    assert(dens_agree(named)) by {
        assert forall|i: int, j: int| 0 <= i < named.len() && 0 <= j < named.len() implies named[i].value.den
            == named[j].value.den by {
            assert(pieces[i].value.den == 1 && pieces[j].value.den == 1);
        }
    }
    lemma_total_gathered(named, at_one);
    lemma_total_classified(pieces, memberships, nodes, breakdown, at_one);
    let renamed = regrouped(at_one, memberships, nodes, breakdown);
    assert forall|i: int| 0 <= i < pieces.len() implies at(renamed, #[trigger] pieces[i]) == at(
        at_own,
        pieces[i],
    ) by {
        let x = pieces[i];
        lemma_places_sum_same(
            places,
            moved_weight(hours_one, starts(places)),
            bucket_of(memberships, nodes, x.group, breakdown) as u64,
            moved_weight(hours_own, starts(places)),
            x.group,
            x.year,
            x.period,
            x.start as int,
            x.end as int,
        );
    }
    lemma_total_same(pieces, renamed, at_own);
}

} // verus!
