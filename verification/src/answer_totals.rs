//! Conservation under breakdown in the answer: what the segments of the buckets
//! hold at the start of a window is what the segments of their entities hold
//! there.
use crate::arrange::{arranged, lemma_arranged_of_ordered};
use crate::breakdown::broken_down;
use crate::compaction::compacted;
use crate::conservation::{
    additive, at, hours_of_window, in_window, lemma_hours_of_window_additive,
    lemma_hours_of_window_any_period, lemma_resampled_total, lemma_total_compacted, over_den,
    total,
};
use crate::coverage::{
    flattened, lemma_binned_tiled, lemma_exploded_flattened, lemma_exploded_tiled,
    lemma_resampled_tiled, lemma_settled_shape, lemma_shifted_tiled, pieces_in,
};
use crate::model::{pieces_of, CategoryNode, Membership, PeriodLength, PeriodMapping, TimeBlockRow};
use crate::numbers::lemma_resampled_values;
use crate::period_hours::lemma_local_reaches;
use crate::pipeline::{
    by_groups, computed, lemma_local_series_tiled, lemma_local_series_values,
    lemma_selected_values, local_series, Selection,
};
use crate::ratio::Ratio;
use crate::resample::{binned, exploded, lemma_next_multiple, resampled, same_window, Aggregation};
use crate::series::{flat, lemma_tiled_pieces, same_partition, same_place, tiled, Piece};
use crate::shares_total::lemma_whole;
use crate::timeline::on_global_axis;
use crate::weighting::placements;
use crate::window_totals::{
    falls_into, lemma_axis_total, lemma_over_den, lemma_total_same, lemma_windows_conserved,
    regular, window_sums,
};
use vstd::prelude::*;

verus! {

/// One for a stretch of the year `y` of a chosen group that holds the hour `h`,
/// zero for any other.
pub open spec fn at_hour(sel: spec_fn(u64) -> bool, y: u32, h: int) -> spec_fn(
    u64,
    u32,
    u64,
    int,
    int,
) -> int {
    |group: u64, year: u32, period: u64, start: int, end: int|
        if sel(group) && year == y && start <= h < end {
            1int
        } else {
            0int
        }
}

/// Every piece starts at the start of a window and ends in it.
pub open spec fn on_windows(s: Seq<Piece>, w: int) -> bool {
    forall|i: int|
        0 <= i < s.len() ==> ((#[trigger] s[i]).start as int / w) * w == s[i].start && s[i].start
            < s[i].end <= s[i].start + w
}

/// An hour whose window is not that of the hour before it starts a window.
pub proof fn lemma_window_start(e: int, w: int)
    requires
        w > 0,
        e >= 1,
        (e - 1) / w != e / w,
    ensures
        (e / w) * w == e,
{
    lemma_next_multiple(e, w);
    lemma_next_multiple(e - 1, w);
    let (a, b) = ((e - 1) / w, e / w);
    assert(a < b ==> (a + 1) * w <= b * w) by (nonlinear_arith)
        requires
            w > 0,
    ;
    assert(b < a ==> (b + 1) * w <= a * w) by (nonlinear_arith)
        requires
            w > 0,
    ;
}

/// The weight of the hour is additive.
pub proof fn lemma_at_hour_additive(sel: spec_fn(u64) -> bool, y: u32, h: int)
    ensures
        additive(at_hour(sel, y, h)),
{
    let wt = at_hour(sel, y, h);
    assert forall|g: u64, year: u32, p: u64, a: int, m: int, c: int| a <= m <= c implies wt(
        g,
        year,
        p,
        a,
        c,
    ) == #[trigger] wt(g, year, p, a, m) + #[trigger] wt(g, year, p, m, c) by {}
}

/// A series that covers each group and year from hour zero on is resampled to
/// pieces that start at the starts of their windows.
pub proof fn lemma_resampled_on_windows(axis: Seq<Piece>, w: int, mode: Aggregation)
    requires
        w > 0,
        flat(axis),
        tiled(axis),
        resampled(axis, w, mode) is Some,
    ensures
        on_windows(resampled(axis, w, mode)->Some_0, w),
{
    let parts = exploded(axis, w);
    let x = pieces_key();
    lemma_exploded_tiled(axis, w, x);
    lemma_binned_tiled(parts, w, x);
    let bins = binned(parts, w)->Some_0;
    let cells = pieces_in(bins);
    lemma_settled_shape(bins, mode);
    let out = resampled(axis, w, mode)->Some_0;
    assert forall|i: int| 0 <= i < out.len() implies ((#[trigger] out[i]).start as int / w) * w
        == out[i].start && out[i].start < out[i].end <= out[i].start + w by {
        let c = cells[i];
        assert(same_place(cells[i], out[i]));
        lemma_tiled_pieces(cells, i);
        assert(cells[i].start as int / w == (cells[i].end - 1) / w);
        let k = c.start as int / w;
        if i > 0 && same_partition(cells[i - 1], cells[i]) {
            let e = cells[i - 1].end as int;
            lemma_tiled_pieces(cells, i - 1);
            assert(cells[i - 1].start as int / w == (e - 1) / w);
            assert(!same_window(bins[i - 1].piece, bins[i].piece, w));
            lemma_window_start(e, w);
        } else {
            assert(0int / w == 0 && (0int / w) * w == 0) by (nonlinear_arith)
                requires
                    w > 0,
            ;
        }
        assert(k * w == c.start);
        lemma_next_multiple(c.end - 1, w);
        assert((k + 1) * w == k * w + w) by (nonlinear_arith);
    }
}

/// Pieces on their windows hold the start of a window where they lie in it.
pub proof fn lemma_window_is_hour(s: Seq<Piece>, w: int, sel: spec_fn(u64) -> bool, y: u32, b: int)
    requires
        w > 0,
        b >= 0,
        on_windows(s, w),
    ensures
        total(s, at_hour(sel, y, b * w)) == total(s, in_window(sel, y, b, w)),
{
    assert forall|i: int| 0 <= i < s.len() implies at(at_hour(sel, y, b * w), #[trigger] s[i])
        == at(in_window(sel, y, b, w), s[i]) by {
        let k = s[i].start as int / w;
        assert(k * w == s[i].start);
        assert(k < b ==> k * w + w <= b * w) by (nonlinear_arith)
            requires
                w > 0,
        ;
        assert(k > b ==> k * w > b * w) by (nonlinear_arith)
            requires
                w > 0,
        ;
    }
    lemma_total_same(s, at_hour(sel, y, b * w), in_window(sel, y, b, w));
}

/// The answer that the window sums give: in order and compacted.
pub open spec fn settled_sums(
    pieces: Seq<Piece>,
    mappings: Seq<PeriodMapping>,
    lengths: Seq<PeriodLength>,
    w: int,
) -> Seq<Piece> {
    compacted(arranged(window_sums(pieces, mappings, lengths, w)->Some_0))
}

/// What the answer holds at the start of a window is the sum of the window. Where
/// the rows are regular, the segments of the chosen groups that hold the first
/// hour of a window have, together, what those groups sum to on the window; and
/// all values stand over the resolution.
pub proof fn lemma_answer_total(
    pieces: Seq<Piece>,
    mappings: Seq<PeriodMapping>,
    lengths: Seq<PeriodLength>,
    r: int,
    w: int,
    sel: spec_fn(u64) -> bool,
    y: u32,
    b: int,
)
    requires
        w > 0,
        b >= 0,
        regular(pieces, mappings, lengths, r),
        window_sums(pieces, mappings, lengths, w) is Some,
    ensures
        total(settled_sums(pieces, mappings, lengths, w), at_hour(sel, y, b * w)) == total(
            window_sums(pieces, mappings, lengths, w)->Some_0,
            in_window(sel, y, b, w),
        ),
        over_den(window_sums(pieces, mappings, lengths, w)->Some_0, r),
        over_den(settled_sums(pieces, mappings, lengths, w), r),
{
    let places = placements(mappings, lengths);
    let local = local_series(pieces, mappings, lengths)->Some_0;
    let axis = on_global_axis(local, places)->Some_0;
    let sums = window_sums(pieces, mappings, lengths, w)->Some_0;
    let hour = at_hour(sel, y, b * w);
    lemma_local_series_tiled(pieces, mappings, lengths);
    lemma_local_reaches(compacted(arranged(pieces)), mappings, lengths);
    lemma_shifted_tiled(local, local.len() as int, places);
    lemma_exploded_flattened(axis, w);
    assert(resampled(axis, w, Aggregation::Sum) == resampled(
        flattened(axis),
        w,
        Aggregation::Sum,
    ));
    assert(flat(flattened(axis)));
    lemma_resampled_tiled(flattened(axis), w, Aggregation::Sum, pieces_key());
    lemma_resampled_on_windows(flattened(axis), w, Aggregation::Sum);
    lemma_arranged_of_ordered(sums);
    lemma_window_is_hour(sums, w, sel, y, b);
    lemma_whole(pieces);
    lemma_local_series_values(pieces, mappings, lengths);
    lemma_selected_values(local, Seq::empty(), Selection::ShortTerm, places);
    lemma_resampled_values(axis, w, Aggregation::Sum);
    lemma_hours_of_window_additive(sel, y, b, w);
    lemma_hours_of_window_any_period(sel, y, b, w);
    lemma_axis_total(pieces, mappings, lengths, r, hours_of_window(sel, y, b, w));
    lemma_resampled_total(axis, w, r, sel, y, b);
    lemma_at_hour_additive(sel, y, b * w);
    lemma_total_compacted(sums, hour);
    lemma_over_den(sums, r);
}

/// A piece that stands for no partition in particular.
pub open spec fn pieces_key() -> Piece {
    Piece { group: 0, year: 0, period: 0, start: 0, end: 0, value: Ratio { num: 0, den: 1 } }
}

/// Conservation under breakdown, for any choice of buckets. Let the rows of the
/// entities be regular, and the rows of their buckets too, and let the request be
/// for sums at windows of the series of the representative periods. Then at the
/// first hour of every window of every year, the segments of the chosen buckets
/// hold what the segments of the entities that fall into them hold: all values
/// stand over the resolution as their denominator, and the numerators of those
/// entities add up to those of the buckets.
pub proof fn lemma_buckets_conserved(
    rows: Seq<TimeBlockRow>,
    mappings: Seq<PeriodMapping>,
    lengths: Seq<PeriodLength>,
    memberships: Seq<Membership>,
    nodes: Seq<CategoryNode>,
    breakdown: Seq<i32>,
    second: Seq<Piece>,
    r: int,
    w: int,
    chosen: spec_fn(u64) -> bool,
    y: u32,
    b: int,
)
    requires
        w > 0,
        b >= 0,
        breakdown.len() > 0,
        regular(pieces_of(rows), mappings, lengths, r),
        by_groups(pieces_of(rows), memberships, nodes, breakdown) is Some,
        regular(
            by_groups(pieces_of(rows), memberships, nodes, breakdown)->Some_0,
            mappings,
            lengths,
            r,
        ),
        sums_by_entity(rows, mappings, lengths, memberships, nodes, second, w) is Some,
        sums_by_bucket(rows, mappings, lengths, memberships, nodes, breakdown, second, w) is Some,
    ensures
        total(
            sums_by_bucket(
                rows,
                mappings,
                lengths,
                memberships,
                nodes,
                breakdown,
                second,
                w,
            )->Some_0,
            at_hour(chosen, y, b * w),
        ) == total(
            sums_by_entity(rows, mappings, lengths, memberships, nodes, second, w)->Some_0,
            at_hour(falls_into(memberships, nodes, breakdown, chosen), y, b * w),
        ),
        over_den(
            sums_by_bucket(
                rows,
                mappings,
                lengths,
                memberships,
                nodes,
                breakdown,
                second,
                w,
            )->Some_0,
            r,
        ),
        over_den(
            sums_by_entity(rows, mappings, lengths, memberships, nodes, second, w)->Some_0,
            r,
        ),
{
    let pieces = pieces_of(rows);
    let grouped = broken_down(pieces, memberships, nodes, breakdown)->Some_0;
    let own = falls_into(memberships, nodes, breakdown, chosen);
    assert(by_groups(pieces, memberships, nodes, Seq::empty()) == Some(pieces));
    lemma_answer_total(pieces, mappings, lengths, r, w, own, y, b);
    lemma_answer_total(grouped, mappings, lengths, r, w, chosen, y, b);
    lemma_windows_conserved(
        pieces,
        mappings,
        lengths,
        memberships,
        nodes,
        breakdown,
        r,
        w,
        chosen,
        y,
        b,
    );
}

/// The answer to a request for sums of the series of the representative periods,
/// entity by entity.
pub open spec fn sums_by_entity(
    rows: Seq<TimeBlockRow>,
    mappings: Seq<PeriodMapping>,
    lengths: Seq<PeriodLength>,
    memberships: Seq<Membership>,
    nodes: Seq<CategoryNode>,
    second: Seq<Piece>,
    w: int,
) -> Option<Seq<Piece>> {
    computed(
        rows,
        mappings,
        lengths,
        memberships,
        nodes,
        Seq::empty(),
        second,
        Selection::ShortTerm,
        w,
        Aggregation::Sum,
    )
}

/// The answer to a request for sums of the series of the representative periods,
/// bucket by bucket.
pub open spec fn sums_by_bucket(
    rows: Seq<TimeBlockRow>,
    mappings: Seq<PeriodMapping>,
    lengths: Seq<PeriodLength>,
    memberships: Seq<Membership>,
    nodes: Seq<CategoryNode>,
    breakdown: Seq<i32>,
    second: Seq<Piece>,
    w: int,
) -> Option<Seq<Piece>> {
    computed(
        rows,
        mappings,
        lengths,
        memberships,
        nodes,
        breakdown,
        second,
        Selection::ShortTerm,
        w,
        Aggregation::Sum,
    )
}

/// Every group.
pub open spec fn every_group() -> spec_fn(u64) -> bool {
    |g: u64| true
}

/// The group is the bucket `bucket`.
pub open spec fn is_bucket(bucket: u64) -> spec_fn(u64) -> bool {
    |g: u64| g == bucket
}

/// Conservation under breakdown. Let the rows of the entities be regular, and the
/// rows of their buckets too, and let the request be for sums at windows of the
/// series of the representative periods. Then at the first hour of every window
/// of every year, the segments of all buckets together, the bucket of the others
/// included, hold what the segments of all entities hold together: all values
/// stand over the resolution as their denominator, and the numerators of the
/// entities add up to those of the buckets.
pub proof fn lemma_breakdown_conserved(
    rows: Seq<TimeBlockRow>,
    mappings: Seq<PeriodMapping>,
    lengths: Seq<PeriodLength>,
    memberships: Seq<Membership>,
    nodes: Seq<CategoryNode>,
    breakdown: Seq<i32>,
    second: Seq<Piece>,
    r: int,
    w: int,
    y: u32,
    b: int,
)
    requires
        w > 0,
        b >= 0,
        breakdown.len() > 0,
        regular(pieces_of(rows), mappings, lengths, r),
        by_groups(pieces_of(rows), memberships, nodes, breakdown) is Some,
        regular(
            by_groups(pieces_of(rows), memberships, nodes, breakdown)->Some_0,
            mappings,
            lengths,
            r,
        ),
        sums_by_entity(rows, mappings, lengths, memberships, nodes, second, w) is Some,
        sums_by_bucket(rows, mappings, lengths, memberships, nodes, breakdown, second, w) is Some,
    ensures
        total(
            sums_by_bucket(
                rows,
                mappings,
                lengths,
                memberships,
                nodes,
                breakdown,
                second,
                w,
            )->Some_0,
            at_hour(every_group(), y, b * w),
        ) == total(
            sums_by_entity(rows, mappings, lengths, memberships, nodes, second, w)->Some_0,
            at_hour(every_group(), y, b * w),
        ),
        over_den(
            sums_by_bucket(
                rows,
                mappings,
                lengths,
                memberships,
                nodes,
                breakdown,
                second,
                w,
            )->Some_0,
            r,
        ),
        over_den(
            sums_by_entity(rows, mappings, lengths, memberships, nodes, second, w)->Some_0,
            r,
        ),
{
    let entities = sums_by_entity(rows, mappings, lengths, memberships, nodes, second, w)->Some_0;
    let all = falls_into(memberships, nodes, breakdown, every_group());
    lemma_buckets_conserved(
        rows,
        mappings,
        lengths,
        memberships,
        nodes,
        breakdown,
        second,
        r,
        w,
        every_group(),
        y,
        b,
    );
    assert forall|i: int| 0 <= i < entities.len() implies at(
        at_hour(all, y, b * w),
        #[trigger] entities[i],
    ) == at(at_hour(every_group(), y, b * w), entities[i]) by {}
    lemma_total_same(entities, at_hour(all, y, b * w), at_hour(every_group(), y, b * w));
}

/// Conservation under breakdown, bucket by bucket: under the same conditions the
/// segments of each bucket hold, at the first hour of every window, what the
/// segments of the entities of that bucket hold together.
pub proof fn lemma_bucket_conserved(
    rows: Seq<TimeBlockRow>,
    mappings: Seq<PeriodMapping>,
    lengths: Seq<PeriodLength>,
    memberships: Seq<Membership>,
    nodes: Seq<CategoryNode>,
    breakdown: Seq<i32>,
    second: Seq<Piece>,
    r: int,
    w: int,
    bucket: u64,
    y: u32,
    b: int,
)
    requires
        w > 0,
        b >= 0,
        breakdown.len() > 0,
        regular(pieces_of(rows), mappings, lengths, r),
        by_groups(pieces_of(rows), memberships, nodes, breakdown) is Some,
        regular(
            by_groups(pieces_of(rows), memberships, nodes, breakdown)->Some_0,
            mappings,
            lengths,
            r,
        ),
        sums_by_entity(rows, mappings, lengths, memberships, nodes, second, w) is Some,
        sums_by_bucket(rows, mappings, lengths, memberships, nodes, breakdown, second, w) is Some,
    ensures
        total(
            sums_by_bucket(
                rows,
                mappings,
                lengths,
                memberships,
                nodes,
                breakdown,
                second,
                w,
            )->Some_0,
            at_hour(is_bucket(bucket), y, b * w),
        ) == total(
            sums_by_entity(rows, mappings, lengths, memberships, nodes, second, w)->Some_0,
            at_hour(falls_into(memberships, nodes, breakdown, is_bucket(bucket)), y, b * w),
        ),
{
    lemma_buckets_conserved(
        rows,
        mappings,
        lengths,
        memberships,
        nodes,
        breakdown,
        second,
        r,
        w,
        is_bucket(bucket),
        y,
        b,
    );
}

} // verus!
