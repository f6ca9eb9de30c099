//! The total of the weighted series: under any additive weight it is the total of
//! the blocks under the weight that the placements of the blocks give.
use crate::arrange::{arranged, lemma_arranged_same_pieces};
use crate::breakdown::whole_values;
use crate::compaction::compacted;
use crate::conservation::{
    additive, at, dens_agree, dens_from, ends_by, lemma_below_tiled, lemma_reach,
    lemma_total_append, lemma_total_arranged, lemma_total_compacted, lemma_total_gathered,
    lemma_within, reach, total, within,
};
use crate::gather::gathered;
use crate::intervals::intervals;
use crate::local_coverage::{
    coverable, filled, lemma_block_end_is_boundary, lemma_block_start_is_boundary,
    lemma_compacted_filled, lemma_compacted_lowered, lemma_cut_ending, lemma_cut_facts,
    lemma_intervals_tiled, lemma_listed_placement, lemma_not_inside, lemma_resolution,
    lemma_share_facts, lemma_share_origin, lemma_weighted_tiled, lowered, resolutions_agree,
};
use crate::model::{PeriodLength, PeriodMapping};
use crate::numbers::{lemma_arranged_values, lemma_gathered_values, lemma_shares_values};
use crate::ratio::Ratio;
use crate::series::{same_partition, same_place, values_wf, Piece};
use crate::weighting::{
    holds, is_placed, lemma_placed, lemma_shares_some_prefix, placed, placed_in, placed_of,
    placements, share, shares, shares_of, weighted, Placed, Placement,
};
use vstd::prelude::*;

verus! {

/// The weight of a stretch of timesteps of a period for the group `group`: that
/// of its hours, the timesteps being of the resolution of the placement.
pub open spec fn scaled_weight(
    wt: spec_fn(u64, u32, u64, int, int) -> int,
    group: u64,
    pl: Placement,
) -> spec_fn(u64, u32, u64, int, int) -> int {
    |g: u64, y: u32, p: u64, a: int, b: int|
        wt(group, y, pl.period as u64, a * pl.resolution_hours, b * pl.resolution_hours)
}

/// The partition of the intervals of the period of a placement.
pub open spec fn cut_key(pl: Placement) -> Piece {
    Piece {
        group: 0,
        year: pl.year,
        period: pl.period as u64,
        start: 0,
        end: 0,
        value: Ratio { num: 0, den: 1 },
    }
}

/// What a placed block adds to the total: its value times the weight of the
/// period, times the weight of the hours of the block in the period.
pub open spec fn pair_total(p: Placed, wt: spec_fn(u64, u32, u64, int, int) -> int) -> int {
    p.block.value.num * (p.placement.weight * wt(
        p.block.group,
        p.block.year,
        p.placement.period as u64,
        (p.block.start - 1) * p.placement.resolution_hours,
        p.block.end * p.placement.resolution_hours,
    ))
}

/// The weight of the hours of scaled stretches is additive.
pub proof fn lemma_scaled_additive(
    wt: spec_fn(u64, u32, u64, int, int) -> int,
    group: u64,
    pl: Placement,
)
    requires
        additive(wt),
    ensures
        additive(scaled_weight(wt, group, pl)),
{
    let sw = scaled_weight(wt, group, pl);
    let r = pl.resolution_hours as int;
    assert forall|g: u64, y: u32, p: u64, a: int, b: int, c: int| a <= b <= c implies sw(
        g,
        y,
        p,
        a,
        c,
    ) == #[trigger] sw(g, y, p, a, b) + #[trigger] sw(g, y, p, b, c) by {
        assert(a * r <= b * r <= c * r) by (nonlinear_arith)
            requires
                a <= b <= c,
                r >= 0,
        ;
        assert(wt(group, y, pl.period as u64, a * r, c * r) == wt(
            group,
            y,
            pl.period as u64,
            a * r,
            b * r,
        ) + wt(
            group,
            y,
            pl.period as u64,
            b * r,
            c * r,
        ));
    }
}

/// The shares of a placed block have the total of the intervals that the block
/// holds, times the value of the block and the weight of the period.
pub proof fn lemma_shares_of_total(
    p: Placed,
    cuts: Seq<Piece>,
    wt: spec_fn(u64, u32, u64, int, int) -> int,
)
    requires
        placed_in(p.block, p.placement),
        shares_of(p, cuts) is Some,
        forall|k: int| 0 <= k < cuts.len() ==> (#[trigger] cuts[k]).group == 0,
    ensures
        total(shares_of(p, cuts)->Some_0, wt) == (p.block.value.num * p.placement.weight) * within(
            cuts,
            cut_key(p.placement),
            p.block.start - 1,
            p.block.end as int,
            scaled_weight(wt, p.block.group, p.placement),
        ),
    decreases cuts.len(),
{
    let sw = scaled_weight(wt, p.block.group, p.placement);
    let key = cut_key(p.placement);
    let n = p.block.value.num * p.placement.weight;
    let (s, e) = (p.block.start - 1, p.block.end as int);
    if cuts.len() > 0 {
        let prev = cuts.drop_last();
        let c = cuts.last();
        assert forall|k: int| 0 <= k < prev.len() implies (#[trigger] prev[k]).group == 0 by {
            assert(prev[k] == cuts[k]);
        }
        lemma_shares_of_total(p, prev, wt);
        assert(cuts[cuts.len() - 1].group == 0);
        assert(holds(p, c) <==> same_partition(c, key) && s <= c.start && c.end <= e);
        let before = shares_of(p, prev)->Some_0;
        let all = shares_of(p, cuts)->Some_0;
        let t = within(prev, key, s, e, sw);
        if holds(p, c) {
            let x = share(p, c)->Some_0;
            assert(all == before.push(x));
            assert(all.drop_last() =~= before);
            assert(at(wt, x) == at(sw, c));
            assert(x.value.num == n);
            let u = at(sw, c);
            assert(within(cuts, key, s, e, sw) == t + u);
            assert(n * t + n * u == n * (t + u)) by (nonlinear_arith);
        } else {
            assert(all == before);
            assert(within(cuts, key, s, e, sw) == t);
        }
    } else {
        assert(n * 0 == 0);
    }
}

/// The intervals that a block holds in a period have together the weight of the
/// timesteps of the block.
pub proof fn lemma_held_weight(
    blocks: Seq<Piece>,
    mappings: Seq<PeriodMapping>,
    lengths: Seq<PeriodLength>,
    bi: int,
    pl: Placement,
    wc: spec_fn(u64, u32, u64, int, int) -> int,
)
    requires
        coverable(blocks, mappings, lengths),
        0 <= bi < blocks.len(),
        placements(mappings, lengths).contains(pl),
        placed_in(blocks[bi], pl),
        additive(wc),
    ensures
        within(
            intervals(blocks, mappings),
            cut_key(pl),
            blocks[bi].start - 1,
            blocks[bi].end as int,
            wc,
        ) == wc(0, pl.year, pl.period as u64, blocks[bi].start - 1, blocks[bi].end as int),
{
    let cuts = intervals(blocks, mappings);
    let key = cut_key(pl);
    let b = blocks[bi];
    let (s, e) = (b.start - 1, b.end as int);
    lemma_intervals_tiled(blocks, mappings);
    lemma_listed_placement(mappings, lengths, pl);
    lemma_block_start_is_boundary(blocks, mappings, lengths, bi, pl, key);
    lemma_block_end_is_boundary(blocks, mappings, lengths, bi, pl, key, e);
    assert forall|k: int| 0 <= k < cuts.len() && same_partition(
        #[trigger] cuts[k],
        key,
    ) implies cuts[k].start < cuts[k].end && (cuts[k].end <= s || cuts[k].start >= s) by {
        lemma_cut_facts(blocks, mappings, k);
        lemma_not_inside(blocks, mappings, cuts[k], key, s);
    }
    lemma_within(cuts, key, s, e, wc);
    lemma_below_tiled(cuts, key, e, wc);
    lemma_below_tiled(cuts, key, s, wc);
    lemma_reach(cuts, key, e);
    lemma_reach(cuts, key, s);
    let ke = lemma_cut_ending(blocks, mappings, key, e);
    lemma_cut_facts(blocks, mappings, ke);
    assert(ends_by(cuts[ke], key, e));
    if s > 0 {
        let ks = lemma_cut_ending(blocks, mappings, key, s);
        lemma_cut_facts(blocks, mappings, ks);
        assert(ends_by(cuts[ks], key, s));
    }
    assert(reach(cuts, key, e) == e);
    assert(reach(cuts, key, s) == s);
    assert(wc(key.group, key.year, key.period, 0, e) == wc(
        key.group,
        key.year,
        key.period,
        0,
        s,
    ) + wc(
        key.group,
        key.year,
        key.period,
        s,
        e,
    ));
}

/// What the placed blocks add to the total, pair after pair.
pub open spec fn pairs_sum(pairs: Seq<Placed>, wt: spec_fn(u64, u32, u64, int, int) -> int) -> int
    decreases pairs.len(),
{
    if pairs.len() == 0 {
        0
    } else {
        pairs_sum(pairs.drop_last(), wt) + pair_total(pairs.last(), wt)
    }
}

/// The weight that the placements give to the timesteps `start..=end` of a
/// representative period: for each period that stands for it, the weight of the
/// period times the weight of the hours of those timesteps in the period.
pub open spec fn places_sum(
    places: Seq<Placement>,
    wt: spec_fn(u64, u32, u64, int, int) -> int,
    g: u64,
    y: u32,
    rep: u64,
    start: int,
    end: int,
) -> int
    decreases places.len(),
{
    if places.len() == 0 {
        0
    } else {
        let pl = places.last();
        places_sum(places.drop_last(), wt, g, y, rep, start, end) + if pl.year == y
            && pl.rep_period == rep {
            pl.weight * wt(
                g,
                y,
                pl.period as u64,
                (start - 1) * pl.resolution_hours,
                end * pl.resolution_hours,
            )
        } else {
            0
        }
    }
}

/// The weight of a block of timesteps under the placements.
pub open spec fn block_weight(
    places: Seq<Placement>,
    wt: spec_fn(u64, u32, u64, int, int) -> int,
) -> spec_fn(u64, u32, u64, int, int) -> int {
    |g: u64, y: u32, rep: u64, start: int, end: int|
        places_sum(places, wt, g, y, rep, start, end)
}

/// The sum over two lists of pairs in a row is the sum of their sums.
pub proof fn lemma_pairs_sum_append(
    a: Seq<Placed>,
    b: Seq<Placed>,
    wt: spec_fn(u64, u32, u64, int, int) -> int,
)
    ensures
        pairs_sum(a + b, wt) == pairs_sum(a, wt) + pairs_sum(b, wt),
    decreases b.len(),
{
    if b.len() == 0 {
        assert(a + b =~= a);
    } else {
        lemma_pairs_sum_append(a, b.drop_last(), wt);
        assert((a + b).drop_last() =~= a + b.drop_last());
    }
}

/// The pairs of one block add its value times its weight under the placements.
pub proof fn lemma_placed_of_sum(
    block: Piece,
    places: Seq<Placement>,
    wt: spec_fn(u64, u32, u64, int, int) -> int,
)
    ensures
        pairs_sum(placed_of(block, places), wt) == block.value.num * places_sum(
            places,
            wt,
            block.group,
            block.year,
            block.period,
            block.start as int,
            block.end as int,
        ),
    decreases places.len(),
{
    let n = block.value.num as int;
    if places.len() > 0 {
        let prev = places.drop_last();
        let pl = places.last();
        lemma_placed_of_sum(block, prev, wt);
        let t = places_sum(
            prev,
            wt,
            block.group,
            block.year,
            block.period,
            block.start as int,
            block.end as int,
        );
        if placed_in(block, pl) {
            let p = Placed { block, placement: pl };
            assert(placed_of(block, places).drop_last() =~= placed_of(block, prev));
            let u = pl.weight * wt(
                block.group,
                block.year,
                pl.period as u64,
                (block.start - 1) * pl.resolution_hours,
                block.end * pl.resolution_hours,
            );
            assert(pair_total(p, wt) == n * u);
            assert(n * t + n * u == n * (t + u)) by (nonlinear_arith);
        } else {
            assert(n * t + 0 == n * (t + 0));
        }
    } else {
        assert(n * 0 == 0);
    }
}

/// The pairs of all blocks add the total of the blocks under the weight that the
/// placements give.
pub proof fn lemma_placed_sum(
    blocks: Seq<Piece>,
    places: Seq<Placement>,
    wt: spec_fn(u64, u32, u64, int, int) -> int,
)
    ensures
        pairs_sum(placed(blocks, places), wt) == total(blocks, block_weight(places, wt)),
    decreases blocks.len(),
{
    if blocks.len() > 0 {
        let prev = blocks.drop_last();
        let b = blocks.last();
        lemma_placed_sum(prev, places, wt);
        lemma_placed_of_sum(b, places, wt);
        lemma_pairs_sum_append(placed(prev, places), placed_of(b, places), wt);
        assert(at(block_weight(places, wt), b) == places_sum(
            places,
            wt,
            b.group,
            b.year,
            b.period,
            b.start as int,
            b.end as int,
        ));
    }
}

/// What one placed block gives has the total of the pair.
pub proof fn lemma_pair_total(
    blocks: Seq<Piece>,
    mappings: Seq<PeriodMapping>,
    lengths: Seq<PeriodLength>,
    bi: int,
    pl: Placement,
    wt: spec_fn(u64, u32, u64, int, int) -> int,
)
    requires
        coverable(blocks, mappings, lengths),
        0 <= bi < blocks.len(),
        placements(mappings, lengths).contains(pl),
        placed_in(blocks[bi], pl),
        additive(wt),
        shares_of(Placed { block: blocks[bi], placement: pl }, intervals(blocks, mappings)) is Some,
    ensures
        total(
            shares_of(
                Placed { block: blocks[bi], placement: pl },
                intervals(blocks, mappings),
            )->Some_0,
            wt,
        ) == pair_total(Placed { block: blocks[bi], placement: pl }, wt),
{
    let cuts = intervals(blocks, mappings);
    let p = Placed { block: blocks[bi], placement: pl };
    let sw = scaled_weight(wt, blocks[bi].group, pl);
    assert forall|k: int| 0 <= k < cuts.len() implies (#[trigger] cuts[k]).group == 0 by {
        lemma_cut_facts(blocks, mappings, k);
    }
    lemma_shares_of_total(p, cuts, wt);
    lemma_scaled_additive(wt, blocks[bi].group, pl);
    lemma_held_weight(blocks, mappings, lengths, bi, pl, sw);
    let (n, w) = (p.block.value.num as int, pl.weight as int);
    let x = wt(
        p.block.group,
        p.block.year,
        pl.period as u64,
        (p.block.start - 1) * pl.resolution_hours,
        p.block.end * pl.resolution_hours,
    );
    assert((n * w) * x == n * (w * x)) by (nonlinear_arith);
}

/// What the pairs up to some place give has the sum of those pairs.
pub proof fn lemma_shares_sum(
    blocks: Seq<Piece>,
    mappings: Seq<PeriodMapping>,
    lengths: Seq<PeriodLength>,
    n: int,
    wt: spec_fn(u64, u32, u64, int, int) -> int,
)
    requires
        coverable(blocks, mappings, lengths),
        additive(wt),
        0 <= n <= placed(blocks, placements(mappings, lengths)).len(),
    ensures
        shares(
            placed(blocks, placements(mappings, lengths)).take(n),
            intervals(blocks, mappings),
        ) is Some,
        total(
            shares(
                placed(blocks, placements(mappings, lengths)).take(n),
                intervals(blocks, mappings),
            )->Some_0,
            wt,
        ) == pairs_sum(placed(blocks, placements(mappings, lengths)).take(n), wt),
    decreases n,
{
    let places = placements(mappings, lengths);
    let cuts = intervals(blocks, mappings);
    let pairs = placed(blocks, places);
    lemma_shares_some_prefix(pairs, cuts, n);
    if n > 0 {
        lemma_shares_sum(blocks, mappings, lengths, n - 1, wt);
        let upto = pairs.take(n);
        assert(upto.drop_last() =~= pairs.take(n - 1));
        let p = pairs[n - 1];
        assert(upto.last() == p);
        lemma_placed(blocks, places);
        assert(is_placed(p, blocks, places));
        let bi = choose|bi: int| 0 <= bi < blocks.len() && blocks[bi] == p.block;
        assert(p == (Placed { block: blocks[bi], placement: p.placement }));
        lemma_pair_total(blocks, mappings, lengths, bi, p.placement, wt);
        lemma_total_append(
            shares(pairs.take(n - 1), cuts)->Some_0,
            shares_of(p, cuts)->Some_0,
            wt,
        );
    }
}

/// The total of the shares. Where the blocks fill their representative periods,
/// the shares have, under every additive weight, the total of the blocks under
/// the weight that the placements give to their timesteps.
pub proof fn lemma_shares_total(
    blocks: Seq<Piece>,
    mappings: Seq<PeriodMapping>,
    lengths: Seq<PeriodLength>,
    wt: spec_fn(u64, u32, u64, int, int) -> int,
)
    requires
        coverable(blocks, mappings, lengths),
        additive(wt),
    ensures
        total(
            shares(
                placed(blocks, placements(mappings, lengths)),
                intervals(blocks, mappings),
            )->Some_0,
            wt,
        ) == total(blocks, block_weight(placements(mappings, lengths), wt)),
{
    let pairs = placed(blocks, placements(mappings, lengths));
    lemma_shares_sum(blocks, mappings, lengths, pairs.len() as int, wt);
    assert(pairs.take(pairs.len() as int) =~= pairs);
    lemma_placed_sum(blocks, placements(mappings, lengths), wt);
}

/// The weight of the timesteps `start + 1..=end`: a weight of blocks, read on the
/// timesteps counted from zero.
pub open spec fn from_zero(wt: spec_fn(u64, u32, u64, int, int) -> int) -> spec_fn(
    u64,
    u32,
    u64,
    int,
    int,
) -> int {
    |g: u64, y: u32, p: u64, a: int, b: int| wt(g, y, p, a + 1, b)
}

/// The weight that the placements give is additive on the timesteps counted from
/// zero.
pub proof fn lemma_places_sum_additive(
    places: Seq<Placement>,
    wt: spec_fn(u64, u32, u64, int, int) -> int,
    g: u64,
    y: u32,
    rep: u64,
    a: int,
    b: int,
    c: int,
)
    requires
        additive(wt),
        a <= b <= c,
    ensures
        places_sum(places, wt, g, y, rep, a + 1, c) == places_sum(places, wt, g, y, rep, a + 1, b)
            + places_sum(places, wt, g, y, rep, b + 1, c),
    decreases places.len(),
{
    if places.len() > 0 {
        let pl = places.last();
        lemma_places_sum_additive(places.drop_last(), wt, g, y, rep, a, b, c);
        let r = pl.resolution_hours as int;
        assert(a * r <= b * r <= c * r) by (nonlinear_arith)
            requires
                a <= b <= c,
                r >= 0,
        ;
        let (x, u, v) = (
            wt(g, y, pl.period as u64, a * r, c * r),
            wt(g, y, pl.period as u64, a * r, b * r),
            wt(g, y, pl.period as u64, b * r, c * r),
        );
        assert(x == u + v);
        let w = pl.weight as int;
        assert(w * x == w * u + w * v) by (nonlinear_arith)
            requires
                x == u + v,
        ;
    }
}

/// The weight of blocks that the placements give is additive on the timesteps
/// counted from zero.
pub proof fn lemma_block_weight_additive(
    places: Seq<Placement>,
    wt: spec_fn(u64, u32, u64, int, int) -> int,
)
    requires
        additive(wt),
    ensures
        additive(from_zero(block_weight(places, wt))),
{
    let low = from_zero(block_weight(places, wt));
    assert forall|g: u64, y: u32, p: u64, a: int, b: int, c: int| a <= b <= c implies low(
        g,
        y,
        p,
        a,
        c,
    ) == #[trigger] low(g, y, p, a, b) + #[trigger] low(g, y, p, b, c) by {
        lemma_places_sum_additive(places, wt, g, y, p, a, b, c);
    }
}

/// Counting the timesteps from zero keeps the total, the weight being read
/// accordingly.
pub proof fn lemma_total_lowered(s: Seq<Piece>, wt: spec_fn(u64, u32, u64, int, int) -> int)
    requires
        forall|i: int| 0 <= i < s.len() ==> (#[trigger] s[i]).start >= 1,
    ensures
        total(lowered(s), from_zero(wt)) == total(s, wt),
    decreases s.len(),
{
    if s.len() > 0 {
        let prev = s.drop_last();
        assert forall|i: int| 0 <= i < prev.len() implies (#[trigger] prev[i]).start >= 1 by {
            assert(prev[i] == s[i]);
        }
        lemma_total_lowered(prev, wt);
        assert(lowered(s).drop_last() =~= lowered(prev));
        assert(s[s.len() - 1].start >= 1);
        assert(lowered(s).last() == (Piece { start: (s.last().start - 1) as u64, ..s.last() }));
    }
}

/// Whole numbers are numbers over one denominator.
pub proof fn lemma_whole(s: Seq<Piece>)
    requires
        whole_values(s),
    ensures
        dens_agree(s),
        values_wf(s),
        whole_values(lowered(s)),
        whole_values(arranged(s)),
        whole_values(compacted(s)),
{
    assert forall|i: int| 0 <= i < lowered(s).len() implies (#[trigger] lowered(s)[i]).value.den
        == 1 by {
        assert(s[i].value.den == 1);
    }
    lemma_arranged_same_pieces(s);
    let a = arranged(s);
    assert forall|i: int| 0 <= i < a.len() implies (#[trigger] a[i]).value.den == 1 by {
        assert(s.contains(a[i]));
        let k = choose|k: int| 0 <= k < s.len() && s[k] == a[i];
        assert(s[k].value.den == 1);
    }
    lemma_whole_compacted(s);
}

/// Compaction keeps whole numbers.
pub proof fn lemma_whole_compacted(s: Seq<Piece>)
    requires
        whole_values(s),
    ensures
        whole_values(compacted(s)),
    decreases s.len(),
{
    if s.len() > 0 {
        let prev = s.drop_last();
        assert(whole_values(prev)) by {
            assert forall|i: int| 0 <= i < prev.len() implies (#[trigger] prev[i]).value.den
                == 1 by {
                assert(prev[i] == s[i]);
            }
        }
        lemma_whole_compacted(prev);
        let b = compacted(prev);
        let c = compacted(s);
        assert forall|i: int| 0 <= i < c.len() implies (#[trigger] c[i]).value.den == 1 by {
            if i < b.len() {
                assert(c[i].value == b[i].value);
                assert(b[i].value.den == 1);
            } else {
                assert(s[s.len() - 1].value.den == 1);
            }
        }
    }
}

/// The total of the blocks. Where rows with whole values fill their
/// representative periods, the compacted blocks have, under the weight that the
/// placements give, the total of the rows.
pub proof fn lemma_blocks_total(
    pieces: Seq<Piece>,
    places: Seq<Placement>,
    wt: spec_fn(u64, u32, u64, int, int) -> int,
)
    requires
        additive(wt),
        whole_values(pieces),
        filled(arranged(pieces)),
    ensures
        total(compacted(arranged(pieces)), block_weight(places, wt)) == total(
            pieces,
            block_weight(places, wt),
        ),
        whole_values(compacted(arranged(pieces))),
{
    let bw = block_weight(places, wt);
    let rows = arranged(pieces);
    lemma_whole(pieces);
    lemma_whole(rows);
    lemma_whole(lowered(rows));
    lemma_compacted_lowered(rows);
    lemma_block_weight_additive(places, wt);
    lemma_total_compacted(lowered(rows), from_zero(bw));
    lemma_total_lowered(rows, bw);
    lemma_total_lowered(compacted(rows), bw);
    lemma_total_arranged(pieces, bw);
}

/// The shares of whole blocks stand, in each partition, over one denominator: the
/// resolution of the period.
pub proof fn lemma_shares_dens(
    blocks: Seq<Piece>,
    mappings: Seq<PeriodMapping>,
    lengths: Seq<PeriodLength>,
)
    requires
        whole_values(blocks),
        resolutions_agree(placements(mappings, lengths)),
        shares(
            placed(blocks, placements(mappings, lengths)),
            intervals(blocks, mappings),
        ) is Some,
    ensures
        dens_agree(
            shares(
                placed(blocks, placements(mappings, lengths)),
                intervals(blocks, mappings),
            )->Some_0,
        ),
{
    let places = placements(mappings, lengths);
    let cuts = intervals(blocks, mappings);
    let all = shares(placed(blocks, places), cuts)->Some_0;
    assert forall|i: int, j: int|
        0 <= i < all.len() && 0 <= j < all.len() && same_partition(
            all[i],
            all[j],
        ) implies all[i].value.den == all[j].value.den by {
        let (ba, pa, ca) = lemma_share_origin(blocks, mappings, lengths, i);
        let (bb, pb, cb) = lemma_share_origin(blocks, mappings, lengths, j);
        lemma_share_facts(Placed { block: blocks[ba], placement: pa }, cuts[ca]);
        lemma_share_facts(Placed { block: blocks[bb], placement: pb }, cuts[cb]);
        lemma_resolution(places, pa, pb);
        assert(blocks[ba].value.den == 1 && blocks[bb].value.den == 1);
        assert(all[i].value.den == 1 * pa.resolution_hours);
        assert(all[j].value.den == 1 * pb.resolution_hours);
    }
}

/// Cells whose denominators are those of pieces on their stretches agree in their
/// denominators where the pieces do.
pub proof fn lemma_dens_from(cells: Seq<Piece>, pieces: Seq<Piece>)
    requires
        dens_from(cells, pieces),
        dens_agree(pieces),
    ensures
        dens_agree(cells),
{
    assert forall|i: int, j: int|
        0 <= i < cells.len() && 0 <= j < cells.len() && same_partition(
            cells[i],
            cells[j],
        ) implies cells[i].value.den == cells[j].value.den by {
        let a = choose|a: int|
            0 <= a < pieces.len() && same_place(#[trigger] cells[i], #[trigger] pieces[a])
                && cells[i].value.den == pieces[a].value.den;
        let b = choose|b: int|
            0 <= b < pieces.len() && same_place(#[trigger] cells[j], #[trigger] pieces[b])
                && cells[j].value.den == pieces[b].value.den;
        assert(same_partition(pieces[a], pieces[b]));
    }
}

/// Arranging keeps the denominators of each partition in agreement.
pub proof fn lemma_dens_arranged(s: Seq<Piece>)
    requires
        dens_agree(s),
    ensures
        dens_agree(arranged(s)),
{
    lemma_arranged_same_pieces(s);
    let a = arranged(s);
    assert forall|i: int, j: int|
        0 <= i < a.len() && 0 <= j < a.len() && same_partition(a[i], a[j]) implies a[i].value.den
        == a[j].value.den by {
        assert(s.contains(a[i]) && s.contains(a[j]));
        let k = choose|k: int| 0 <= k < s.len() && s[k] == a[i];
        let l = choose|l: int| 0 <= l < s.len() && s[l] == a[j];
        assert(same_partition(s[k], s[l]));
    }
}

/// The total of the series of the periods. Where rows with whole values fill their
/// representative periods and the representative periods of each period agree in
/// their resolution, the series of the periods has, under every additive weight,
/// the total of the rows under the weight that the placements give.
pub proof fn lemma_local_total(
    pieces: Seq<Piece>,
    mappings: Seq<PeriodMapping>,
    lengths: Seq<PeriodLength>,
    wt: spec_fn(u64, u32, u64, int, int) -> int,
)
    requires
        additive(wt),
        whole_values(pieces),
        filled(arranged(pieces)),
        resolutions_agree(placements(mappings, lengths)),
        weighted(
            compacted(arranged(pieces)),
            mappings,
            lengths,
            intervals(compacted(arranged(pieces)), mappings),
        ) is Some,
    ensures
        total(
            compacted(
                weighted(
                    compacted(arranged(pieces)),
                    mappings,
                    lengths,
                    intervals(compacted(arranged(pieces)), mappings),
                )->Some_0,
            ),
            wt,
        ) == total(pieces, block_weight(placements(mappings, lengths), wt)),
{
    let places = placements(mappings, lengths);
    let blocks = compacted(arranged(pieces));
    let cuts = intervals(blocks, mappings);
    let all = shares(placed(blocks, places), cuts)->Some_0;
    let cells = gathered(all)->Some_0;
    let series = arranged(cells);
    lemma_blocks_total(pieces, places, wt);
    lemma_compacted_filled(arranged(pieces));
    lemma_shares_total(blocks, mappings, lengths, wt);
    lemma_shares_dens(blocks, mappings, lengths);
    lemma_total_gathered(all, wt);
    lemma_dens_from(cells, all);
    lemma_total_arranged(cells, wt);
    lemma_dens_arranged(cells);
    lemma_weighted_tiled(blocks, mappings, lengths);
    lemma_whole(blocks);
    lemma_shares_values(blocks, mappings, lengths);
    lemma_gathered_values(all);
    lemma_arranged_values(cells);
    lemma_total_compacted(series, wt);
}

} // verus!
