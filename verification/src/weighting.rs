//! Weighted values: each interval of a period gets, per group, the values of the
//! blocks that hold it, weighted by the period's weight and scaled to one hour.
use crate::arrange::{arrange, arranged};
use crate::gather::{gather, gathered};
use crate::model::{PeriodLength, PeriodMapping};
use crate::series::Piece;
use vstd::prelude::*;

verus! {

/// A period that stands for a representative period of known resolution and
/// length.
#[derive(Clone, Copy, Debug, PartialEq, Eq, Structural)]
pub struct Placement {
    pub year: u32,
    pub rep_period: u32,
    pub period: u32,
    pub weight: u32,
    pub resolution_hours: u32,
    pub timestep_count: u32,
}

/// A block together with one period that its representative period stands in.
#[derive(Clone, Copy, Debug, PartialEq, Eq, Structural)]
pub struct Placed {
    pub block: Piece,
    pub placement: Placement,
}

/// The mapping and the length are about the same representative period.
pub open spec fn measures(length: PeriodLength, mapping: PeriodMapping) -> bool {
    length.year == mapping.year && length.rep_period == mapping.rep_period
}

/// The mapping with the resolution of the length.
pub open spec fn placement_of(mapping: PeriodMapping, length: PeriodLength) -> Placement {
    Placement {
        year: mapping.year,
        rep_period: mapping.rep_period,
        period: mapping.period,
        weight: mapping.weight,
        resolution_hours: length.resolution_hours,
        timestep_count: length.timestep_count,
    }
}

/// The placements of one mapping: one per length of its representative period.
pub open spec fn placements_of(mapping: PeriodMapping, lengths: Seq<PeriodLength>) -> Seq<
    Placement,
>
    decreases lengths.len(),
{
    if lengths.len() == 0 {
        Seq::empty()
    } else {
        let before = placements_of(mapping, lengths.drop_last());
        if measures(lengths.last(), mapping) {
            before.push(placement_of(mapping, lengths.last()))
        } else {
            before
        }
    }
}

/// The placements of all mappings, mapping after mapping.
pub open spec fn placements(mappings: Seq<PeriodMapping>, lengths: Seq<PeriodLength>) -> Seq<
    Placement,
>
    decreases mappings.len(),
{
    if mappings.len() == 0 {
        Seq::empty()
    } else {
        placements(mappings.drop_last(), lengths) + placements_of(mappings.last(), lengths)
    }
}

/// The block lies in the representative period of the placement.
pub open spec fn placed_in(block: Piece, placement: Placement) -> bool {
    block.year == placement.year && block.period == placement.rep_period
}

/// One block with each placement of its representative period.
pub open spec fn placed_of(block: Piece, places: Seq<Placement>) -> Seq<Placed>
    decreases places.len(),
{
    if places.len() == 0 {
        Seq::empty()
    } else {
        let before = placed_of(block, places.drop_last());
        if placed_in(block, places.last()) {
            before.push(Placed { block, placement: places.last() })
        } else {
            before
        }
    }
}

/// All blocks with their placements, block after block.
pub open spec fn placed(blocks: Seq<Piece>, places: Seq<Placement>) -> Seq<Placed>
    decreases blocks.len(),
{
    if blocks.len() == 0 {
        Seq::empty()
    } else {
        placed(blocks.drop_last(), places) + placed_of(blocks.last(), places)
    }
}

/// The block holds the interval: the interval lies in the placement's period, the
/// block starts at the interval's first timestep or before, and ends at its last
/// timestep or after. Blocks count their timesteps from one, both ends included;
/// the interval `start..end` counts from zero and holds the timesteps
/// `start + 1..=end`.
pub open spec fn holds(p: Placed, interval: Piece) -> bool {
    &&& interval.year == p.placement.year
    &&& interval.period == p.placement.period
    &&& p.block.start <= interval.start + 1
    &&& interval.end <= p.block.end
}

/// What a block gives to an interval that it holds: its value times the weight of
/// the period over the hours of a timestep, on the interval's hours.
pub open spec fn share(p: Placed, interval: Piece) -> Option<Piece> {
    match p.block.value.times(p.placement.weight as int) {
        None => None,
        Some(weighted) => match weighted.over(p.placement.resolution_hours as int) {
            None => None,
            Some(value) => if interval.end * p.placement.resolution_hours > u64::MAX
                || interval.start * p.placement.resolution_hours > u64::MAX {
                None
            } else {
                Some(
                    Piece {
                        group: p.block.group,
                        year: p.block.year,
                        period: p.placement.period as u64,
                        start: (interval.start * p.placement.resolution_hours) as u64,
                        end: (interval.end * p.placement.resolution_hours) as u64,
                        value,
                    },
                )
            },
        },
    }
}

/// What one placed block gives to the intervals that it holds, in their order.
pub open spec fn shares_of(p: Placed, intervals: Seq<Piece>) -> Option<Seq<Piece>>
    decreases intervals.len(),
{
    if intervals.len() == 0 {
        Some(Seq::empty())
    } else {
        match shares_of(p, intervals.drop_last()) {
            None => None,
            Some(before) => if holds(p, intervals.last()) {
                match share(p, intervals.last()) {
                    None => None,
                    Some(piece) => Some(before.push(piece)),
                }
            } else {
                Some(before)
            },
        }
    }
}

/// What all placed blocks give, block after block.
pub open spec fn shares(blocks: Seq<Placed>, intervals: Seq<Piece>) -> Option<Seq<Piece>>
    decreases blocks.len(),
{
    if blocks.len() == 0 {
        Some(Seq::empty())
    } else {
        match shares(blocks.drop_last(), intervals) {
            None => None,
            Some(before) => match shares_of(blocks.last(), intervals) {
                None => None,
                Some(more) => Some(before + more),
            },
        }
    }
}

/// The weighted series of each period, in hours from the period's start: per
/// group, period and interval that some block of the group holds, the sum of what
/// the blocks give, in the order of group, year, period and start. `None` where a
/// product, a sum or a bound does not fit.
pub open spec fn weighted(
    blocks: Seq<Piece>,
    mappings: Seq<PeriodMapping>,
    lengths: Seq<PeriodLength>,
    intervals: Seq<Piece>,
) -> Option<Seq<Piece>> {
    match shares(placed(blocks, placements(mappings, lengths)), intervals) {
        None => None,
        Some(parts) => match gathered(parts) {
            None => None,
            Some(cells) => Some(arranged(cells)),
        },
    }
}

/// The placement is one of the mapping `mapping`: with a length of its
/// representative period.
pub open spec fn placement_from(pl: Placement, mapping: PeriodMapping, lengths: Seq<PeriodLength>) -> bool {
    exists|j: int|
        0 <= j < lengths.len() && measures(#[trigger] lengths[j], mapping) && pl == placement_of(
            mapping,
            lengths[j],
        )
}

/// The placement is that of some mapping with a length of its representative
/// period.
pub open spec fn is_placement(
    pl: Placement,
    mappings: Seq<PeriodMapping>,
    lengths: Seq<PeriodLength>,
) -> bool {
    exists|i: int| 0 <= i < mappings.len() && placement_from(pl, #[trigger] mappings[i], lengths)
}

/// The pair is a block with a placement of its representative period.
pub open spec fn is_placed(p: Placed, blocks: Seq<Piece>, places: Seq<Placement>) -> bool {
    &&& placed_in(p.block, p.placement)
    &&& blocks.contains(p.block)
    &&& places.contains(p.placement)
}

/// The piece is what `p` gives to an interval that it holds.
pub open spec fn is_share_of(x: Piece, p: Placed, intervals: Seq<Piece>) -> bool {
    exists|c: int|
        0 <= c < intervals.len() && holds(p, #[trigger] intervals[c]) && share(p, intervals[c])
            == Some(x)
}

/// The piece is what some placed block gives to an interval that it holds.
pub open spec fn is_share(x: Piece, pairs: Seq<Placed>, intervals: Seq<Piece>) -> bool {
    exists|a: int| 0 <= a < pairs.len() && is_share_of(x, #[trigger] pairs[a], intervals)
}

/// Where the shares of all pairs fit, the shares of the first pairs fit, and so do
/// those of each pair.
pub proof fn lemma_shares_some_prefix(pairs: Seq<Placed>, intervals: Seq<Piece>, n: int)
    requires
        shares(pairs, intervals) is Some,
        0 <= n <= pairs.len(),
    ensures
        shares(pairs.take(n), intervals) is Some,
        n > 0 ==> shares_of(pairs[n - 1], intervals) is Some,
    decreases pairs.len(),
{
    if n == pairs.len() {
        assert(pairs.take(n) =~= pairs);
    } else {
        lemma_shares_some_prefix(pairs.drop_last(), intervals, n);
        assert(pairs.drop_last().take(n) =~= pairs.take(n));
        if n > 0 {
            assert(pairs.drop_last()[n - 1] == pairs[n - 1]);
        }
    }
}

/// Every placement of a mapping goes with a length of its representative period.
pub proof fn lemma_placements_of(mapping: PeriodMapping, lengths: Seq<PeriodLength>)
    ensures
        forall|k: int|
            0 <= k < placements_of(mapping, lengths).len() ==> placement_from(
                #[trigger] placements_of(mapping, lengths)[k],
                mapping,
                lengths,
            ),
    decreases lengths.len(),
{
    if lengths.len() > 0 {
        let prev = lengths.drop_last();
        lemma_placements_of(mapping, prev);
        let before = placements_of(mapping, prev);
        let all = placements_of(mapping, lengths);
        assert forall|k: int| 0 <= k < all.len() implies placement_from(
            #[trigger] all[k],
            mapping,
            lengths,
        ) by {
            if k < before.len() {
                assert(all[k] == before[k]);
                assert(placement_from(before[k], mapping, prev));
                let j = choose|j: int|
                    0 <= j < prev.len() && measures(#[trigger] prev[j], mapping) && before[k]
                        == placement_of(mapping, prev[j]);
                assert(lengths[j] == prev[j]);
            } else {
                assert(measures(lengths[lengths.len() - 1], mapping));
            }
        }
    }
}

/// Every placement is a mapping together with a length of its representative
/// period.
pub proof fn lemma_placements(mappings: Seq<PeriodMapping>, lengths: Seq<PeriodLength>)
    ensures
        forall|k: int|
            0 <= k < placements(mappings, lengths).len() ==> is_placement(
                #[trigger] placements(mappings, lengths)[k],
                mappings,
                lengths,
            ),
    decreases mappings.len(),
{
    if mappings.len() > 0 {
        let prev = mappings.drop_last();
        let m = mappings.last();
        lemma_placements(prev, lengths);
        lemma_placements_of(m, lengths);
        let head = placements(prev, lengths);
        let tail = placements_of(m, lengths);
        let all = placements(mappings, lengths);
        assert forall|k: int| 0 <= k < all.len() implies is_placement(
            #[trigger] all[k],
            mappings,
            lengths,
        ) by {
            if k < head.len() {
                assert(all[k] == head[k]);
                assert(is_placement(head[k], prev, lengths));
                let i = choose|i: int|
                    0 <= i < prev.len() && placement_from(head[k], #[trigger] prev[i], lengths);
                assert(mappings[i] == prev[i]);
            } else {
                assert(all[k] == tail[k - head.len()]);
                assert(placement_from(tail[k - head.len()], mappings[mappings.len() - 1], lengths));
            }
        }
    }
}

/// The placed blocks of one block are the block with each placement of its
/// representative period.
pub proof fn lemma_placed_of(block: Piece, places: Seq<Placement>)
    ensures
        forall|k: int|
            0 <= k < placed_of(block, places).len() ==> (#[trigger] placed_of(
                block,
                places,
            )[k]).block == block && placed_in(block, placed_of(block, places)[k].placement)
                && places.contains(placed_of(block, places)[k].placement),
        forall|j: int|
            0 <= j < places.len() && placed_in(block, #[trigger] places[j]) ==> placed_of(
                block,
                places,
            ).contains(Placed { block, placement: places[j] }),
    decreases places.len(),
{
    if places.len() > 0 {
        let prev = places.drop_last();
        lemma_placed_of(block, prev);
        let before = placed_of(block, prev);
        let all = placed_of(block, places);
        assert forall|k: int| 0 <= k < all.len() implies (#[trigger] all[k]).block == block
            && placed_in(block, all[k].placement) && places.contains(all[k].placement) by {
            if k < before.len() {
                assert(all[k] == before[k]);
                let j = choose|j: int| 0 <= j < prev.len() && prev[j] == before[k].placement;
                assert(places[j] == prev[j]);
            } else {
                assert(places[places.len() - 1] == all[k].placement);
            }
        }
        assert forall|j: int|
            0 <= j < places.len() && placed_in(block, #[trigger] places[j]) implies all.contains(
            Placed { block, placement: places[j] },
        ) by {
            if j < prev.len() {
                assert(prev[j] == places[j]);
                let k = choose|k: int|
                    0 <= k < before.len() && before[k] == (Placed { block, placement: prev[j] });
                assert(all[k] == before[k]);
            } else {
                assert(all[all.len() - 1] == (Placed { block, placement: places[j] }));
            }
        }
    }
}

/// The placed blocks are the blocks with the placements of their representative
/// periods, all of them and no others.
pub proof fn lemma_placed(blocks: Seq<Piece>, places: Seq<Placement>)
    ensures
        forall|k: int|
            0 <= k < placed(blocks, places).len() ==> is_placed(
                #[trigger] placed(blocks, places)[k],
                blocks,
                places,
            ),
        forall|i: int, j: int|
            0 <= i < blocks.len() && 0 <= j < places.len() && placed_in(
                #[trigger] blocks[i],
                #[trigger] places[j],
            ) ==> placed(blocks, places).contains(Placed { block: blocks[i], placement: places[j] }),
    decreases blocks.len(),
{
    if blocks.len() > 0 {
        let prev = blocks.drop_last();
        let b = blocks.last();
        lemma_placed(prev, places);
        lemma_placed_of(b, places);
        let head = placed(prev, places);
        let tail = placed_of(b, places);
        let all = placed(blocks, places);
        assert forall|k: int| 0 <= k < all.len() implies is_placed(
            #[trigger] all[k],
            blocks,
            places,
        ) by {
            if k < head.len() {
                assert(all[k] == head[k]);
                assert(is_placed(head[k], prev, places));
                let i = choose|i: int| 0 <= i < prev.len() && prev[i] == head[k].block;
                assert(blocks[i] == prev[i]);
            } else {
                assert(all[k] == tail[k - head.len()]);
                assert(blocks[blocks.len() - 1] == b);
            }
        }
        assert forall|i: int, j: int|
            0 <= i < blocks.len() && 0 <= j < places.len() && placed_in(
                #[trigger] blocks[i],
                #[trigger] places[j],
            ) implies all.contains(Placed { block: blocks[i], placement: places[j] }) by {
            if i < prev.len() {
                assert(prev[i] == blocks[i]);
                assert(placed_in(prev[i], places[j]));
                let k = choose|k: int|
                    0 <= k < head.len() && head[k] == (Placed {
                        block: prev[i],
                        placement: places[j],
                    });
                assert(all[k] == head[k]);
            } else {
                let k = choose|k: int|
                    0 <= k < tail.len() && tail[k] == (Placed { block: b, placement: places[j] });
                assert(all[head.len() + k] == tail[k]);
            }
        }
    }
}

/// What a placed block gives: its share of every interval that it holds, and
/// nothing else.
pub proof fn lemma_shares_of(p: Placed, intervals: Seq<Piece>)
    requires
        shares_of(p, intervals) is Some,
    ensures
        forall|k: int|
            0 <= k < shares_of(p, intervals)->Some_0.len() ==> is_share_of(
                #[trigger] shares_of(p, intervals)->Some_0[k],
                p,
                intervals,
            ),
        forall|c: int|
            0 <= c < intervals.len() && holds(p, #[trigger] intervals[c]) ==> share(
                p,
                intervals[c],
            ) is Some && shares_of(p, intervals)->Some_0.contains(share(p, intervals[c])->Some_0),
    decreases intervals.len(),
{
    if intervals.len() > 0 {
        let prev = intervals.drop_last();
        lemma_shares_of(p, prev);
        let before = shares_of(p, prev)->Some_0;
        let all = shares_of(p, intervals)->Some_0;
        assert forall|k: int| 0 <= k < all.len() implies is_share_of(
            #[trigger] all[k],
            p,
            intervals,
        ) by {
            if k < before.len() {
                assert(all[k] == before[k]);
                assert(is_share_of(before[k], p, prev));
                let c = choose|c: int|
                    0 <= c < prev.len() && holds(p, #[trigger] prev[c]) && share(p, prev[c])
                        == Some(before[k]);
                assert(intervals[c] == prev[c]);
            } else {
                assert(holds(p, intervals[intervals.len() - 1]));
            }
        }
        assert forall|c: int|
            0 <= c < intervals.len() && holds(p, #[trigger] intervals[c]) implies share(
            p,
            intervals[c],
        ) is Some && all.contains(share(p, intervals[c])->Some_0) by {
            if c < prev.len() {
                assert(prev[c] == intervals[c]);
                let k = choose|k: int|
                    0 <= k < before.len() && before[k] == share(p, prev[c])->Some_0;
                assert(all[k] == before[k]);
            } else {
                assert(all[all.len() - 1] == share(p, intervals[c])->Some_0);
            }
        }
    }
}

/// What the placed blocks give: the share of every placed block of every interval
/// that it holds, and nothing else.
pub proof fn lemma_shares(pairs: Seq<Placed>, intervals: Seq<Piece>)
    requires
        shares(pairs, intervals) is Some,
    ensures
        forall|k: int|
            0 <= k < shares(pairs, intervals)->Some_0.len() ==> is_share(
                #[trigger] shares(pairs, intervals)->Some_0[k],
                pairs,
                intervals,
            ),
        forall|a: int, c: int|
            0 <= a < pairs.len() && 0 <= c < intervals.len() && holds(
                #[trigger] pairs[a],
                #[trigger] intervals[c],
            ) ==> share(pairs[a], intervals[c]) is Some && shares(
                pairs,
                intervals,
            )->Some_0.contains(share(pairs[a], intervals[c])->Some_0),
    decreases pairs.len(),
{
    if pairs.len() > 0 {
        let prev = pairs.drop_last();
        let p = pairs.last();
        lemma_shares(prev, intervals);
        lemma_shares_of(p, intervals);
        let head = shares(prev, intervals)->Some_0;
        let tail = shares_of(p, intervals)->Some_0;
        let all = shares(pairs, intervals)->Some_0;
        assert forall|k: int| 0 <= k < all.len() implies is_share(
            #[trigger] all[k],
            pairs,
            intervals,
        ) by {
            if k < head.len() {
                assert(all[k] == head[k]);
                assert(is_share(head[k], prev, intervals));
                let a = choose|a: int|
                    0 <= a < prev.len() && is_share_of(head[k], #[trigger] prev[a], intervals);
                assert(pairs[a] == prev[a]);
            } else {
                assert(all[k] == tail[k - head.len()]);
                assert(is_share_of(tail[k - head.len()], pairs[pairs.len() - 1], intervals));
            }
        }
        assert forall|a: int, c: int|
            0 <= a < pairs.len() && 0 <= c < intervals.len() && holds(
                #[trigger] pairs[a],
                #[trigger] intervals[c],
            ) implies share(pairs[a], intervals[c]) is Some && all.contains(
            share(pairs[a], intervals[c])->Some_0,
        ) by {
            if a < prev.len() {
                assert(prev[a] == pairs[a]);
                assert(holds(prev[a], intervals[c]));
                let k = choose|k: int|
                    0 <= k < head.len() && head[k] == share(prev[a], intervals[c])->Some_0;
                assert(all[k] == head[k]);
            } else {
                let k = choose|k: int|
                    0 <= k < tail.len() && tail[k] == share(p, intervals[c])->Some_0;
                assert(all[head.len() + k] == tail[k]);
            }
        }
    }
}

/// Joins the mappings with the lengths of their representative periods.
pub fn place_periods(mappings: &Vec<PeriodMapping>, lengths: &Vec<PeriodLength>) -> (out: Vec<
    Placement,
>)
    ensures
        out@ == placements(mappings@, lengths@),
{
    let mut out: Vec<Placement> = Vec::new();
    let mut i: usize = 0;
    while i < mappings.len()
        invariant
            i <= mappings.len(),
            out@ == placements(mappings@.take(i as int), lengths@),
        decreases mappings.len() - i,
    {
        let m: PeriodMapping = mappings[i];
        let ghost before = out@;
        let mut j: usize = 0;
        assert(out@ =~= before + placements_of(m, lengths@.take(0)));
        while j < lengths.len()
            invariant
                j <= lengths.len(),
                out@ == before + placements_of(m, lengths@.take(j as int)),
            decreases lengths.len() - j,
        {
            let d: PeriodLength = lengths[j];
            proof {
                assert(lengths@.take(j + 1).drop_last() =~= lengths@.take(j as int));
            }
            if d.year == m.year && d.rep_period == m.rep_period {
                out.push(
                    Placement {
                        year: m.year,
                        rep_period: m.rep_period,
                        period: m.period,
                        weight: m.weight,
                        resolution_hours: d.resolution_hours,
                        timestep_count: d.timestep_count,
                    },
                );
                assert(out@ =~= before + placements_of(m, lengths@.take(j + 1)));
            }
            j += 1;
        }
        proof {
            assert(lengths@.take(lengths.len() as int) =~= lengths@);
            assert(mappings@.take(i + 1).drop_last() =~= mappings@.take(i as int));
        }
        i += 1;
    }
    assert(mappings@.take(mappings.len() as int) =~= mappings@);
    out
}

/// Joins the blocks with the placements of their representative periods.
pub fn place_blocks(blocks: &Vec<Piece>, places: &Vec<Placement>) -> (out: Vec<Placed>)
    ensures
        out@ == placed(blocks@, places@),
{
    let mut out: Vec<Placed> = Vec::new();
    let mut i: usize = 0;
    while i < blocks.len()
        invariant
            i <= blocks.len(),
            out@ == placed(blocks@.take(i as int), places@),
        decreases blocks.len() - i,
    {
        let b: Piece = blocks[i];
        let ghost before = out@;
        let mut j: usize = 0;
        assert(out@ =~= before + placed_of(b, places@.take(0)));
        while j < places.len()
            invariant
                j <= places.len(),
                out@ == before + placed_of(b, places@.take(j as int)),
            decreases places.len() - j,
        {
            let p: Placement = places[j];
            proof {
                assert(places@.take(j + 1).drop_last() =~= places@.take(j as int));
            }
            if b.year == p.year && b.period == p.rep_period as u64 {
                out.push(Placed { block: b, placement: p });
                assert(out@ =~= before + placed_of(b, places@.take(j + 1)));
            }
            j += 1;
        }
        proof {
            assert(places@.take(places.len() as int) =~= places@);
            assert(blocks@.take(i + 1).drop_last() =~= blocks@.take(i as int));
        }
        i += 1;
    }
    assert(blocks@.take(blocks.len() as int) =~= blocks@);
    out
}

/// What a placed block gives to an interval.
fn share_of(p: &Placed, interval: &Piece) -> (out: Option<Piece>)
    ensures
        out == share(*p, *interval),
{
    let res: u64 = p.placement.resolution_hours as u64;
    match p.block.value.checked_scale(p.placement.weight as u64) {
        None => None,
        Some(weighted) => match weighted.checked_div(res) {
            None => None,
            Some(value) => {
                let ghost s = interval.start as int;
                let ghost e = interval.end as int;
                let ghost r = res as int;
                match (interval.start.checked_mul(res), interval.end.checked_mul(res)) {
                    (Some(start), Some(end)) => Some(
                        Piece {
                            group: p.block.group,
                            year: p.block.year,
                            period: p.placement.period as u64,
                            start,
                            end,
                            value,
                        },
                    ),
                    _ => None,
                }
            },
        },
    }
}

/// Where the shares up to some interval do not fit, the shares of all intervals do
/// not fit.
pub proof fn lemma_shares_of_prefix_none(p: Placed, intervals: Seq<Piece>, n: int)
    requires
        0 <= n <= intervals.len(),
        shares_of(p, intervals.take(n)) is None,
    ensures
        shares_of(p, intervals) is None,
    decreases intervals.len(),
{
    if n < intervals.len() {
        assert(intervals.drop_last().take(n) =~= intervals.take(n));
        lemma_shares_of_prefix_none(p, intervals.drop_last(), n);
    } else {
        assert(intervals.take(n) =~= intervals);
    }
}

/// Where the shares up to some block do not fit, the shares of all blocks do not
/// fit.
pub proof fn lemma_shares_prefix_none(blocks: Seq<Placed>, intervals: Seq<Piece>, n: int)
    requires
        0 <= n <= blocks.len(),
        shares(blocks.take(n), intervals) is None,
    ensures
        shares(blocks, intervals) is None,
    decreases blocks.len(),
{
    if n < blocks.len() {
        assert(blocks.drop_last().take(n) =~= blocks.take(n));
        lemma_shares_prefix_none(blocks.drop_last(), intervals, n);
    } else {
        assert(blocks.take(n) =~= blocks);
    }
}

/// Appends what one placed block gives to the intervals. Returns whether all fits;
/// where it does not, `out` holds no result.
fn push_shares(out: &mut Vec<Piece>, p: &Placed, intervals: &Vec<Piece>) -> (done: bool)
    ensures
        done ==> shares_of(*p, intervals@) is Some && final(out)@ == old(out)@ + shares_of(
            *p,
            intervals@,
        )->Some_0,
        !done ==> shares_of(*p, intervals@) is None,
{
    let mut j: usize = 0;
    assert(out@ =~= old(out)@ + shares_of(*p, intervals@.take(0))->Some_0);
    while j < intervals.len()
        invariant
            j <= intervals.len(),
            shares_of(*p, intervals@.take(j as int)) is Some,
            out@ == old(out)@ + shares_of(*p, intervals@.take(j as int))->Some_0,
        decreases intervals.len() - j,
    {
        let iv: Piece = intervals[j];
        proof {
            assert(intervals@.take(j + 1).drop_last() =~= intervals@.take(j as int));
        }
        if iv.year == p.placement.year && iv.period == p.placement.period as u64 && iv.end
            <= p.block.end && (iv.start == u64::MAX || p.block.start <= iv.start + 1) {
            match share_of(p, &iv) {
                None => {
                    proof {
                        lemma_shares_of_prefix_none(*p, intervals@, j + 1);
                    }
                    return false;
                },
                Some(piece) => {
                    out.push(piece);
                    assert(out@ =~= old(out)@ + shares_of(*p, intervals@.take(j + 1))->Some_0);
                },
            }
        }
        j += 1;
    }
    assert(intervals@.take(intervals.len() as int) =~= intervals@);
    true
}

/// Assigns weighted values to the intervals of each period.
pub fn assign_weighted(
    blocks: &Vec<Piece>,
    mappings: &Vec<PeriodMapping>,
    lengths: &Vec<PeriodLength>,
    intervals: &Vec<Piece>,
) -> (out: Option<Vec<Piece>>)
    ensures
        match out {
            Some(series) => weighted(blocks@, mappings@, lengths@, intervals@) == Some(series@),
            None => weighted(blocks@, mappings@, lengths@, intervals@) is None,
        },
{
    let places: Vec<Placement> = place_periods(mappings, lengths);
    let pairs: Vec<Placed> = place_blocks(blocks, &places);
    let mut parts: Vec<Piece> = Vec::new();
    let mut i: usize = 0;
    while i < pairs.len()
        invariant
            i <= pairs.len(),
            pairs@ == placed(blocks@, placements(mappings@, lengths@)),
            shares(pairs@.take(i as int), intervals@) == Some(parts@),
        decreases pairs.len() - i,
    {
        proof {
            assert(pairs@.take(i + 1).drop_last() =~= pairs@.take(i as int));
        }
        if !push_shares(&mut parts, &pairs[i], intervals) {
            proof {
                lemma_shares_prefix_none(pairs@, intervals@, i + 1);
            }
            return None;
        }
        i += 1;
    }
    assert(pairs@.take(pairs.len() as int) =~= pairs@);
    match gather(&parts) {
        None => None,
        Some(cells) => Some(arrange(&cells)),
    }
}

} // verus!
