//! The start of each period on the global axis: where every group has every period
//! of its year, each period starts at the hours of the periods before it, the
//! same hour for all groups.
use crate::arrange::{arranged, lemma_arranged, lemma_arranged_same_pieces, ordered, precedes};
use crate::compaction::{compacted, lemma_compacted_ordered, lemma_compacted_seen};
use crate::gather::{gathered, lemma_gathered_places};
use crate::intervals::intervals;
use crate::local_coverage::coverable;
use crate::model::{PeriodLength, PeriodMapping};
use crate::period_hours::{
    counted, hours_of, lemma_local_origin, lemma_period_hours, lemma_share_at_hours, placed_key,
};
use crate::series::{same_line, same_partition, same_place, seen, Piece};
use crate::timeline::offset_at;
use crate::weighting::{placed, placed_in, placements, shares, weighted, Placement};
use vstd::prelude::*;

verus! {

/// The hours of the periods of the year `y` before the period `p`.
pub open spec fn hours_before(places: Seq<Placement>, y: u32, p: u64) -> int
    decreases places.len(),
{
    if places.len() == 0 {
        0
    } else {
        hours_before(places.drop_last(), y, p) + if places.last().year == y
            && (places.last().period as u64) < p {
            hours_of(places.last())
        } else {
            0
        }
    }
}

/// Every period of a year stands for one representative period, of one length.
pub open spec fn one_per_period(places: Seq<Placement>) -> bool {
    forall|i: int, j: int|
        0 <= i < j < places.len() ==> !((#[trigger] places[i]).year == (#[trigger] places[j]).year
            && places[i].period == places[j].period)
}

/// Every group has blocks in every representative period that a period of its year
/// stands for.
pub open spec fn all_periods(blocks: Seq<Piece>, places: Seq<Placement>) -> bool {
    forall|bi: int, pj: int|
        0 <= bi < blocks.len() && 0 <= pj < places.len() && (#[trigger] blocks[bi]).year == (
        #[trigger] places[pj]).year ==> exists|bj: int|
            0 <= bj < blocks.len() && (#[trigger] blocks[bj]).group == blocks[bi].group
                && placed_in(blocks[bj], places[pj])
}

/// Where no period of the year lies before `p`, no hours lie before it.
pub proof fn lemma_hours_before_none(places: Seq<Placement>, y: u32, p: u64)
    requires
        forall|k: int|
            0 <= k < places.len() ==> !((#[trigger] places[k]).year == y && (places[k].period as u64)
                < p),
    ensures
        hours_before(places, y, p) == 0,
    decreases places.len(),
{
    if places.len() > 0 {
        let prev = places.drop_last();
        assert forall|k: int| 0 <= k < prev.len() implies !((#[trigger] prev[k]).year == y && (
        prev[k].period as u64) < p) by {
            assert(prev[k] == places[k]);
        }
        lemma_hours_before_none(prev, y, p);
        assert(places[places.len() - 1] == places.last());
    }
}

/// Where no period of the year lies from `q` up to `p`, the hours before `p` are
/// those before `q`.
pub proof fn lemma_hours_before_same(places: Seq<Placement>, y: u32, q: u64, p: u64)
    requires
        q <= p,
        forall|k: int|
            0 <= k < places.len() ==> !((#[trigger] places[k]).year == y && q <= (
            places[k].period as u64) < p),
    ensures
        hours_before(places, y, p) == hours_before(places, y, q),
    decreases places.len(),
{
    if places.len() > 0 {
        let prev = places.drop_last();
        assert forall|k: int| 0 <= k < prev.len() implies !((#[trigger] prev[k]).year == y && q <= (
        prev[k].period as u64) < p) by {
            assert(prev[k] == places[k]);
        }
        lemma_hours_before_same(prev, y, q, p);
        assert(places[places.len() - 1] == places.last());
    }
}

/// Where one period of the year lies from `q` up to `p`, the hours before `p` are
/// those before `q` and the hours of that period.
pub proof fn lemma_hours_before_step(places: Seq<Placement>, y: u32, q: u64, p: u64, k: int)
    requires
        q <= p,
        0 <= k < places.len(),
        places[k].year == y,
        q <= (places[k].period as u64) < p,
        forall|j: int|
            0 <= j < places.len() && j != k ==> !((#[trigger] places[j]).year == y && q <= (
            places[j].period as u64) < p),
    ensures
        hours_before(places, y, p) == hours_before(places, y, q) + hours_of(places[k]),
    decreases places.len(),
{
    let prev = places.drop_last();
    if k == places.len() - 1 {
        assert forall|j: int| 0 <= j < prev.len() implies !((#[trigger] prev[j]).year == y && q <= (
        prev[j].period as u64) < p) by {
            assert(prev[j] == places[j]);
        }
        lemma_hours_before_same(prev, y, q, p);
    } else {
        assert(prev[k] == places[k]);
        assert forall|j: int| 0 <= j < prev.len() && j != k implies !((#[trigger] prev[j]).year == y
            && q <= (prev[j].period as u64) < p) by {
            assert(prev[j] == places[j]);
        }
        lemma_hours_before_step(prev, y, q, p, k);
        assert(places[places.len() - 1] == places.last());
    }
}

/// A group that has a block in a representative period has a piece in every period
/// that stands for it.
pub proof fn lemma_period_present(
    blocks: Seq<Piece>,
    mappings: Seq<PeriodMapping>,
    lengths: Seq<PeriodLength>,
    bi: int,
    pl: Placement,
) -> (m: int)
    requires
        coverable(blocks, mappings, lengths),
        counted(blocks, placements(mappings, lengths)),
        weighted(blocks, mappings, lengths, intervals(blocks, mappings)) is Some,
        0 <= bi < blocks.len(),
        placements(mappings, lengths).contains(pl),
        placed_in(blocks[bi], pl),
    ensures
        0 <= m < compacted(
            weighted(blocks, mappings, lengths, intervals(blocks, mappings))->Some_0,
        ).len(),
        same_partition(
            compacted(weighted(blocks, mappings, lengths, intervals(blocks, mappings))->Some_0)[m],
            placed_key(blocks[bi], pl),
        ),
{
    let all = shares(
        placed(blocks, placements(mappings, lengths)),
        intervals(blocks, mappings),
    )->Some_0;
    let cells = gathered(all)->Some_0;
    let series = arranged(cells);
    let local = compacted(series);
    let key = placed_key(blocks[bi], pl);
    let k = lemma_share_at_hours(blocks, mappings, lengths, bi, pl);
    assert(same_partition(all[k], key));
    lemma_gathered_places(all);
    let c = choose|c: int| 0 <= c < cells.len() && same_place(#[trigger] cells[c], #[trigger] all[k]);
    lemma_arranged_same_pieces(cells);
    assert(series.contains(cells[c]));
    let j = choose|j: int| 0 <= j < series.len() && series[j] == cells[c];
    assert(same_partition(series[j], key));
    assert(seen(series, key));
    lemma_compacted_seen(series, key);
    choose|m: int| 0 <= m < local.len() && same_partition(#[trigger] local[m], key)
}

/// The series of the periods: the weighted values of the blocks, compacted.
pub open spec fn periods_series(
    blocks: Seq<Piece>,
    mappings: Seq<PeriodMapping>,
    lengths: Seq<PeriodLength>,
) -> Seq<Piece> {
    compacted(weighted(blocks, mappings, lengths, intervals(blocks, mappings))->Some_0)
}

/// The rows are fit for laying their periods end to end: they fill their
/// representative periods up to the last timestep, every period stands for one
/// representative period, and every group has every one of them.
pub open spec fn end_to_end(
    blocks: Seq<Piece>,
    mappings: Seq<PeriodMapping>,
    lengths: Seq<PeriodLength>,
) -> bool {
    &&& coverable(blocks, mappings, lengths)
    &&& counted(blocks, placements(mappings, lengths))
    &&& one_per_period(placements(mappings, lengths))
    &&& all_periods(blocks, placements(mappings, lengths))
    &&& weighted(blocks, mappings, lengths, intervals(blocks, mappings)) is Some
}

/// The series of the periods is in order.
pub proof fn lemma_periods_series_ordered(
    blocks: Seq<Piece>,
    mappings: Seq<PeriodMapping>,
    lengths: Seq<PeriodLength>,
)
    requires
        weighted(blocks, mappings, lengths, intervals(blocks, mappings)) is Some,
    ensures
        ordered(periods_series(blocks, mappings, lengths)),
{
    let all = shares(
        placed(blocks, placements(mappings, lengths)),
        intervals(blocks, mappings),
    )->Some_0;
    lemma_arranged(gathered(all)->Some_0);
    lemma_compacted_ordered(arranged(gathered(all)->Some_0));
}

/// In an ordered list the pieces of one group and year stand together.
pub proof fn lemma_line_together(s: Seq<Piece>, a: int, b: int, c: int)
    requires
        ordered(s),
        0 <= a <= b <= c < s.len(),
        same_line(s[a], s[c]),
    ensures
        same_line(s[b], s[a]),
{
    if a < b {
        assert(!precedes(s[b], s[a]));
    }
    if b < c {
        assert(!precedes(s[c], s[b]));
    }
}

/// In an ordered list a piece of an earlier period of the same group and year
/// stands earlier.
pub proof fn lemma_earlier_period(s: Seq<Piece>, m: int, i: int)
    requires
        ordered(s),
        0 <= m < s.len(),
        0 <= i < s.len(),
        same_line(s[m], s[i]),
        s[m].period < s[i].period,
    ensures
        m < i,
{
    if i < m {
        assert(!precedes(s[m], s[i]));
    }
}

/// A group that has a block in a year has one in every representative period that
/// a period of the year stands for.
pub proof fn lemma_group_in(blocks: Seq<Piece>, places: Seq<Placement>, bi: int, k: int) -> (bj:
    int)
    requires
        all_periods(blocks, places),
        0 <= bi < blocks.len(),
        0 <= k < places.len(),
        blocks[bi].year == places[k].year,
    ensures
        0 <= bj < blocks.len(),
        blocks[bj].group == blocks[bi].group,
        placed_in(blocks[bj], places[k]),
{
    choose|bj: int|
        0 <= bj < blocks.len() && (#[trigger] blocks[bj]).group == blocks[bi].group && placed_in(
            blocks[bj],
            places[k],
        )
}

/// A group has a piece in every period of its years.
pub proof fn lemma_every_period(
    blocks: Seq<Piece>,
    mappings: Seq<PeriodMapping>,
    lengths: Seq<PeriodLength>,
    i: int,
    k: int,
) -> (m: int)
    requires
        end_to_end(blocks, mappings, lengths),
        0 <= i < periods_series(blocks, mappings, lengths).len(),
        0 <= k < placements(mappings, lengths).len(),
        placements(mappings, lengths)[k].year == periods_series(blocks, mappings, lengths)[i].year,
    ensures
        0 <= m < periods_series(blocks, mappings, lengths).len(),
        same_line(
            periods_series(blocks, mappings, lengths)[m],
            periods_series(blocks, mappings, lengths)[i],
        ),
        periods_series(blocks, mappings, lengths)[m].period == placements(
            mappings,
            lengths,
        )[k].period,
{
    let local = periods_series(blocks, mappings, lengths);
    let places = placements(mappings, lengths);
    assert(same_partition(local[i], local[i]));
    let (bi, own) = lemma_local_origin(blocks, mappings, lengths, local[i]);
    let bj = lemma_group_in(blocks, places, bi, k);
    assert(places.contains(places[k]));
    lemma_period_present(blocks, mappings, lengths, bj, places[k])
}

/// The periods start at the same hours for every group. Where the rows are fit
/// for it, each piece of the series of the periods lies in a period that starts,
/// on the global axis, at the hours of the periods of its year before it.
pub proof fn lemma_offsets(
    blocks: Seq<Piece>,
    mappings: Seq<PeriodMapping>,
    lengths: Seq<PeriodLength>,
    i: int,
)
    requires
        end_to_end(blocks, mappings, lengths),
        0 <= i < periods_series(blocks, mappings, lengths).len(),
    ensures
        offset_at(
            periods_series(blocks, mappings, lengths),
            i,
            placements(mappings, lengths),
        ) == hours_before(
            placements(mappings, lengths),
            periods_series(blocks, mappings, lengths)[i].year,
            periods_series(blocks, mappings, lengths)[i].period,
        ),
    decreases i,
{
    let local = periods_series(blocks, mappings, lengths);
    let places = placements(mappings, lengths);
    let y = local[i].year;
    let p = local[i].period;
    lemma_periods_series_ordered(blocks, mappings, lengths);
    if i == 0 || !same_line(local[i - 1], local[i]) {
        assert forall|k: int| 0 <= k < places.len() implies !((#[trigger] places[k]).year == y && (
        places[k].period as u64) < p) by {
            if places[k].year == y && (places[k].period as u64) < p {
                let m = lemma_every_period(blocks, mappings, lengths, i, k);
                lemma_earlier_period(local, m, i);
                lemma_line_together(local, m, i - 1, i);
            }
        }
        lemma_hours_before_none(places, y, p);
    } else if local[i - 1].period == p {
        lemma_offsets(blocks, mappings, lengths, i - 1);
    } else {
        let q = local[i - 1].period;
        lemma_offsets(blocks, mappings, lengths, i - 1);
        assert(!precedes(local[i], local[i - 1]));
        assert(q < p);
        let pl = lemma_period_hours(blocks, mappings, lengths, i - 1);
        let k = choose|k: int| 0 <= k < places.len() && places[k] == pl;
        assert forall|j: int| 0 <= j < places.len() && j != k implies !((#[trigger] places[j]).year
            == y && q <= (places[j].period as u64) < p) by {
            if places[j].year == y && q <= (places[j].period as u64) < p {
                if places[j].period as u64 == q {
                    if j < k {
                        assert(!(places[j].year == places[k].year && places[j].period
                            == places[k].period));
                    } else {
                        assert(!(places[k].year == places[j].year && places[k].period
                            == places[j].period));
                    }
                } else {
                    let m = lemma_every_period(blocks, mappings, lengths, i, j);
                    lemma_earlier_period(local, m, i);
                    lemma_earlier_period(local, i - 1, m);
                }
            }
        }
        lemma_hours_before_step(places, y, q, p, k);
    }
}

} // verus!
