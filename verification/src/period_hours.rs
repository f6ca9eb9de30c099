//! The hours of a period: where the blocks of every group reach the last timestep
//! of their representative periods, the series of each period ends at the
//! resolution times the number of timesteps, and these are the hours by which the
//! global axis moves on from period to period.
use crate::arrange::{arranged, inserted, lemma_arranged_same_pieces, precedes};
use crate::compaction::{
    compacted, lemma_compacted_horizon, lemma_compacted_seen, lemma_compacted_tiled,
};
use crate::coverage::{
    ends_run, lemma_horizon_positive, lemma_horizon_same_key, lemma_horizon_unseen, reaches,
};
use crate::gather::{gathered, lemma_gathered_places};
use crate::intervals::intervals;
use crate::local_coverage::{
    coverable, filled, lemma_block_end_is_boundary, lemma_block_start_is_boundary,
    lemma_compacted_lowered, lemma_cut_ending, lemma_cut_facts, lemma_listed_placement,
    lemma_not_inside, lemma_resolution, lemma_share_facts, lemma_share_listed,
    lemma_share_origin, lemma_weighted_tiled, lowered, resolutions_agree,
};
use crate::model::{PeriodLength, PeriodMapping};
use crate::series::{
    horizon, lemma_tiled_apart, lemma_tiled_pieces, lemma_tiled_together, same_partition,
    same_place, seen, tiled, Piece,
};
use crate::timeline::duration;
use crate::weighting::{placed, placed_in, placements, share, shares, weighted, Placed, Placement};
use vstd::prelude::*;

verus! {

/// The blocks reach the last timestep: no block ends behind the number of timesteps
/// of its representative period, the last block of every partition ends at that
/// number, and the representative periods of each period agree in it.
pub open spec fn counted(blocks: Seq<Piece>, places: Seq<Placement>) -> bool {
    &&& forall|i: int, j: int|
        0 <= i < blocks.len() && 0 <= j < places.len() && placed_in(
            #[trigger] blocks[i],
            #[trigger] places[j],
        ) ==> blocks[i].end <= places[j].timestep_count && (ends_run(blocks, i) ==> blocks[i].end
            == places[j].timestep_count)
    &&& forall|i: int, j: int|
        0 <= i < places.len() && 0 <= j < places.len() && (#[trigger] places[i]).year == (
        #[trigger] places[j]).year && places[i].period == places[j].period
            ==> places[i].timestep_count == places[j].timestep_count
}

/// The hours of the period of a placement: its resolution times its number of
/// timesteps.
pub open spec fn hours_of(pl: Placement) -> int {
    pl.resolution_hours * pl.timestep_count
}

/// The horizon of a partition is the largest end of its pieces: no piece of the
/// partition ends behind it, and where a piece ends at a bound of all, the bound
/// is the horizon.
pub proof fn lemma_horizon_is(s: Seq<Piece>, key: Piece, h: int)
    requires
        forall|i: int| 0 <= i < s.len() && same_partition(#[trigger] s[i], key) ==> s[i].end <= h,
        exists|i: int| 0 <= i < s.len() && same_partition(#[trigger] s[i], key) && s[i].end == h,
    ensures
        horizon(s, key) == h,
    decreases s.len(),
{
    let w = choose|i: int| 0 <= i < s.len() && same_partition(#[trigger] s[i], key) && s[i].end == h;
    let prev = s.drop_last();
    assert forall|i: int| 0 <= i < prev.len() && same_partition(
        #[trigger] prev[i],
        key,
    ) implies prev[i].end <= h by {
        assert(prev[i] == s[i]);
    }
    lemma_horizon_below(prev, key, h);
    if w < s.len() - 1 {
        assert(prev[w] == s[w]);
        lemma_horizon_is(prev, key, h);
        assert(s[s.len() - 1] == s.last());
    }
}

/// The horizon of a partition lies at or below every bound of the ends of its
/// pieces that is not negative.
pub proof fn lemma_horizon_below(s: Seq<Piece>, key: Piece, h: int)
    requires
        h >= 0,
        forall|i: int| 0 <= i < s.len() && same_partition(#[trigger] s[i], key) ==> s[i].end <= h,
    ensures
        horizon(s, key) <= h,
    decreases s.len(),
{
    if s.len() > 0 {
        let prev = s.drop_last();
        assert forall|i: int| 0 <= i < prev.len() && same_partition(
            #[trigger] prev[i],
            key,
        ) implies prev[i].end <= h by {
            assert(prev[i] == s[i]);
        }
        lemma_horizon_below(prev, key, h);
        assert(s[s.len() - 1] == s.last());
    }
}

/// In a tiled list the last piece of a run ends at the horizon of its partition.
pub proof fn lemma_run_end_is_horizon(s: Seq<Piece>, i: int)
    requires
        tiled(s),
        0 <= i < s.len(),
        ends_run(s, i),
    ensures
        horizon(s, s[i]) == s[i].end,
{
    assert forall|k: int| 0 <= k < s.len() && same_partition(#[trigger] s[k], s[i]) implies s[k].end
        <= s[i].end by {
        if k < i {
            lemma_tiled_apart(s, k, i);
            lemma_tiled_pieces(s, i);
        } else if k > i {
            lemma_tiled_together(s, i, i + 1, k);
        }
    }
    assert(same_partition(s[i], s[i]));
    lemma_horizon_is(s, s[i], s[i].end as int);
}

/// Behind every block stands the last block of its run.
pub proof fn lemma_last_of_run(s: Seq<Piece>, i: int) -> (last: int)
    requires
        0 <= i < s.len(),
    ensures
        i <= last < s.len(),
        same_partition(s[i], s[last]),
        ends_run(s, last),
    decreases s.len() - i,
{
    if ends_run(s, i) {
        i
    } else {
        lemma_last_of_run(s, i + 1)
    }
}

/// No share ends behind the hours of its period.
pub proof fn lemma_share_within_hours(
    blocks: Seq<Piece>,
    mappings: Seq<PeriodMapping>,
    lengths: Seq<PeriodLength>,
    k: int,
    pl: Placement,
)
    requires
        coverable(blocks, mappings, lengths),
        counted(blocks, placements(mappings, lengths)),
        0 <= k < shares(
            placed(blocks, placements(mappings, lengths)),
            intervals(blocks, mappings),
        )->Some_0.len(),
        placements(mappings, lengths).contains(pl),
        shares(
            placed(blocks, placements(mappings, lengths)),
            intervals(blocks, mappings),
        )->Some_0[k].year == pl.year,
        shares(
            placed(blocks, placements(mappings, lengths)),
            intervals(blocks, mappings),
        )->Some_0[k].period == pl.period,
    ensures
        shares(
            placed(blocks, placements(mappings, lengths)),
            intervals(blocks, mappings),
        )->Some_0[k].end <= hours_of(pl),
{
    let places = placements(mappings, lengths);
    let cuts = intervals(blocks, mappings);
    let (bi, own, ci) = lemma_share_origin(blocks, mappings, lengths, k);
    lemma_share_facts(Placed { block: blocks[bi], placement: own }, cuts[ci]);
    lemma_resolution(places, own, pl);
    lemma_count(blocks, places, bi, own, pl);
    let (e, c, r) = (cuts[ci].end as int, pl.timestep_count as int, pl.resolution_hours as int);
    assert(e * r <= r * c) by (nonlinear_arith)
        requires
            e <= c,
            r >= 1,
    ;
}

/// A block does not end behind the number of timesteps of its period, and the last
/// block of a run ends at it.
pub proof fn lemma_count(
    blocks: Seq<Piece>,
    places: Seq<Placement>,
    bi: int,
    own: Placement,
    pl: Placement,
)
    requires
        counted(blocks, places),
        0 <= bi < blocks.len(),
        places.contains(own),
        places.contains(pl),
        placed_in(blocks[bi], own),
        own.year == pl.year,
        own.period == pl.period,
    ensures
        blocks[bi].end <= pl.timestep_count,
        ends_run(blocks, bi) ==> blocks[bi].end == pl.timestep_count,
{
    let i = choose|i: int| 0 <= i < places.len() && places[i] == own;
    let j = choose|j: int| 0 <= j < places.len() && places[j] == pl;
    assert(placed_in(blocks[bi], places[i]));
    assert(places[i].timestep_count == places[j].timestep_count);
}

/// The group of every placed block has a share that ends at the hours of the
/// period.
pub proof fn lemma_share_at_hours(
    blocks: Seq<Piece>,
    mappings: Seq<PeriodMapping>,
    lengths: Seq<PeriodLength>,
    bi: int,
    pl: Placement,
) -> (k: int)
    requires
        coverable(blocks, mappings, lengths),
        counted(blocks, placements(mappings, lengths)),
        0 <= bi < blocks.len(),
        placements(mappings, lengths).contains(pl),
        placed_in(blocks[bi], pl),
    ensures
        0 <= k < shares(
            placed(blocks, placements(mappings, lengths)),
            intervals(blocks, mappings),
        )->Some_0.len(),
        shares(
            placed(blocks, placements(mappings, lengths)),
            intervals(blocks, mappings),
        )->Some_0[k].group == blocks[bi].group,
        shares(
            placed(blocks, placements(mappings, lengths)),
            intervals(blocks, mappings),
        )->Some_0[k].year == pl.year,
        shares(
            placed(blocks, placements(mappings, lengths)),
            intervals(blocks, mappings),
        )->Some_0[k].period == pl.period,
        shares(
            placed(blocks, placements(mappings, lengths)),
            intervals(blocks, mappings),
        )->Some_0[k].end == hours_of(pl),
{
    let places = placements(mappings, lengths);
    let cuts = intervals(blocks, mappings);
    let all = shares(placed(blocks, places), cuts)->Some_0;
    let last = lemma_last_of_run(blocks, bi);
    let b = blocks[last];
    lemma_count(blocks, places, last, pl, pl);
    lemma_listed_placement(mappings, lengths, pl);
    let key = Piece { year: pl.year, period: pl.period as u64, ..b };
    lemma_block_start_is_boundary(blocks, mappings, lengths, last, pl, key);
    lemma_block_end_is_boundary(blocks, mappings, lengths, last, pl, key, b.end as int);
    let ci = lemma_cut_ending(blocks, mappings, key, b.end as int);
    lemma_cut_facts(blocks, mappings, ci);
    lemma_not_inside(blocks, mappings, cuts[ci], key, b.start - 1);
    lemma_share_listed(blocks, mappings, lengths, last, pl, ci);
    let p = Placed { block: b, placement: pl };
    lemma_share_facts(p, cuts[ci]);
    let y = share(p, cuts[ci])->Some_0;
    let (c, r) = (pl.timestep_count as int, pl.resolution_hours as int);
    assert(c * r == r * c) by (nonlinear_arith);
    choose|k: int| 0 <= k < all.len() && all[k] == y
}

/// The partition in which the blocks of the group of `block` lie once they are
/// placed by `pl`.
pub open spec fn placed_key(block: Piece, pl: Placement) -> Piece {
    Piece { year: pl.year, period: pl.period as u64, ..block }
}

/// The shares of a group in a period reach up to the hours of the period.
pub proof fn lemma_shares_horizon(
    blocks: Seq<Piece>,
    mappings: Seq<PeriodMapping>,
    lengths: Seq<PeriodLength>,
    bi: int,
    pl: Placement,
)
    requires
        coverable(blocks, mappings, lengths),
        counted(blocks, placements(mappings, lengths)),
        0 <= bi < blocks.len(),
        placements(mappings, lengths).contains(pl),
        placed_in(blocks[bi], pl),
    ensures
        horizon(
            shares(
                placed(blocks, placements(mappings, lengths)),
                intervals(blocks, mappings),
            )->Some_0,
            placed_key(blocks[bi], pl),
        ) == hours_of(pl),
{
    let all = shares(
        placed(blocks, placements(mappings, lengths)),
        intervals(blocks, mappings),
    )->Some_0;
    let key = placed_key(blocks[bi], pl);
    assert forall|k: int| 0 <= k < all.len() && same_partition(#[trigger] all[k], key) implies all[k].end
        <= hours_of(pl) by {
        lemma_share_within_hours(blocks, mappings, lengths, k, pl);
    }
    let k = lemma_share_at_hours(blocks, mappings, lengths, bi, pl);
    assert(same_partition(all[k], key));
    lemma_horizon_is(all, key, hours_of(pl));
}

/// Lists whose pieces lie on the same stretches have the same horizons.
pub proof fn lemma_horizon_same_places(a: Seq<Piece>, b: Seq<Piece>, key: Piece, h: int)
    requires
        horizon(a, key) == h,
        exists|i: int| 0 <= i < a.len() && same_partition(#[trigger] a[i], key),
        forall|i: int|
            0 <= i < a.len() ==> exists|k: int|
                0 <= k < b.len() && same_place(#[trigger] b[k], #[trigger] a[i]),
        forall|k: int|
            0 <= k < b.len() ==> exists|i: int|
                0 <= i < a.len() && same_place(#[trigger] b[k], #[trigger] a[i]),
    ensures
        horizon(b, key) == h,
{
    lemma_horizon_attained(a, key);
    let w = choose|i: int| 0 <= i < a.len() && same_partition(#[trigger] a[i], key) && a[i].end == h;
    let v = choose|k: int| 0 <= k < b.len() && same_place(#[trigger] b[k], #[trigger] a[w]);
    assert(same_partition(b[v], key) && b[v].end == h);
    assert forall|k: int| 0 <= k < b.len() && same_partition(#[trigger] b[k], key) implies b[k].end
        <= h by {
        let i = choose|i: int| 0 <= i < a.len() && same_place(#[trigger] b[k], #[trigger] a[i]);
        lemma_horizon_above(a, key, i);
    }
    lemma_horizon_is(b, key, h);
}

/// No piece of a partition ends behind the horizon of the partition.
pub proof fn lemma_horizon_above(s: Seq<Piece>, key: Piece, i: int)
    requires
        0 <= i < s.len(),
        same_partition(s[i], key),
    ensures
        s[i].end <= horizon(s, key),
    decreases s.len(),
{
    if i < s.len() - 1 {
        assert(s.drop_last()[i] == s[i]);
        lemma_horizon_above(s.drop_last(), key, i);
    }
}

/// Where a partition has a piece, one of its pieces ends at its horizon.
pub proof fn lemma_horizon_attained(s: Seq<Piece>, key: Piece)
    requires
        exists|i: int| 0 <= i < s.len() && same_partition(#[trigger] s[i], key),
    ensures
        exists|i: int|
            0 <= i < s.len() && same_partition(#[trigger] s[i], key) && s[i].end == horizon(s, key),
    decreases s.len(),
{
    let prev = s.drop_last();
    let w = choose|i: int| 0 <= i < s.len() && same_partition(#[trigger] s[i], key);
    if same_partition(s.last(), key) && s.last().end > horizon(prev, key) {
        assert(same_partition(s[s.len() - 1], key));
    } else {
        if w < s.len() - 1 {
            assert(same_partition(prev[w], key));
        } else {
            // The last piece lies in the partition and does not end behind the
            // horizon of the pieces before it: one of them lies in the partition.
            lemma_horizon_positive(prev, key);
            if !seen(prev, key) {
                lemma_horizon_unseen(prev, key);
                if s.last().end == 0 {
                    assert(same_partition(s[s.len() - 1], key) && s[s.len() - 1].end == horizon(
                        s,
                        key,
                    ));
                }
            }
        }
        if exists|i: int| 0 <= i < prev.len() && same_partition(#[trigger] prev[i], key) {
            lemma_horizon_attained(prev, key);
            let v = choose|i: int|
                0 <= i < prev.len() && same_partition(#[trigger] prev[i], key) && prev[i].end
                    == horizon(prev, key);
            assert(s[v] == prev[v]);
        }
    }
}

/// Gathering keeps the horizon of a partition that has a piece.
pub proof fn lemma_gathered_horizon(pieces: Seq<Piece>, key: Piece)
    requires
        gathered(pieces) is Some,
        seen(pieces, key),
    ensures
        horizon(gathered(pieces)->Some_0, key) == horizon(pieces, key),
        seen(gathered(pieces)->Some_0, key),
{
    let cells = gathered(pieces)->Some_0;
    lemma_gathered_places(pieces);
    let w = choose|i: int| 0 <= i < pieces.len() && same_partition(#[trigger] pieces[i], key);
    let c = choose|c: int|
        0 <= c < cells.len() && same_place(#[trigger] cells[c], #[trigger] pieces[w]);
    assert(same_partition(cells[c], key));
    lemma_horizon_same_places(pieces, cells, key, horizon(pieces, key));
}

/// Putting a piece into a list raises the horizon of its partition to its end, if
/// that lies behind the horizon, and leaves every other horizon.
pub proof fn lemma_inserted_horizon(s: Seq<Piece>, x: Piece, key: Piece)
    ensures
        horizon(inserted(s, x), key) == if same_partition(x, key) && x.end > horizon(s, key) {
            x.end as int
        } else {
            horizon(s, key)
        },
    decreases s.len(),
{
    if s.len() > 0 && precedes(x, s.last()) {
        lemma_inserted_horizon(s.drop_last(), x, key);
        assert(inserted(s, x).drop_last() =~= inserted(s.drop_last(), x));
    } else {
        assert(s.push(x).drop_last() =~= s);
    }
}

/// Arranging keeps the horizon of every partition.
pub proof fn lemma_arranged_horizon(s: Seq<Piece>, key: Piece)
    ensures
        horizon(arranged(s), key) == horizon(s, key),
    decreases s.len(),
{
    if s.len() > 0 {
        lemma_arranged_horizon(s.drop_last(), key);
        lemma_inserted_horizon(arranged(s.drop_last()), s.last(), key);
    }
}

/// The hours of the periods. Let the blocks fill their representative periods up
/// to the last timestep, and let the representative periods of each period agree
/// in resolution and number of timesteps. Then the weighted series of every group
/// in every period reaches up to the hours of the period: the resolution times
/// the number of timesteps.
pub proof fn lemma_weighted_horizon(
    blocks: Seq<Piece>,
    mappings: Seq<PeriodMapping>,
    lengths: Seq<PeriodLength>,
    bi: int,
    pl: Placement,
)
    requires
        coverable(blocks, mappings, lengths),
        counted(blocks, placements(mappings, lengths)),
        weighted(blocks, mappings, lengths, intervals(blocks, mappings)) is Some,
        0 <= bi < blocks.len(),
        placements(mappings, lengths).contains(pl),
        placed_in(blocks[bi], pl),
    ensures
        horizon(
            compacted(weighted(blocks, mappings, lengths, intervals(blocks, mappings))->Some_0),
            placed_key(blocks[bi], pl),
        ) == hours_of(pl),
{
    let all = shares(
        placed(blocks, placements(mappings, lengths)),
        intervals(blocks, mappings),
    )->Some_0;
    let key = placed_key(blocks[bi], pl);
    lemma_shares_horizon(blocks, mappings, lengths, bi, pl);
    let k = lemma_share_at_hours(blocks, mappings, lengths, bi, pl);
    assert(same_partition(all[k], key));
    lemma_gathered_horizon(all, key);
    lemma_arranged_horizon(gathered(all)->Some_0, key);
    lemma_compacted_horizon(arranged(gathered(all)->Some_0), key);
}

/// No placed block ends behind the number of timesteps of its representative
/// period, and every last block of a run but the last of the list ends at it.
pub open spec fn counted_inside(blocks: Seq<Piece>, places: Seq<Placement>) -> bool {
    forall|i: int, j: int|
        0 <= i < blocks.len() && 0 <= j < places.len() && placed_in(
            #[trigger] blocks[i],
            #[trigger] places[j],
        ) ==> blocks[i].end <= places[j].timestep_count && (i < blocks.len() - 1 && ends_run(
            blocks,
            i,
        ) ==> blocks[i].end == places[j].timestep_count)
}

/// The last compacted block ends where the last of the blocks ends, where the
/// blocks fill their representative periods.
pub proof fn lemma_compacted_last_end(rows: Seq<Piece>)
    requires
        filled(rows),
        rows.len() > 0,
    ensures
        compacted(rows).len() > 0,
        compacted(rows).last().end == rows.last().end,
        same_partition(compacted(rows).last(), rows.last()),
{
    lemma_compacted_lowered(rows);
    lemma_compacted_tiled(lowered(rows));
    lemma_compacted_seen(rows, rows.last());
    let c = compacted(rows);
    assert(lowered(c).last() == (Piece { start: (c.last().start - 1) as u64, ..c.last() }));
    assert(lowered(rows).last() == (Piece {
        start: (rows.last().start - 1) as u64,
        ..rows.last()
    }));
}

/// Compaction keeps the blocks within the timesteps of their representative
/// periods.
pub proof fn lemma_compacted_counted_inside(rows: Seq<Piece>, places: Seq<Placement>)
    requires
        filled(rows),
        counted_inside(rows, places),
    ensures
        counted_inside(compacted(rows), places),
    decreases rows.len(),
{
    if rows.len() > 0 {
        let prev = rows.drop_last();
        let r = rows.last();
        let b = compacted(prev);
        let c = compacted(rows);
        assert(filled(prev)) by {
            assert(lowered(rows).drop_last() =~= lowered(prev));
            assert forall|i: int| 0 <= i < prev.len() implies (#[trigger] prev[i]).start >= 1 by {
                assert(prev[i] == rows[i]);
            }
        }
        assert(counted_inside(prev, places)) by {
            assert forall|i: int, j: int|
                0 <= i < prev.len() && 0 <= j < places.len() && placed_in(
                    #[trigger] prev[i],
                    #[trigger] places[j],
                ) implies prev[i].end <= places[j].timestep_count && (i < prev.len() - 1
                && ends_run(prev, i) ==> prev[i].end == places[j].timestep_count) by {
                assert(prev[i] == rows[i]);
                assert(placed_in(rows[i], places[j]));
                if i < prev.len() - 1 {
                    assert(prev[i + 1] == rows[i + 1]);
                }
            }
        }
        lemma_compacted_counted_inside(prev, places);
        if prev.len() > 0 {
            lemma_compacted_last_end(prev);
        }
        lemma_compacted_last_end(rows);
        assert forall|i: int, j: int|
            0 <= i < c.len() && 0 <= j < places.len() && placed_in(
                #[trigger] c[i],
                #[trigger] places[j],
            ) implies c[i].end <= places[j].timestep_count && (i < c.len() - 1 && ends_run(c, i)
            ==> c[i].end == places[j].timestep_count) by {
            if i < c.len() - 1 {
                assert(c[i] == b[i]);
                assert(placed_in(b[i], places[j]));
                if i == b.len() - 1 {
                    // The block before the new last block: it ends its run in the
                    // rows too.
                    assert(placed_in(rows[rows.len() - 2], places[j]));
                } else {
                    assert(c[i + 1] == b[i + 1] || i + 1 == c.len() - 1);
                    if i + 1 == c.len() - 1 {
                        assert(same_partition(c[i + 1], b[i + 1]));
                    }
                }
            } else {
                assert(placed_in(rows[rows.len() - 1], places[j]));
            }
        }
    }
}

/// Compaction keeps the blocks reaching the last timestep.
pub proof fn lemma_compacted_counted(rows: Seq<Piece>, places: Seq<Placement>)
    requires
        filled(rows),
        counted(rows, places),
    ensures
        counted(compacted(rows), places),
{
    let c = compacted(rows);
    assert(counted_inside(rows, places)) by {
        assert forall|i: int, j: int|
            0 <= i < rows.len() && 0 <= j < places.len() && placed_in(
                #[trigger] rows[i],
                #[trigger] places[j],
            ) implies rows[i].end <= places[j].timestep_count && (i < rows.len() - 1 && ends_run(
            rows,
            i,
        ) ==> rows[i].end == places[j].timestep_count) by {}
    }
    lemma_compacted_counted_inside(rows, places);
    if rows.len() > 0 {
        lemma_compacted_last_end(rows);
    }
    assert forall|i: int, j: int|
        0 <= i < c.len() && 0 <= j < places.len() && placed_in(
            #[trigger] c[i],
            #[trigger] places[j],
        ) implies c[i].end <= places[j].timestep_count && (ends_run(c, i) ==> c[i].end
        == places[j].timestep_count) by {
        if i == c.len() - 1 {
            assert(placed_in(rows[rows.len() - 1], places[j]));
            assert(ends_run(rows, rows.len() - 1));
        }
    }
}

/// A partition that the arranged list has seen, the list has seen.
pub proof fn lemma_arranged_seen(s: Seq<Piece>, x: Piece)
    requires
        seen(arranged(s), x),
    ensures
        seen(s, x),
{
    let a = arranged(s);
    lemma_arranged_same_pieces(s);
    let j = choose|j: int| 0 <= j < a.len() && same_partition(#[trigger] a[j], x);
    assert(s.contains(a[j]));
    let i = choose|i: int| 0 <= i < s.len() && s[i] == a[j];
    assert(same_partition(s[i], x));
}

/// A partition that the cells have seen, the pieces have seen.
pub proof fn lemma_gathered_seen(pieces: Seq<Piece>, x: Piece)
    requires
        gathered(pieces) is Some,
        seen(gathered(pieces)->Some_0, x),
    ensures
        seen(pieces, x),
{
    let cells = gathered(pieces)->Some_0;
    lemma_gathered_places(pieces);
    let k = choose|k: int| 0 <= k < cells.len() && same_partition(#[trigger] cells[k], x);
    let a = choose|a: int|
        0 <= a < pieces.len() && same_place(#[trigger] cells[k], #[trigger] pieces[a]);
    assert(same_partition(pieces[a], x));
}

/// Every partition of the series of the periods is that of a group that has a
/// block, in a period that the block's representative period stands in.
pub proof fn lemma_local_origin(
    blocks: Seq<Piece>,
    mappings: Seq<PeriodMapping>,
    lengths: Seq<PeriodLength>,
    x: Piece,
) -> (origin: (int, Placement))
    requires
        weighted(blocks, mappings, lengths, intervals(blocks, mappings)) is Some,
        seen(
            compacted(weighted(blocks, mappings, lengths, intervals(blocks, mappings))->Some_0),
            x,
        ),
    ensures
        0 <= origin.0 < blocks.len(),
        placements(mappings, lengths).contains(origin.1),
        placed_in(blocks[origin.0], origin.1),
        same_partition(placed_key(blocks[origin.0], origin.1), x),
{
    let cuts = intervals(blocks, mappings);
    let all = shares(placed(blocks, placements(mappings, lengths)), cuts)->Some_0;
    let cells = gathered(all)->Some_0;
    lemma_compacted_seen(arranged(cells), x);
    lemma_arranged_seen(cells, x);
    lemma_gathered_seen(all, x);
    let k = choose|k: int| 0 <= k < all.len() && same_partition(#[trigger] all[k], x);
    let (bi, pl, ci) = lemma_share_origin(blocks, mappings, lengths, k);
    lemma_share_facts(Placed { block: blocks[bi], placement: pl }, cuts[ci]);
    (bi, pl)
}

/// Where the representative periods of each period agree in resolution and number
/// of timesteps, the hours of a period are those of any of them.
pub proof fn lemma_duration_is(places: Seq<Placement>, blocks: Seq<Piece>, pl: Placement)
    requires
        resolutions_agree(places),
        counted(blocks, places),
        places.contains(pl),
    ensures
        duration(places, pl.year, pl.period as u64) == hours_of(pl),
    decreases places.len(),
{
    let k = choose|k: int| 0 <= k < places.len() && places[k] == pl;
    lemma_duration_found(places, pl.year, pl.period as u64, k);
    let j = choose|j: int|
        0 <= j < places.len() && (#[trigger] places[j]).year == pl.year && places[j].period as u64
            == pl.period as u64 && duration(places, pl.year, pl.period as u64)
            == places[j].resolution_hours * places[j].timestep_count;
    assert(places[j].year == places[k].year && places[j].period == places[k].period);
    assert(places[j].resolution_hours == places[k].resolution_hours);
    assert(places[j].timestep_count == places[k].timestep_count);
}

/// Where a representative period stands for a period, the hours of the period are
/// those of such a representative period.
pub proof fn lemma_duration_found(places: Seq<Placement>, year: u32, period: u64, k: int)
    requires
        0 <= k < places.len(),
        places[k].year == year,
        places[k].period as u64 == period,
    ensures
        exists|j: int|
            0 <= j < places.len() && (#[trigger] places[j]).year == year && places[j].period as u64
                == period && duration(places, year, period) == places[j].resolution_hours
                * places[j].timestep_count,
    decreases places.len(),
{
    let pl = places.last();
    if pl.year == year && pl.period as u64 == period {
        assert(places[places.len() - 1] == pl);
    } else {
        lemma_duration_found(places.drop_last(), year, period, k);
        let j = choose|j: int|
            0 <= j < places.drop_last().len() && (#[trigger] places.drop_last()[j]).year == year
                && places.drop_last()[j].period as u64 == period && duration(
                places.drop_last(),
                year,
                period,
            ) == places.drop_last()[j].resolution_hours * places.drop_last()[j].timestep_count;
        assert(places[j] == places.drop_last()[j]);
    }
}

/// The hours of a period on the global axis. Let the blocks fill their
/// representative periods up to the last timestep, and let the representative
/// periods of each period agree in resolution and number of timesteps. Then in
/// the series of the periods the last piece of every period ends at the
/// resolution times the number of timesteps of a representative period of that
/// period; and these are the hours that the global axis counts for the period.
pub proof fn lemma_period_hours(
    blocks: Seq<Piece>,
    mappings: Seq<PeriodMapping>,
    lengths: Seq<PeriodLength>,
    i: int,
) -> (pl: Placement)
    requires
        coverable(blocks, mappings, lengths),
        counted(blocks, placements(mappings, lengths)),
        weighted(blocks, mappings, lengths, intervals(blocks, mappings)) is Some,
        0 <= i < compacted(
            weighted(blocks, mappings, lengths, intervals(blocks, mappings))->Some_0,
        ).len(),
        ends_run(
            compacted(weighted(blocks, mappings, lengths, intervals(blocks, mappings))->Some_0),
            i,
        ),
    ensures
        placements(mappings, lengths).contains(pl),
        pl.year == compacted(
            weighted(blocks, mappings, lengths, intervals(blocks, mappings))->Some_0,
        )[i].year,
        pl.period == compacted(
            weighted(blocks, mappings, lengths, intervals(blocks, mappings))->Some_0,
        )[i].period,
        compacted(weighted(blocks, mappings, lengths, intervals(blocks, mappings))->Some_0)[i].end
            == hours_of(pl),
        duration(
            placements(mappings, lengths),
            pl.year,
            compacted(
                weighted(blocks, mappings, lengths, intervals(blocks, mappings))->Some_0,
            )[i].period,
        ) == hours_of(pl),
{
    let series = weighted(blocks, mappings, lengths, intervals(blocks, mappings))->Some_0;
    let local = compacted(series);
    lemma_weighted_tiled(blocks, mappings, lengths);
    lemma_compacted_tiled(series);
    assert(same_partition(local[i], local[i]));
    let (bi, pl) = lemma_local_origin(blocks, mappings, lengths, local[i]);
    lemma_weighted_horizon(blocks, mappings, lengths, bi, pl);
    lemma_run_end_is_horizon(local, i);
    lemma_horizon_same_key(local, placed_key(blocks[bi], pl), local[i]);
    lemma_duration_is(placements(mappings, lengths), blocks, pl);
    pl
}

/// The series of the periods covers every period up to its hours.
pub proof fn lemma_local_reaches(
    blocks: Seq<Piece>,
    mappings: Seq<PeriodMapping>,
    lengths: Seq<PeriodLength>,
)
    requires
        coverable(blocks, mappings, lengths),
        counted(blocks, placements(mappings, lengths)),
        weighted(blocks, mappings, lengths, intervals(blocks, mappings)) is Some,
    ensures
        reaches(
            compacted(weighted(blocks, mappings, lengths, intervals(blocks, mappings))->Some_0),
            placements(mappings, lengths),
        ),
{
    let local = compacted(
        weighted(blocks, mappings, lengths, intervals(blocks, mappings))->Some_0,
    );
    let places = placements(mappings, lengths);
    assert forall|i: int| 0 <= i < local.len() && ends_run(local, i) implies (
    #[trigger] local[i]).end == duration(places, local[i].year, local[i].period) by {
        let pl = lemma_period_hours(blocks, mappings, lengths, i);
    }
}

} // verus!
