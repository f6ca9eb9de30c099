//! Coverage of the periods: where the blocks of every entity fill their
//! representative periods, the weighted series covers every period from its start
//! without gap or overlap.
use crate::arrange::{
    arranged, inserted, lemma_arranged, lemma_arranged_same_pieces, ordered, precedes,
};
use crate::compaction::{compacted, continues, lemma_compacted_tiled};
use crate::gather::{gathered, lemma_gathered_places};
use crate::intervals::{
    clear_inside, intervals, is_boundary, joins, lemma_boundary_same_key, lemma_intervals,
    lemma_paired_ordered, marks,
};
use crate::model::{PeriodLength, PeriodMapping};
use crate::series::{fits_after, lemma_tiled_pieces, same_partition, same_place, seen, tiled, Piece};
use crate::weighting::{
    holds, is_placed, is_placement, is_share, is_share_of, lemma_placed, lemma_placements,
    lemma_shares, measures, placed, placed_in, placement_from, placement_of, placements, share,
    shares, weighted, Placed, Placement,
};
use vstd::prelude::*;

verus! {

/// No piece is an empty stretch.
pub open spec fn nonempty(s: Seq<Piece>) -> bool {
    forall|i: int| 0 <= i < s.len() ==> (#[trigger] s[i]).start < s[i].end
}

/// The stretches of both pieces have no hour in common.
pub open spec fn disjoint(a: Piece, b: Piece) -> bool {
    a.end <= b.start || b.end <= a.start
}

/// No two pieces of one partition have an hour in common.
pub open spec fn apart(s: Seq<Piece>) -> bool {
    forall|i: int, j: int|
        0 <= i < j < s.len() && same_partition(s[i], s[j]) ==> disjoint(s[i], s[j])
}

/// Some piece of the partition of `x` ends where `x` starts.
pub open spec fn has_before(s: Seq<Piece>, x: Piece) -> bool {
    exists|k: int| 0 <= k < s.len() && same_partition(#[trigger] s[k], x) && s[k].end == x.start
}

/// Every piece that does not start at hour zero starts where another piece of its
/// partition ends.
pub open spec fn chained(s: Seq<Piece>) -> bool {
    forall|i: int| 0 <= i < s.len() && (#[trigger] s[i]).start > 0 ==> has_before(s, s[i])
}

/// A list in order, without empty pieces, whose pieces lie apart and each start at
/// zero or where another ends, is tiled up to every place.
pub proof fn lemma_chain_tiled_upto(s: Seq<Piece>, n: int)
    requires
        ordered(s),
        nonempty(s),
        apart(s),
        chained(s),
        0 <= n <= s.len(),
    ensures
        tiled(s.take(n)),
    decreases n,
{
    if n > 0 {
        lemma_chain_tiled_upto(s, n - 1);
        let upto = s.take(n);
        let x = s[n - 1];
        assert(upto.drop_last() =~= s.take(n - 1));
        assert(upto.last() == x);
        let before = s.take(n - 1);
        assert(x.start < x.end);
        // A piece of the partition that ends where `x` starts stands before `x`.
        if x.start > 0 {
            assert(has_before(s, s[n - 1]));
            let k = choose|k: int|
                0 <= k < s.len() && same_partition(#[trigger] s[k], x) && s[k].end == x.start;
            assert(s[k].start < s[k].end);
            if k > n - 1 {
                assert(!precedes(s[k], s[n - 1]));
            }
            assert(k < n - 1);
            assert(before[k] == s[k]);
            assert(seen(before, x));
            if n > 1 {
                assert(!precedes(s[n - 1], s[n - 2]));
                assert(!precedes(s[n - 2], s[k]));
                assert(same_partition(s[n - 2], x));
                assert(before.last() == s[n - 2]);
                assert(s[n - 2].start < s[n - 2].end);
                if k < n - 2 {
                    assert(disjoint(s[k], s[n - 2]));
                }
                assert(disjoint(s[n - 2], s[n - 1]));
            }
        } else {
            if n > 1 && same_partition(s[n - 2], x) {
                assert(!precedes(s[n - 1], s[n - 2]));
                assert(s[n - 2].start < s[n - 2].end);
                assert(disjoint(s[n - 2], s[n - 1]));
                assert(false);
            }
            if seen(before, x) {
                let k = choose|k: int| 0 <= k < before.len() && same_partition(#[trigger] before[k], x);
                assert(before[k] == s[k]);
                assert(!precedes(s[n - 1], s[n - 2]));
                if k < n - 2 {
                    assert(!precedes(s[n - 2], s[k]));
                }
                assert(false);
            }
            if n > 1 {
                assert(before.last() == s[n - 2]);
            }
        }
        assert(fits_after(before, x));
    }
}

/// A list in order, without empty pieces, whose pieces lie apart and each start at
/// zero or where another ends, is tiled.
pub proof fn lemma_chain_tiled(s: Seq<Piece>)
    requires
        ordered(s),
        nonempty(s),
        apart(s),
        chained(s),
    ensures
        tiled(s),
{
    lemma_chain_tiled_upto(s, s.len() as int);
    assert(s.take(s.len() as int) =~= s);
}

/// Putting a piece into a list keeps the pieces apart where the piece lies apart
/// from all of them.
pub proof fn lemma_inserted_apart(s: Seq<Piece>, x: Piece)
    requires
        apart(s),
        forall|k: int| 0 <= k < s.len() && same_partition(#[trigger] s[k], x) ==> disjoint(s[k], x),
    ensures
        apart(inserted(s, x)),
        forall|k: int|
            0 <= k < inserted(s, x).len() ==> (#[trigger] inserted(s, x)[k]) == x || s.contains(
                inserted(s, x)[k],
            ),
    decreases s.len(),
{
    if s.len() > 0 && precedes(x, s.last()) {
        let rest = s.drop_last();
        assert(apart(rest)) by {
            assert forall|i: int, j: int|
                0 <= i < j < rest.len() && same_partition(rest[i], rest[j]) implies disjoint(
                rest[i],
                rest[j],
            ) by {
                assert(disjoint(s[i], s[j]));
            }
        }
        assert forall|k: int| 0 <= k < rest.len() && same_partition(
            #[trigger] rest[k],
            x,
        ) implies disjoint(rest[k], x) by {
            assert(rest[k] == s[k]);
        }
        lemma_inserted_apart(rest, x);
        let r = inserted(rest, x);
        let out = r.push(s.last());
        assert forall|k: int| 0 <= k < out.len() implies (#[trigger] out[k]) == x || s.contains(
            out[k],
        ) by {
            if k < r.len() {
                if r[k] != x {
                    let a = choose|a: int| 0 <= a < rest.len() && rest[a] == r[k];
                    assert(s[a] == r[k]);
                }
            } else {
                assert(s[s.len() - 1] == out[k]);
            }
        }
        assert forall|i: int, j: int|
            0 <= i < j < out.len() && same_partition(out[i], out[j]) implies disjoint(
            out[i],
            out[j],
        ) by {
            if j < r.len() {
                assert(disjoint(r[i], r[j]));
            } else {
                if r[i] == x {
                    assert(disjoint(s[s.len() - 1], x));
                } else {
                    let a = choose|a: int| 0 <= a < rest.len() && rest[a] == r[i];
                    assert(disjoint(s[a], s[s.len() - 1]));
                }
            }
        }
    } else {
        let out = s.push(x);
        assert forall|k: int| 0 <= k < out.len() implies (#[trigger] out[k]) == x || s.contains(
            out[k],
        ) by {
            if k < s.len() {
                assert(s[k] == out[k]);
            }
        }
        assert forall|i: int, j: int|
            0 <= i < j < out.len() && same_partition(out[i], out[j]) implies disjoint(
            out[i],
            out[j],
        ) by {
            if j < s.len() {
                assert(disjoint(s[i], s[j]));
            } else {
                assert(disjoint(s[i], x));
            }
        }
    }
}

/// Arranging keeps the pieces apart.
pub proof fn lemma_arranged_apart(s: Seq<Piece>)
    requires
        apart(s),
    ensures
        apart(arranged(s)),
    decreases s.len(),
{
    if s.len() > 0 {
        let prev = s.drop_last();
        let x = s.last();
        assert(apart(prev)) by {
            assert forall|i: int, j: int|
                0 <= i < j < prev.len() && same_partition(prev[i], prev[j]) implies disjoint(
                prev[i],
                prev[j],
            ) by {
                assert(disjoint(s[i], s[j]));
            }
        }
        lemma_arranged_apart(prev);
        lemma_arranged_same_pieces(prev);
        let a = arranged(prev);
        assert forall|k: int| 0 <= k < a.len() && same_partition(#[trigger] a[k], x) implies disjoint(
            a[k],
            x,
        ) by {
            assert(prev.contains(a[k]));
            let i = choose|i: int| 0 <= i < prev.len() && prev[i] == a[k];
            assert(disjoint(s[i], s[s.len() - 1]));
        }
        lemma_inserted_apart(a, x);
    }
}

/// Arranging a list whose pieces are not empty, lie apart, and each start at zero
/// or where another ends, gives a tiled list.
pub proof fn lemma_arranged_tiled(s: Seq<Piece>)
    requires
        nonempty(s),
        apart(s),
        chained(s),
    ensures
        tiled(arranged(s)),
        ordered(arranged(s)),
{
    let a = arranged(s);
    lemma_arranged(s);
    lemma_arranged_same_pieces(s);
    lemma_arranged_apart(s);
    assert forall|i: int| 0 <= i < a.len() implies (#[trigger] a[i]).start < a[i].end by {
        assert(s.contains(a[i]));
        let k = choose|k: int| 0 <= k < s.len() && s[k] == a[i];
        assert(s[k].start < s[k].end);
    }
    assert forall|i: int| 0 <= i < a.len() && (#[trigger] a[i]).start > 0 implies has_before(
        a,
        a[i],
    ) by {
        assert(s.contains(a[i]));
        let k = choose|k: int| 0 <= k < s.len() && s[k] == a[i];
        assert(has_before(s, s[k]));
        let b = choose|b: int|
            0 <= b < s.len() && same_partition(#[trigger] s[b], s[k]) && s[b].end == s[k].start;
        assert(a.contains(s[b]));
        let c = choose|c: int| 0 <= c < a.len() && a[c] == s[b];
        assert(same_partition(a[c], a[i]));
    }
    lemma_chain_tiled(a);
}

/// Two pieces of one partition lie on the same stretch or have no hour in common.
pub open spec fn aligned(s: Seq<Piece>) -> bool {
    forall|i: int, j: int|
        0 <= i < s.len() && 0 <= j < s.len() && same_partition(s[i], s[j]) ==> (s[i].start
            == s[j].start && s[i].end == s[j].end) || disjoint(s[i], s[j])
}

/// Gathering pieces that are not empty, are aligned and each start at zero or
/// where another ends gives cells that are not empty, lie apart, and each start
/// at zero or where another ends.
pub proof fn lemma_gathered_chain(pieces: Seq<Piece>)
    requires
        nonempty(pieces),
        aligned(pieces),
        chained(pieces),
        gathered(pieces) is Some,
    ensures
        nonempty(gathered(pieces)->Some_0),
        apart(gathered(pieces)->Some_0),
        chained(gathered(pieces)->Some_0),
{
    let cells = gathered(pieces)->Some_0;
    lemma_gathered_places(pieces);
    assert forall|i: int| 0 <= i < cells.len() implies (#[trigger] cells[i]).start
        < cells[i].end by {
        let a = choose|a: int|
            0 <= a < pieces.len() && same_place(#[trigger] cells[i], #[trigger] pieces[a]);
        assert(pieces[a].start < pieces[a].end);
    }
    assert forall|i: int, j: int|
        0 <= i < j < cells.len() && same_partition(cells[i], cells[j]) implies disjoint(
        cells[i],
        cells[j],
    ) by {
        let a = choose|a: int|
            0 <= a < pieces.len() && same_place(#[trigger] cells[i], #[trigger] pieces[a]);
        let b = choose|b: int|
            0 <= b < pieces.len() && same_place(#[trigger] cells[j], #[trigger] pieces[b]);
        assert(same_partition(pieces[a], pieces[b]));
        assert(!same_place(cells[i], cells[j]));
    }
    assert forall|i: int| 0 <= i < cells.len() && (#[trigger] cells[i]).start > 0 implies has_before(
        cells,
        cells[i],
    ) by {
        let a = choose|a: int|
            0 <= a < pieces.len() && same_place(#[trigger] cells[i], #[trigger] pieces[a]);
        assert(has_before(pieces, pieces[a]));
        let b = choose|b: int|
            0 <= b < pieces.len() && same_partition(#[trigger] pieces[b], pieces[a])
                && pieces[b].end == pieces[a].start;
        let k = choose|k: int|
            0 <= k < cells.len() && same_place(#[trigger] cells[k], #[trigger] pieces[b]);
        assert(same_partition(cells[k], cells[i]));
    }
}

/// The blocks counted from zero: each block on the timesteps from one before its
/// start up to, not including, its end.
pub open spec fn lowered(s: Seq<Piece>) -> Seq<Piece> {
    Seq::new(s.len(), |i: int| Piece { start: (s[i].start - 1) as u64, ..s[i] })
}

/// The blocks fill their representative periods: in every partition the first
/// block starts at timestep one, every block reaches at least its start, and each
/// next block starts one timestep after the end of the block before it.
pub open spec fn filled(s: Seq<Piece>) -> bool {
    &&& forall|i: int| 0 <= i < s.len() ==> (#[trigger] s[i]).start >= 1
    &&& tiled(lowered(s))
}

/// The resolutions are hours, and all the representative periods that one period
/// stands for have the same resolution.
pub open spec fn resolutions_agree(places: Seq<Placement>) -> bool {
    &&& forall|i: int| 0 <= i < places.len() ==> (#[trigger] places[i]).resolution_hours >= 1
    &&& forall|i: int, j: int|
        0 <= i < places.len() && 0 <= j < places.len() && (#[trigger] places[i]).year == (
        #[trigger] places[j]).year && places[i].period == places[j].period
            ==> places[i].resolution_hours == places[j].resolution_hours
}

/// Compaction and counting from zero may change places.
pub proof fn lemma_compacted_lowered(rows: Seq<Piece>)
    requires
        forall|i: int| 0 <= i < rows.len() ==> (#[trigger] rows[i]).start >= 1,
    ensures
        compacted(lowered(rows)) == lowered(compacted(rows)),
        forall|i: int| 0 <= i < compacted(rows).len() ==> (#[trigger] compacted(rows)[i]).start >= 1,
    decreases rows.len(),
{
    if rows.len() > 0 {
        let prev = rows.drop_last();
        assert forall|i: int| 0 <= i < prev.len() implies (#[trigger] prev[i]).start >= 1 by {
            assert(prev[i] == rows[i]);
        }
        lemma_compacted_lowered(prev);
        assert(lowered(rows).drop_last() =~= lowered(prev));
        assert(lowered(rows).last() == (Piece {
            start: (rows.last().start - 1) as u64,
            ..rows.last()
        }));
        let b = compacted(prev);
        let c = compacted(rows);
        assert(rows[rows.len() - 1].start >= 1);
        if b.len() > 0 {
            assert(lowered(b).last() == (Piece { start: (b.last().start - 1) as u64, ..b.last() }));
            assert(b[b.len() - 1].start >= 1);
        }
        assert(compacted(lowered(rows)) =~= lowered(c)) by {
            if b.len() > 0 && continues(b.last(), rows.last()) {
                assert(lowered(b).drop_last() =~= lowered(b.drop_last()));
            }
        }
        assert forall|i: int| 0 <= i < c.len() implies (#[trigger] c[i]).start >= 1 by {
            if i < c.len() - 1 {
                assert(c[i] == b[i]);
            }
        }
    } else {
        assert(compacted(lowered(rows)) =~= lowered(compacted(rows)));
    }
}

/// Compaction keeps the blocks filling their representative periods.
pub proof fn lemma_compacted_filled(rows: Seq<Piece>)
    requires
        filled(rows),
    ensures
        filled(compacted(rows)),
{
    lemma_compacted_lowered(rows);
    lemma_compacted_tiled(lowered(rows));
}

/// What a share is made of: the group and year of its block, the period of its
/// placement, and the hours of its interval.
pub proof fn lemma_share_facts(p: Placed, c: Piece)
    requires
        share(p, c) is Some,
    ensures
        share(p, c)->Some_0.group == p.block.group,
        share(p, c)->Some_0.year == p.block.year,
        share(p, c)->Some_0.period == p.placement.period,
        share(p, c)->Some_0.start == c.start * p.placement.resolution_hours,
        share(p, c)->Some_0.end == c.end * p.placement.resolution_hours,
{
}

/// The start of a block that fills its period, counted from zero, is zero or the
/// end of the block before it, which lies in the same partition.
pub proof fn lemma_filled_block(blocks: Seq<Piece>, i: int)
    requires
        filled(blocks),
        0 <= i < blocks.len(),
    ensures
        1 <= blocks[i].start <= blocks[i].end,
        blocks[i].start == 1 || (i > 0 && same_partition(blocks[i - 1], blocks[i]) && blocks[i
            - 1].end + 1 == blocks[i].start),
{
    let low = lowered(blocks);
    lemma_tiled_pieces(low, i);
    assert(low[i] == (Piece { start: (blocks[i].start - 1) as u64, ..blocks[i] }));
    if i > 0 {
        assert(low[i - 1] == (Piece { start: (blocks[i - 1].start - 1) as u64, ..blocks[i - 1] }));
    }
}

/// The facts about the inputs on which the coverage of the periods rests.
pub open spec fn coverable(
    blocks: Seq<Piece>,
    mappings: Seq<PeriodMapping>,
    lengths: Seq<PeriodLength>,
) -> bool {
    &&& filled(blocks)
    &&& resolutions_agree(placements(mappings, lengths))
    &&& shares(
        placed(blocks, placements(mappings, lengths)),
        intervals(blocks, mappings),
    ) is Some
}

/// The end of a block is a boundary of every period that the block's
/// representative period stands in.
pub proof fn lemma_block_end_is_boundary(
    blocks: Seq<Piece>,
    mappings: Seq<PeriodMapping>,
    lengths: Seq<PeriodLength>,
    i: int,
    pl: Placement,
    key: Piece,
    t: int,
)
    requires
        0 <= i < blocks.len(),
        is_placement(pl, mappings, lengths),
        placed_in(blocks[i], pl),
        key.year == pl.year,
        key.period == pl.period,
        t == 0 || t == blocks[i].end,
    ensures
        is_boundary(blocks, mappings, key, t),
{
    let m = choose|m: int| 0 <= m < mappings.len() && placement_from(pl, #[trigger] mappings[m], lengths);
    let d = choose|d: int|
        0 <= d < lengths.len() && measures(#[trigger] lengths[d], mappings[m]) && pl
            == placement_of(mappings[m], lengths[d]);
    assert(joins(blocks[i], mappings[m]));
}

/// An interval lies between two boundaries of its period, the second later than
/// the first, with no boundary between them.
pub proof fn lemma_cut_facts(blocks: Seq<Piece>, mappings: Seq<PeriodMapping>, ci: int)
    requires
        0 <= ci < intervals(blocks, mappings).len(),
    ensures
        intervals(blocks, mappings)[ci].group == 0,
        intervals(blocks, mappings)[ci].start < intervals(blocks, mappings)[ci].end,
        is_boundary(
            blocks,
            mappings,
            intervals(blocks, mappings)[ci],
            intervals(blocks, mappings)[ci].start as int,
        ),
        is_boundary(
            blocks,
            mappings,
            intervals(blocks, mappings)[ci],
            intervals(blocks, mappings)[ci].end as int,
        ),
        clear_inside(blocks, mappings, intervals(blocks, mappings)[ci]),
{
    lemma_intervals(blocks, mappings);
}

/// An interval that does not start at zero starts where another interval of its
/// period ends.
pub proof fn lemma_cut_before(blocks: Seq<Piece>, mappings: Seq<PeriodMapping>, ci: int) -> (k: int)
    requires
        0 <= ci < intervals(blocks, mappings).len(),
        intervals(blocks, mappings)[ci].start > 0,
    ensures
        0 <= k < intervals(blocks, mappings).len(),
        intervals(blocks, mappings)[k].year == intervals(blocks, mappings)[ci].year,
        intervals(blocks, mappings)[k].period == intervals(blocks, mappings)[ci].period,
        intervals(blocks, mappings)[k].end == intervals(blocks, mappings)[ci].start,
{
    lemma_intervals(blocks, mappings);
    let cuts = intervals(blocks, mappings);
    let c = cuts[ci];
    assert(is_boundary(blocks, mappings, c, c.start as int));
    choose|k: int|
        0 <= k < cuts.len() && (#[trigger] cuts[k]).year == c.year && cuts[k].period == c.period
            && cuts[k].end == c.start
}

/// Every boundary of a period but its start ends an interval of the period.
pub proof fn lemma_cut_ending(
    blocks: Seq<Piece>,
    mappings: Seq<PeriodMapping>,
    key: Piece,
    t: int,
) -> (k: int)
    requires
        t > 0,
        is_boundary(blocks, mappings, key, t),
    ensures
        0 <= k < intervals(blocks, mappings).len(),
        intervals(blocks, mappings)[k].year == key.year,
        intervals(blocks, mappings)[k].period == key.period,
        intervals(blocks, mappings)[k].end == t,
{
    lemma_intervals(blocks, mappings);
    let cuts = intervals(blocks, mappings);
    choose|k: int|
        0 <= k < cuts.len() && (#[trigger] cuts[k]).year == key.year && cuts[k].period
            == key.period && cuts[k].end == t
}

/// A boundary of the period of an interval does not lie strictly inside it.
pub proof fn lemma_not_inside(
    blocks: Seq<Piece>,
    mappings: Seq<PeriodMapping>,
    c: Piece,
    key: Piece,
    t: int,
)
    requires
        clear_inside(blocks, mappings, c),
        key.year == c.year,
        key.period == c.period,
        is_boundary(blocks, mappings, key, t),
    ensures
        t <= c.start || t >= c.end,
{
    lemma_boundary_same_key(blocks, mappings, key, c, t);
}

/// The share of a block of an interval that it holds is among the shares.
pub proof fn lemma_share_listed(
    blocks: Seq<Piece>,
    mappings: Seq<PeriodMapping>,
    lengths: Seq<PeriodLength>,
    bi: int,
    pl: Placement,
    ci: int,
)
    requires
        shares(
            placed(blocks, placements(mappings, lengths)),
            intervals(blocks, mappings),
        ) is Some,
        0 <= bi < blocks.len(),
        placements(mappings, lengths).contains(pl),
        placed_in(blocks[bi], pl),
        0 <= ci < intervals(blocks, mappings).len(),
        holds(Placed { block: blocks[bi], placement: pl }, intervals(blocks, mappings)[ci]),
    ensures
        share(Placed { block: blocks[bi], placement: pl }, intervals(blocks, mappings)[ci]) is Some,
        shares(
            placed(blocks, placements(mappings, lengths)),
            intervals(blocks, mappings),
        )->Some_0.contains(
            share(
                Placed { block: blocks[bi], placement: pl },
                intervals(blocks, mappings)[ci],
            )->Some_0,
        ),
{
    let places = placements(mappings, lengths);
    let cuts = intervals(blocks, mappings);
    let pairs = placed(blocks, places);
    let p = Placed { block: blocks[bi], placement: pl };
    lemma_placed(blocks, places);
    let pj = choose|pj: int| 0 <= pj < places.len() && places[pj] == pl;
    assert(placed_in(blocks[bi], places[pj]));
    assert(pairs.contains(p));
    let a = choose|a: int| 0 <= a < pairs.len() && pairs[a] == p;
    lemma_shares(pairs, cuts);
    assert(holds(pairs[a], cuts[ci]));
}

/// Every placement in the list is a mapping with a length of its representative
/// period.
pub proof fn lemma_listed_placement(
    mappings: Seq<PeriodMapping>,
    lengths: Seq<PeriodLength>,
    pl: Placement,
)
    requires
        placements(mappings, lengths).contains(pl),
    ensures
        is_placement(pl, mappings, lengths),
{
    lemma_placements(mappings, lengths);
    let places = placements(mappings, lengths);
    let pj = choose|pj: int| 0 <= pj < places.len() && places[pj] == pl;
    assert(is_placement(places[pj], mappings, lengths));
}

/// A block that starts behind timestep one starts behind the end of the block
/// before it, and that end is a boundary.
pub proof fn lemma_block_start_is_boundary(
    blocks: Seq<Piece>,
    mappings: Seq<PeriodMapping>,
    lengths: Seq<PeriodLength>,
    bi: int,
    pl: Placement,
    key: Piece,
)
    requires
        filled(blocks),
        0 <= bi < blocks.len(),
        is_placement(pl, mappings, lengths),
        placed_in(blocks[bi], pl),
        key.year == pl.year,
        key.period == pl.period,
    ensures
        1 <= blocks[bi].start <= blocks[bi].end,
        is_boundary(blocks, mappings, key, blocks[bi].start - 1),
        blocks[bi].start > 1 ==> bi > 0 && placed_in(blocks[bi - 1], pl) && blocks[bi - 1].end + 1
            == blocks[bi].start && blocks[bi - 1].group == blocks[bi].group,
{
    lemma_filled_block(blocks, bi);
    if blocks[bi].start > 1 {
        lemma_block_end_is_boundary(
            blocks,
            mappings,
            lengths,
            bi - 1,
            pl,
            key,
            blocks[bi - 1].end as int,
        );
    } else {
        lemma_block_end_is_boundary(blocks, mappings, lengths, bi, pl, key, 0);
    }
}

/// Every share that does not start at hour zero starts where another share of its
/// partition ends.
pub proof fn lemma_share_has_before(
    blocks: Seq<Piece>,
    mappings: Seq<PeriodMapping>,
    lengths: Seq<PeriodLength>,
    bi: int,
    pl: Placement,
    ci: int,
)
    requires
        coverable(blocks, mappings, lengths),
        0 <= bi < blocks.len(),
        placements(mappings, lengths).contains(pl),
        placed_in(blocks[bi], pl),
        0 <= ci < intervals(blocks, mappings).len(),
        holds(Placed { block: blocks[bi], placement: pl }, intervals(blocks, mappings)[ci]),
        intervals(blocks, mappings)[ci].start > 0,
    ensures
        share(Placed { block: blocks[bi], placement: pl }, intervals(blocks, mappings)[ci]) is Some,
        has_before(
            shares(
                placed(blocks, placements(mappings, lengths)),
                intervals(blocks, mappings),
            )->Some_0,
            share(
                Placed { block: blocks[bi], placement: pl },
                intervals(blocks, mappings)[ci],
            )->Some_0,
        ),
{
    let cuts = intervals(blocks, mappings);
    let all = shares(placed(blocks, placements(mappings, lengths)), cuts)->Some_0;
    let b = blocks[bi];
    let c = cuts[ci];
    let p = Placed { block: b, placement: pl };
    lemma_share_listed(blocks, mappings, lengths, bi, pl, ci);
    lemma_listed_placement(mappings, lengths, pl);
    let x = share(p, c)->Some_0;
    lemma_share_facts(p, c);
    let k = lemma_cut_before(blocks, mappings, ci);
    let before = cuts[k];
    lemma_cut_facts(blocks, mappings, k);
    lemma_cut_facts(blocks, mappings, ci);
    lemma_block_start_is_boundary(blocks, mappings, lengths, bi, pl, before);
    lemma_not_inside(blocks, mappings, before, before, b.start - 1);
    if b.start <= before.start + 1 {
        // The block holds that interval too.
        lemma_share_listed(blocks, mappings, lengths, bi, pl, k);
        let y = share(p, before)->Some_0;
        lemma_share_facts(p, before);
        let n = choose|n: int| 0 <= n < all.len() && all[n] == y;
        assert(same_partition(all[n], x) && all[n].end == x.start);
    } else {
        // The block starts where that interval ends, which is where the block
        // before it ends; and that block holds the interval.
        let prev = blocks[bi - 1];
        lemma_block_start_is_boundary(blocks, mappings, lengths, bi - 1, pl, before);
        lemma_not_inside(blocks, mappings, before, before, prev.start - 1);
        let q = Placed { block: prev, placement: pl };
        assert(holds(q, before));
        lemma_share_listed(blocks, mappings, lengths, bi - 1, pl, k);
        let y = share(q, before)->Some_0;
        lemma_share_facts(q, before);
        let n = choose|n: int| 0 <= n < all.len() && all[n] == y;
        assert(same_partition(all[n], x) && all[n].end == x.start);
    }
}

/// The intervals of each period cover it from its start without gap or overlap,
/// period after period.
pub proof fn lemma_intervals_tiled(blocks: Seq<Piece>, mappings: Seq<PeriodMapping>)
    ensures
        tiled(intervals(blocks, mappings)),
        ordered(intervals(blocks, mappings)),
{
    let cuts = intervals(blocks, mappings);
    let m = arranged(marks(blocks, mappings));
    lemma_arranged(marks(blocks, mappings));
    lemma_paired_ordered(m, m.len() as int);
    assert(m.take(m.len() as int) =~= m);
    assert forall|i: int| 0 <= i < cuts.len() implies (#[trigger] cuts[i]).start < cuts[i].end by {
        lemma_cut_facts(blocks, mappings, i);
    }
    assert forall|i: int, j: int|
        0 <= i < j < cuts.len() && same_partition(cuts[i], cuts[j]) implies disjoint(
        cuts[i],
        cuts[j],
    ) by {}
    assert forall|i: int| 0 <= i < cuts.len() && (#[trigger] cuts[i]).start > 0 implies has_before(
        cuts,
        cuts[i],
    ) by {
        let k = lemma_cut_before(blocks, mappings, i);
        lemma_cut_facts(blocks, mappings, i);
        lemma_cut_facts(blocks, mappings, k);
        assert(same_partition(cuts[k], cuts[i]));
    }
    lemma_chain_tiled(cuts);
}

/// Where a share comes from: a block, a placement of its representative period,
/// and an interval that the block holds.
pub proof fn lemma_share_origin(
    blocks: Seq<Piece>,
    mappings: Seq<PeriodMapping>,
    lengths: Seq<PeriodLength>,
    k: int,
) -> (origin: (int, Placement, int))
    requires
        shares(
            placed(blocks, placements(mappings, lengths)),
            intervals(blocks, mappings),
        ) is Some,
        0 <= k < shares(
            placed(blocks, placements(mappings, lengths)),
            intervals(blocks, mappings),
        )->Some_0.len(),
    ensures
        0 <= origin.0 < blocks.len(),
        placements(mappings, lengths).contains(origin.1),
        placed_in(blocks[origin.0], origin.1),
        0 <= origin.2 < intervals(blocks, mappings).len(),
        holds(
            Placed { block: blocks[origin.0], placement: origin.1 },
            intervals(blocks, mappings)[origin.2],
        ),
        share(
            Placed { block: blocks[origin.0], placement: origin.1 },
            intervals(blocks, mappings)[origin.2],
        ) == Some(
            shares(
                placed(blocks, placements(mappings, lengths)),
                intervals(blocks, mappings),
            )->Some_0[k],
        ),
{
    let places = placements(mappings, lengths);
    let cuts = intervals(blocks, mappings);
    let pairs = placed(blocks, places);
    let all = shares(pairs, cuts)->Some_0;
    lemma_shares(pairs, cuts);
    assert(is_share(all[k], pairs, cuts));
    let a = choose|a: int| 0 <= a < pairs.len() && is_share_of(all[k], #[trigger] pairs[a], cuts);
    let c = choose|c: int|
        0 <= c < cuts.len() && holds(pairs[a], #[trigger] cuts[c]) && share(pairs[a], cuts[c])
            == Some(all[k]);
    lemma_placed(blocks, places);
    assert(is_placed(pairs[a], blocks, places));
    let bi = choose|bi: int| 0 <= bi < blocks.len() && blocks[bi] == pairs[a].block;
    (bi, pairs[a].placement, c)
}

/// The resolution of a placement in the list is at least one hour, and equal to
/// that of every placement in the list of the same year and period.
pub proof fn lemma_resolution(places: Seq<Placement>, a: Placement, b: Placement)
    requires
        resolutions_agree(places),
        places.contains(a),
        places.contains(b),
    ensures
        a.resolution_hours >= 1,
        a.year == b.year && a.period == b.period ==> a.resolution_hours == b.resolution_hours,
{
    let i = choose|i: int| 0 <= i < places.len() && places[i] == a;
    let j = choose|j: int| 0 <= j < places.len() && places[j] == b;
    assert(places[i].resolution_hours >= 1);
}

/// Two intervals of one period are the same stretch or have no timestep in common.
pub proof fn lemma_cuts_aligned(
    blocks: Seq<Piece>,
    mappings: Seq<PeriodMapping>,
    i: int,
    j: int,
)
    requires
        0 <= i < intervals(blocks, mappings).len(),
        0 <= j < intervals(blocks, mappings).len(),
        intervals(blocks, mappings)[i].year == intervals(blocks, mappings)[j].year,
        intervals(blocks, mappings)[i].period == intervals(blocks, mappings)[j].period,
    ensures
        (intervals(blocks, mappings)[i].start == intervals(blocks, mappings)[j].start && intervals(
            blocks,
            mappings,
        )[i].end == intervals(blocks, mappings)[j].end) || disjoint(
            intervals(blocks, mappings)[i],
            intervals(blocks, mappings)[j],
        ),
{
    let a = intervals(blocks, mappings)[i];
    let b = intervals(blocks, mappings)[j];
    lemma_cut_facts(blocks, mappings, i);
    lemma_cut_facts(blocks, mappings, j);
    lemma_not_inside(blocks, mappings, a, b, b.start as int);
    lemma_not_inside(blocks, mappings, a, b, b.end as int);
    lemma_not_inside(blocks, mappings, b, a, a.start as int);
    lemma_not_inside(blocks, mappings, b, a, a.end as int);
}

/// The shares are not empty, two shares of one partition lie on the same stretch or
/// apart, and every share that does not start at hour zero starts where another
/// share of its partition ends.
pub proof fn lemma_shares_chain(
    blocks: Seq<Piece>,
    mappings: Seq<PeriodMapping>,
    lengths: Seq<PeriodLength>,
)
    requires
        coverable(blocks, mappings, lengths),
    ensures
        nonempty(
            shares(
                placed(blocks, placements(mappings, lengths)),
                intervals(blocks, mappings),
            )->Some_0,
        ),
        aligned(
            shares(
                placed(blocks, placements(mappings, lengths)),
                intervals(blocks, mappings),
            )->Some_0,
        ),
        chained(
            shares(
                placed(blocks, placements(mappings, lengths)),
                intervals(blocks, mappings),
            )->Some_0,
        ),
{
    let places = placements(mappings, lengths);
    let cuts = intervals(blocks, mappings);
    let all = shares(placed(blocks, places), cuts)->Some_0;
    assert forall|k: int| 0 <= k < all.len() implies (#[trigger] all[k]).start < all[k].end by {
        let (bi, pl, ci) = lemma_share_origin(blocks, mappings, lengths, k);
        lemma_share_facts(Placed { block: blocks[bi], placement: pl }, cuts[ci]);
        lemma_cut_facts(blocks, mappings, ci);
        lemma_resolution(places, pl, pl);
        let (s, e, r) = (cuts[ci].start as int, cuts[ci].end as int, pl.resolution_hours as int);
        assert(s * r < e * r) by (nonlinear_arith)
            requires
                s < e,
                r >= 1,
        ;
    }
    assert forall|i: int, j: int|
        0 <= i < all.len() && 0 <= j < all.len() && same_partition(all[i], all[j]) implies (
    all[i].start == all[j].start && all[i].end == all[j].end) || disjoint(all[i], all[j]) by {
        let (ba, pa, ca) = lemma_share_origin(blocks, mappings, lengths, i);
        let (bb, pb, cb) = lemma_share_origin(blocks, mappings, lengths, j);
        lemma_share_facts(Placed { block: blocks[ba], placement: pa }, cuts[ca]);
        lemma_share_facts(Placed { block: blocks[bb], placement: pb }, cuts[cb]);
        lemma_resolution(places, pa, pb);
        lemma_cuts_aligned(blocks, mappings, ca, cb);
        let r = pa.resolution_hours as int;
        let (sa, ea) = (cuts[ca].start as int, cuts[ca].end as int);
        let (sb, eb) = (cuts[cb].start as int, cuts[cb].end as int);
        if ea <= sb {
            assert(ea * r <= sb * r) by (nonlinear_arith)
                requires
                    ea <= sb,
                    r >= 1,
            ;
        } else if eb <= sa {
            assert(eb * r <= sa * r) by (nonlinear_arith)
                requires
                    eb <= sa,
                    r >= 1,
            ;
        }
    }
    assert forall|k: int| 0 <= k < all.len() && (#[trigger] all[k]).start > 0 implies has_before(
        all,
        all[k],
    ) by {
        let (bi, pl, ci) = lemma_share_origin(blocks, mappings, lengths, k);
        lemma_share_facts(Placed { block: blocks[bi], placement: pl }, cuts[ci]);
        let (s, r) = (cuts[ci].start as int, pl.resolution_hours as int);
        assert(s > 0) by {
            if s == 0 {
                assert(s * r == 0) by (nonlinear_arith)
                    requires
                        s == 0,
                ;
            }
        }
        lemma_share_has_before(blocks, mappings, lengths, bi, pl, ci);
    }
}

/// Coverage of the periods. Where the blocks fill their representative periods
/// and the representative periods of each period agree in their resolution, the
/// weighted series, which is in the order of group, year, period and start,
/// covers each period from its start without gap or overlap.
pub proof fn lemma_weighted_tiled(
    blocks: Seq<Piece>,
    mappings: Seq<PeriodMapping>,
    lengths: Seq<PeriodLength>,
)
    requires
        filled(blocks),
        resolutions_agree(placements(mappings, lengths)),
        weighted(blocks, mappings, lengths, intervals(blocks, mappings)) is Some,
    ensures
        tiled(weighted(blocks, mappings, lengths, intervals(blocks, mappings))->Some_0),
        ordered(weighted(blocks, mappings, lengths, intervals(blocks, mappings))->Some_0),
{
    let all = shares(
        placed(blocks, placements(mappings, lengths)),
        intervals(blocks, mappings),
    )->Some_0;
    lemma_shares_chain(blocks, mappings, lengths);
    lemma_gathered_chain(all);
    lemma_arranged_tiled(gathered(all)->Some_0);
}

} // verus!
