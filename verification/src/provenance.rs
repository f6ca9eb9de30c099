//! Where the groups of a series come from: no stage of the pipeline brings in a
//! group and year that its input does not have, and resampling leaves every piece
//! in period zero.
use crate::arrange::{arranged, lemma_arranged_same_pieces};
use crate::coverage::{
    lemma_exploded_lines, lemma_settled_shape, lemma_window_index_first, pieces_in, same_shape,
};
use crate::gather::{gathered, lemma_place_index_place};
use crate::resample::{binned, exploded, lemma_slices_shape, resampled, slices, Aggregation};
use crate::series::{flat, has_line, lines_within, same_place, Piece};
use crate::timeline::shifted;
use crate::weighting::{placed, placed_of, shares, shares_of, Placed, Placement};
use vstd::prelude::*;

verus! {

/// A group and year that a prefix has, the list has.
pub proof fn lemma_has_line_prefix(s: Seq<Piece>, group: u64, year: u32)
    requires
        s.len() > 0,
        has_line(s.drop_last(), group, year),
    ensures
        has_line(s, group, year),
{
    let k = choose|k: int|
        0 <= k < s.drop_last().len() && (#[trigger] s.drop_last()[k]).group == group
            && s.drop_last()[k].year == year;
    assert(s[k] == s.drop_last()[k]);
}

/// Coming from is transitive.
pub proof fn lemma_lines_within_trans(a: Seq<Piece>, b: Seq<Piece>, c: Seq<Piece>)
    requires
        lines_within(a, b),
        lines_within(b, c),
    ensures
        lines_within(a, c),
{
    assert forall|i: int| 0 <= i < a.len() implies has_line(c, (#[trigger] a[i]).group, a[i].year) by {
        let k = choose|k: int|
            0 <= k < b.len() && (#[trigger] b[k]).group == a[i].group && b[k].year == a[i].year;
        assert(has_line(c, b[k].group, b[k].year));
    }
}

/// Lists of the same shape have the same groups and years.
pub proof fn lemma_same_shape_lines(a: Seq<Piece>, b: Seq<Piece>)
    requires
        same_shape(a, b),
    ensures
        lines_within(b, a),
{
    assert forall|i: int| 0 <= i < b.len() implies has_line(a, (#[trigger] b[i]).group, b[i].year) by {
        assert(same_place(a[i], b[i]));
    }
}

/// Arranging brings in no group.
pub proof fn lemma_arranged_lines(s: Seq<Piece>)
    ensures
        lines_within(arranged(s), s),
        flat(s) ==> flat(arranged(s)),
{
    lemma_arranged_same_pieces(s);
    let a = arranged(s);
    assert forall|i: int| 0 <= i < a.len() implies has_line(s, (#[trigger] a[i]).group, a[i].year) by {
        assert(s.contains(a[i]));
        let k = choose|k: int| 0 <= k < s.len() && s[k] == a[i];
        assert(s[k].group == a[i].group);
    }
    if flat(s) {
        assert forall|i: int| 0 <= i < a.len() implies (#[trigger] a[i]).period == 0 by {
            assert(s.contains(a[i]));
            let k = choose|k: int| 0 <= k < s.len() && s[k] == a[i];
            assert(s[k].period == 0);
        }
    }
}

/// Gathering brings in no group.
pub proof fn lemma_gathered_lines(pieces: Seq<Piece>)
    requires
        gathered(pieces) is Some,
    ensures
        lines_within(gathered(pieces)->Some_0, pieces),
    decreases pieces.len(),
{
    if pieces.len() > 0 {
        let prev = pieces.drop_last();
        let x = pieces.last();
        lemma_gathered_lines(prev);
        let cells = gathered(prev)->Some_0;
        let all = gathered(pieces)->Some_0;
        lemma_place_index_place(cells, x);
        assert forall|i: int| 0 <= i < all.len() implies has_line(
            pieces,
            (#[trigger] all[i]).group,
            all[i].year,
        ) by {
            if i < cells.len() {
                assert(all[i].group == cells[i].group && all[i].year == cells[i].year);
                assert(has_line(prev, cells[i].group, cells[i].year));
                lemma_has_line_prefix(pieces, cells[i].group, cells[i].year);
            } else {
                assert(pieces[pieces.len() - 1] == x);
            }
        }
    }
}

/// Every placed block is one of the blocks.
pub proof fn lemma_placed_blocks(blocks: Seq<Piece>, places: Seq<Placement>)
    ensures
        forall|i: int|
            0 <= i < placed(blocks, places).len() ==> blocks.contains(
                (#[trigger] placed(blocks, places)[i]).block,
            ),
    decreases blocks.len(),
{
    if blocks.len() > 0 {
        let prev = blocks.drop_last();
        lemma_placed_blocks(prev, places);
        lemma_placed_of_block(blocks.last(), places);
        let head = placed(prev, places);
        let tail = placed_of(blocks.last(), places);
        let all = placed(blocks, places);
        assert forall|i: int| 0 <= i < all.len() implies blocks.contains((#[trigger] all[i]).block) by {
            if i < head.len() {
                assert(all[i] == head[i]);
                let k = choose|k: int| 0 <= k < prev.len() && prev[k] == head[i].block;
                assert(blocks[k] == prev[k]);
            } else {
                assert(all[i] == tail[i - head.len()]);
                assert(blocks[blocks.len() - 1] == blocks.last());
            }
        }
    }
}

/// Every placement of a block holds that block.
pub proof fn lemma_placed_of_block(block: Piece, places: Seq<Placement>)
    ensures
        forall|i: int|
            0 <= i < placed_of(block, places).len() ==> (#[trigger] placed_of(
                block,
                places,
            )[i]).block == block,
    decreases places.len(),
{
    if places.len() > 0 {
        lemma_placed_of_block(block, places.drop_last());
        let before = placed_of(block, places.drop_last());
        let all = placed_of(block, places);
        assert forall|i: int| 0 <= i < all.len() implies (#[trigger] all[i]).block == block by {
            if i < before.len() {
                assert(all[i] == before[i]);
            }
        }
    }
}

/// What a placed block gives lies in the block's group and year.
pub proof fn lemma_shares_of_lines(p: Placed, intervals: Seq<Piece>)
    requires
        shares_of(p, intervals) is Some,
    ensures
        forall|i: int|
            0 <= i < shares_of(p, intervals)->Some_0.len() ==> (#[trigger] shares_of(
                p,
                intervals,
            )->Some_0[i]).group == p.block.group && shares_of(p, intervals)->Some_0[i].year
                == p.block.year,
    decreases intervals.len(),
{
    if intervals.len() > 0 {
        lemma_shares_of_lines(p, intervals.drop_last());
    }
}

/// What the placed blocks give lies in the groups and years of the blocks.
pub proof fn lemma_shares_lines(pairs: Seq<Placed>, intervals: Seq<Piece>, blocks: Seq<Piece>)
    requires
        shares(pairs, intervals) is Some,
        forall|i: int| 0 <= i < pairs.len() ==> blocks.contains((#[trigger] pairs[i]).block),
    ensures
        lines_within(shares(pairs, intervals)->Some_0, blocks),
    decreases pairs.len(),
{
    if pairs.len() > 0 {
        let prev = pairs.drop_last();
        assert forall|i: int| 0 <= i < prev.len() implies blocks.contains(
            (#[trigger] prev[i]).block,
        ) by {
            assert(prev[i] == pairs[i]);
        }
        lemma_shares_lines(prev, intervals, blocks);
        lemma_shares_of_lines(pairs.last(), intervals);
        let head = shares(prev, intervals)->Some_0;
        let tail = shares_of(pairs.last(), intervals)->Some_0;
        let all = shares(pairs, intervals)->Some_0;
        assert forall|i: int| 0 <= i < all.len() implies has_line(
            blocks,
            (#[trigger] all[i]).group,
            all[i].year,
        ) by {
            if i < head.len() {
                assert(all[i] == head[i]);
            } else {
                assert(all[i] == tail[i - head.len()]);
                assert(blocks.contains(pairs[pairs.len() - 1].block));
                let k = choose|k: int| 0 <= k < blocks.len() && blocks[k] == pairs.last().block;
                assert(blocks[k].group == all[i].group);
            }
        }
    }
}

/// Laying the periods end to end keeps the group and year of every piece.
pub proof fn lemma_shifted_lines(s: Seq<Piece>, n: int, places: Seq<Placement>)
    requires
        0 <= n <= s.len(),
        shifted(s, n, places) is Some,
    ensures
        shifted(s, n, places)->Some_0.len() == n,
        forall|k: int|
            0 <= k < n ==> (#[trigger] shifted(s, n, places)->Some_0[k]).group == s[k].group && shifted(
                s,
                n,
                places,
            )->Some_0[k].year == s[k].year,
    decreases n,
{
    if n > 0 {
        lemma_shifted_lines(s, n - 1, places);
        let before = shifted(s, n - 1, places)->Some_0;
        let all = shifted(s, n, places)->Some_0;
        assert forall|k: int| 0 <= k < n implies (#[trigger] all[k]).group == s[k].group
            && all[k].year == s[k].year by {
            if k < n - 1 {
                assert(all[k] == before[k]);
            }
        }
    }
}

/// The parts of a series lie in period zero.
pub proof fn lemma_exploded_flat(pieces: Seq<Piece>, w: int)
    requires
        w > 0,
    ensures
        flat(exploded(pieces, w)),
    decreases pieces.len(),
{
    if pieces.len() > 0 {
        let prev = pieces.drop_last();
        let p = pieces.last();
        lemma_exploded_flat(prev, w);
        let head = exploded(prev, w);
        let tail = slices(p, w);
        let all = exploded(pieces, w);
        if p.start < p.end {
            lemma_slices_shape(p, p.start as int, w);
        }
        assert forall|i: int| 0 <= i < all.len() implies (#[trigger] all[i]).period == 0 by {
            if i < head.len() {
                assert(all[i] == head[i]);
            } else {
                assert(all[i] == tail[i - head.len()]);
            }
        }
    }
}

/// The bins lie in the groups, years and periods of the parts.
pub proof fn lemma_binned_lines(parts: Seq<Piece>, w: int)
    requires
        binned(parts, w) is Some,
    ensures
        lines_within(pieces_in(binned(parts, w)->Some_0), parts),
        flat(parts) ==> flat(pieces_in(binned(parts, w)->Some_0)),
    decreases parts.len(),
{
    if parts.len() > 0 {
        let prev = parts.drop_last();
        let x = parts.last();
        lemma_binned_lines(prev, w);
        let bins0 = binned(prev, w)->Some_0;
        let cells0 = pieces_in(bins0);
        let cells = pieces_in(binned(parts, w)->Some_0);
        lemma_window_index_first(bins0, x, w);
        assert forall|i: int| 0 <= i < cells.len() implies has_line(
            parts,
            (#[trigger] cells[i]).group,
            cells[i].year,
        ) by {
            if i < cells0.len() {
                assert(cells[i].group == cells0[i].group && cells[i].year == cells0[i].year);
                assert(has_line(prev, cells0[i].group, cells0[i].year));
                lemma_has_line_prefix(parts, cells0[i].group, cells0[i].year);
            } else {
                assert(parts[parts.len() - 1] == x);
            }
        }
        if flat(parts) {
            assert(flat(prev)) by {
                assert forall|i: int| 0 <= i < prev.len() implies (#[trigger] prev[i]).period
                    == 0 by {
                    assert(prev[i] == parts[i]);
                }
            }
            assert forall|i: int| 0 <= i < cells.len() implies (#[trigger] cells[i]).period == 0 by {
                if i < cells0.len() {
                    assert(cells[i].period == cells0[i].period);
                } else {
                    assert(parts[parts.len() - 1].period == 0);
                }
            }
        }
    } else {
        assert(pieces_in(binned(parts, w)->Some_0) =~= Seq::<Piece>::empty());
    }
}

/// Resampling brings in no group, and leaves every piece in period zero.
pub proof fn lemma_resampled_lines(axis: Seq<Piece>, w: int, mode: Aggregation)
    requires
        w > 0,
        resampled(axis, w, mode) is Some,
    ensures
        lines_within(resampled(axis, w, mode)->Some_0, axis),
        flat(resampled(axis, w, mode)->Some_0),
{
    let parts = exploded(axis, w);
    lemma_exploded_lines(axis, w);
    lemma_exploded_flat(axis, w);
    lemma_binned_lines(parts, w);
    let bins = binned(parts, w)->Some_0;
    lemma_settled_shape(bins, mode);
    let out = resampled(axis, w, mode)->Some_0;
    lemma_same_shape_lines(pieces_in(bins), out);
    lemma_lines_within_trans(out, pieces_in(bins), parts);
    lemma_lines_within_trans(out, parts, axis);
    assert forall|i: int| 0 <= i < out.len() implies (#[trigger] out[i]).period == 0 by {
        assert(same_place(pieces_in(bins)[i], out[i]));
    }
}

} // verus!
