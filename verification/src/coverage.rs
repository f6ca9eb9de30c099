//! Coverage: a series that covers each group and year from hour zero on without gap
//! or overlap still does so after it is resampled and compacted, and up to the same
//! hour.
use crate::arrange::{arranged, lemma_arranged, lemma_arranged_of_ordered, ordered, precedes};
use crate::compaction::{
    compacted, lemma_compacted_flat, lemma_compacted_horizon, lemma_compacted_maximal,
    lemma_compacted_ordered, lemma_compacted_tiled,
};
use crate::resample::{
    binned, exploded, lemma_settled_each, lemma_slices_shape, lemma_window_monotone, loaded,
    opened, resampled, same_window, settled, settled_all, slices, slices_from, window_end,
    window_index, Aggregation, Bin,
};
use crate::series::{
    fits_after, flat, has_line, horizon, lemma_tiled_apart, lemma_tiled_pieces, lines_within,
    maximal, same_line, same_partition, same_place, seen, tiled, Piece,
};
use crate::timeline::{duration, offset_at, on_global_axis, shifted};
use crate::weighting::Placement;
use vstd::prelude::*;

verus! {

/// `a` comes before `b` in group, then year.
pub open spec fn line_precedes(a: Piece, b: Piece) -> bool {
    a.group < b.group || (a.group == b.group && a.year < b.year)
}

/// The groups and years come in order: no piece is of an earlier group and year
/// than a piece before it.
pub open spec fn lines_ordered(s: Seq<Piece>) -> bool {
    forall|i: int, j: int| 0 <= i < j < s.len() ==> !line_precedes(s[j], s[i])
}

/// Every piece lies inside one window of width `w`.
pub open spec fn windowed(s: Seq<Piece>, w: int) -> bool {
    forall|i: int| 0 <= i < s.len() ==> (#[trigger] s[i]).start as int / w == (s[i].end - 1) / w
}

/// A tiled series on the global axis whose groups and years come in order is in
/// order.
pub proof fn lemma_tiled_ordered(s: Seq<Piece>)
    requires
        tiled(s),
        flat(s),
        lines_ordered(s),
    ensures
        ordered(s),
{
    assert forall|i: int, j: int| 0 <= i < j < s.len() implies !precedes(s[j], s[i]) by {
        assert(s[i].period == 0 && s[j].period == 0);
        assert(!line_precedes(s[j], s[i]));
        if same_line(s[i], s[j]) {
            lemma_tiled_apart(s, i, j);
            lemma_tiled_pieces(s, i);
        }
    }
}

/// A prefix of a list keeps what holds of all its pieces and pairs.
pub proof fn lemma_prefix_keeps(s: Seq<Piece>, w: int)
    requires
        s.len() > 0,
    ensures
        flat(s) ==> flat(s.drop_last()),
        lines_ordered(s) ==> lines_ordered(s.drop_last()),
        windowed(s, w) ==> windowed(s.drop_last(), w),
{
    let prev = s.drop_last();
    if flat(s) {
        assert forall|i: int| 0 <= i < prev.len() implies (#[trigger] prev[i]).period == 0 by {
            assert(prev[i] == s[i]);
        }
    }
    if lines_ordered(s) {
        assert forall|i: int, j: int| 0 <= i < j < prev.len() implies !line_precedes(
            prev[j],
            prev[i],
        ) by {
            assert(!line_precedes(s[j], s[i]));
        }
    }
    if windowed(s, w) {
        assert forall|i: int| 0 <= i < prev.len() implies (#[trigger] prev[i]).start as int / w
            == (prev[i].end - 1) / w by {
            assert(prev[i] == s[i]);
        }
    }
}

/// Pieces of one partition that follow each other in time may be appended to a
/// tiled list that the first of them may follow: the list stays tiled, ends where
/// the last of them ends, and has seen their partition besides its own.
pub proof fn lemma_tiled_append(base: Seq<Piece>, more: Seq<Piece>, x: Piece)
    requires
        tiled(base),
        more.len() > 0,
        fits_after(base, more[0]),
        forall|i: int| 0 <= i < more.len() ==> (#[trigger] more[i]).start < more[i].end,
        forall|i: int|
            0 < i < more.len() ==> same_partition(more[i - 1], #[trigger] more[i]) && more[i].start
                == more[i - 1].end,
    ensures
        tiled(base + more),
        seen(base + more, x) <==> seen(base, x) || same_partition(more[0], x),
    decreases more.len(),
{
    let all = base + more;
    if more.len() == 1 {
        assert(all =~= base.push(more[0]));
        assert(all.drop_last() =~= base);
    } else {
        let head = more.drop_last();
        assert(head[0] == more[0]);
        assert forall|i: int| 0 < i < head.len() implies same_partition(
            head[i - 1],
            #[trigger] head[i],
        ) && head[i].start == head[i - 1].end by {
            assert(head[i] == more[i]);
            assert(head[i - 1] == more[i - 1]);
        }
        assert forall|i: int| 0 <= i < head.len() implies (#[trigger] head[i]).start
            < head[i].end by {
            assert(head[i] == more[i]);
        }
        lemma_tiled_append(base, head, x);
        lemma_chain_partition(more, more.len() - 1);
        assert(all.drop_last() =~= base + head);
        assert((base + head).last() == more[more.len() - 2]);
        assert(all.last() == more[more.len() - 1]);
    }
    if seen(all, x) {
        let i = choose|i: int| 0 <= i < all.len() && same_partition(#[trigger] all[i], x);
        if i < base.len() {
            assert(same_partition(base[i], x));
        } else {
            lemma_chain_partition(more, i - base.len());
        }
    }
    if seen(base, x) {
        let i = choose|i: int| 0 <= i < base.len() && same_partition(#[trigger] base[i], x);
        assert(same_partition(all[i], x));
    }
    if same_partition(more[0], x) {
        assert(same_partition(all[base.len() as int], x));
    }
}

/// In a chain of pieces of one partition every piece lies in the partition of the
/// first.
pub proof fn lemma_chain_partition(more: Seq<Piece>, i: int)
    requires
        0 <= i < more.len(),
        forall|i: int| 0 < i < more.len() ==> same_partition(more[i - 1], #[trigger] more[i]),
    ensures
        same_partition(more[0], more[i]),
    decreases i,
{
    if i > 0 {
        lemma_chain_partition(more, i - 1);
    }
}

/// The horizon of two lists in a row is the larger of their horizons.
pub proof fn lemma_horizon_append(a: Seq<Piece>, b: Seq<Piece>, key: Piece)
    ensures
        horizon(a + b, key) == if horizon(b, key) > horizon(a, key) {
            horizon(b, key)
        } else {
            horizon(a, key)
        },
        horizon(a, key) >= 0,
    decreases b.len(),
{
    lemma_horizon_positive(a, key);
    if b.len() == 0 {
        assert(a + b =~= a);
    } else {
        lemma_horizon_append(a, b.drop_last(), key);
        assert((a + b).drop_last() =~= a + b.drop_last());
    }
}

/// A horizon is never negative.
pub proof fn lemma_horizon_positive(a: Seq<Piece>, key: Piece)
    ensures
        horizon(a, key) >= 0,
    decreases a.len(),
{
    if a.len() > 0 {
        lemma_horizon_positive(a.drop_last(), key);
    }
}

/// The horizon of a chain of pieces of one partition that follow each other in
/// time is the end of the last, in their partition, and zero elsewhere.
pub proof fn lemma_horizon_chain(more: Seq<Piece>, key: Piece)
    requires
        more.len() > 0,
        forall|i: int| 0 <= i < more.len() ==> (#[trigger] more[i]).start < more[i].end,
        forall|i: int|
            0 < i < more.len() ==> same_partition(more[i - 1], #[trigger] more[i]) && more[i].start
                == more[i - 1].end,
    ensures
        horizon(more, key) == if same_partition(more[0], key) {
            more.last().end as int
        } else {
            0
        },
    decreases more.len(),
{
    if more.len() > 1 {
        let head = more.drop_last();
        assert forall|i: int| 0 < i < head.len() implies same_partition(
            head[i - 1],
            #[trigger] head[i],
        ) && head[i].start == head[i - 1].end by {
            assert(head[i] == more[i]);
            assert(head[i - 1] == more[i - 1]);
        }
        assert forall|i: int| 0 <= i < head.len() implies (#[trigger] head[i]).start
            < head[i].end by {
            assert(head[i] == more[i]);
        }
        lemma_horizon_chain(head, key);
        lemma_chain_partition(more, more.len() - 1);
        assert(head.last() == more[more.len() - 2]);
        assert(head[0] == more[0]);
    } else {
        assert(horizon(more.drop_last(), key) == 0);
    }
}

/// In a tiled list the horizon of the last piece's partition is the end of the last
/// piece.
pub proof fn lemma_tiled_horizon_last(s: Seq<Piece>)
    requires
        tiled(s),
        s.len() > 0,
    ensures
        horizon(s, s.last()) == s.last().end,
    decreases s.len(),
{
    let prev = s.drop_last();
    let x = s.last();
    if prev.len() > 0 && same_partition(prev.last(), x) {
        lemma_tiled_horizon_last(prev);
        lemma_horizon_same_key(prev, prev.last(), x);
    } else {
        lemma_horizon_unseen(prev, x);
    }
}

/// The horizon depends on the partition of the key alone.
pub proof fn lemma_horizon_same_key(s: Seq<Piece>, a: Piece, b: Piece)
    requires
        same_partition(a, b),
    ensures
        horizon(s, a) == horizon(s, b),
    decreases s.len(),
{
    if s.len() > 0 {
        lemma_horizon_same_key(s.drop_last(), a, b);
    }
}

/// A partition that a list has not seen has the horizon zero in it.
pub proof fn lemma_horizon_unseen(s: Seq<Piece>, key: Piece)
    requires
        !seen(s, key),
    ensures
        horizon(s, key) == 0,
    decreases s.len(),
{
    if s.len() > 0 {
        assert(!same_partition(s[s.len() - 1], key));
        assert(!seen(s.drop_last(), key)) by {
            if seen(s.drop_last(), key) {
                let i = choose|i: int|
                    0 <= i < s.drop_last().len() && same_partition(
                        #[trigger] s.drop_last()[i],
                        key,
                    );
                assert(same_partition(s[i], key));
            }
        }
        lemma_horizon_unseen(s.drop_last(), key);
    }
}

/// The parts of a series have the groups and years of the series.
pub proof fn lemma_exploded_lines(pieces: Seq<Piece>, w: int)
    requires
        w > 0,
    ensures
        lines_within(exploded(pieces, w), pieces),
    decreases pieces.len(),
{
    if pieces.len() > 0 {
        let prev = pieces.drop_last();
        let p = pieces.last();
        lemma_exploded_lines(prev, w);
        let head = exploded(prev, w);
        let tail = slices(p, w);
        let all = exploded(pieces, w);
        if p.start < p.end {
            lemma_slices_shape(p, p.start as int, w);
        }
        assert forall|i: int| 0 <= i < all.len() implies has_line(
            pieces,
            (#[trigger] all[i]).group,
            all[i].year,
        ) by {
            if i < head.len() {
                assert(all[i] == head[i]);
                assert(has_line(prev, head[i].group, head[i].year));
                let k = choose|k: int|
                    0 <= k < prev.len() && (#[trigger] prev[k]).group == head[i].group
                        && prev[k].year == head[i].year;
                assert(pieces[k] == prev[k]);
            } else {
                assert(all[i] == tail[i - head.len()]);
                assert(pieces[pieces.len() - 1] == p);
            }
        }
    }
}

/// A list has seen a partition if its prefix has, or its last piece lies in it.
pub proof fn lemma_seen_last(s: Seq<Piece>, x: Piece)
    requires
        s.len() > 0,
    ensures
        seen(s, x) <==> seen(s.drop_last(), x) || same_partition(s.last(), x),
{
    let prev = s.drop_last();
    if seen(s, x) {
        let i = choose|i: int| 0 <= i < s.len() && same_partition(#[trigger] s[i], x);
        if i < prev.len() {
            assert(same_partition(prev[i], x));
        }
    }
    if seen(prev, x) {
        let i = choose|i: int| 0 <= i < prev.len() && same_partition(#[trigger] prev[i], x);
        assert(same_partition(s[i], x));
    }
    if same_partition(s.last(), x) {
        assert(same_partition(s[s.len() - 1], x));
    }
}

/// A partition that a list has seen is seen through every piece of that
/// partition.
pub proof fn lemma_seen_same_key(s: Seq<Piece>, a: Piece, b: Piece)
    requires
        same_partition(a, b),
    ensures
        seen(s, a) <==> seen(s, b),
{
    if seen(s, a) {
        let i = choose|i: int| 0 <= i < s.len() && same_partition(#[trigger] s[i], a);
        assert(same_partition(s[i], b));
    }
    if seen(s, b) {
        let i = choose|i: int| 0 <= i < s.len() && same_partition(#[trigger] s[i], b);
        assert(same_partition(s[i], a));
    }
}

/// The parts of a piece of a tiled series on the global axis form a chain in the
/// partition of the piece, from its start to its end.
pub proof fn lemma_slices_chain(p: Piece, w: int)
    requires
        w > 0,
        p.start < p.end,
        p.period == 0,
    ensures
        slices(p, w).len() > 0,
        same_partition(slices(p, w)[0], p),
        slices(p, w)[0].start == p.start,
        slices(p, w).last().end == p.end,
        flat(slices(p, w)),
        windowed(slices(p, w), w),
        forall|i: int| 0 <= i < slices(p, w).len() ==> (#[trigger] slices(p, w)[i]).start < slices(p, w)[i].end,
        forall|i: int|
            0 < i < slices(p, w).len() ==> same_partition(slices(p, w)[i - 1], #[trigger] slices(p, w)[i])
                && slices(p, w)[i].start == slices(p, w)[i - 1].end,
{
    lemma_slices_shape(p, p.start as int, w);
    let tail = slices(p, w);
    assert forall|i: int| 0 < i < tail.len() implies same_partition(
        tail[i - 1],
        #[trigger] tail[i],
    ) && tail[i].start == tail[i - 1].end by {
        assert(tail[i - 1].group == p.group);
    }
}

/// Cutting a tiled series on the global axis at the windows keeps it tiled: the
/// parts cover the same partitions, each part inside one window, and the last part
/// ends where the last piece ends.
pub proof fn lemma_exploded_tiled(pieces: Seq<Piece>, w: int, x: Piece)
    requires
        w > 0,
        flat(pieces),
        tiled(pieces),
    ensures
        flat(exploded(pieces, w)),
        tiled(exploded(pieces, w)),
        windowed(exploded(pieces, w), w),
        seen(exploded(pieces, w), x) <==> seen(pieces, x),
        pieces.len() > 0 ==> exploded(pieces, w).len() > 0 && same_partition(
            exploded(pieces, w).last(),
            pieces.last(),
        ) && exploded(pieces, w).last().end == pieces.last().end,
    decreases pieces.len(),
{
    if pieces.len() > 0 {
        let prev = pieces.drop_last();
        let p = pieces.last();
        lemma_prefix_keeps(pieces, w);
        lemma_exploded_tiled(prev, w, x);
        lemma_exploded_tiled(prev, w, p);
        let head = exploded(prev, w);
        let tail = slices(p, w);
        let all = exploded(pieces, w);
        assert(pieces[pieces.len() - 1].period == 0);
        assert(fits_after(prev, p));
        lemma_slices_chain(p, w);
        lemma_seen_same_key(head, tail[0], p);
        assert(fits_after(head, tail[0]));
        lemma_tiled_append(head, tail, x);
        assert(all.last() == tail.last());
        assert forall|i: int| 0 <= i < all.len() implies (#[trigger] all[i]).period == 0
            && all[i].start as int / w == (all[i].end - 1) / w by {
            if i < head.len() {
                assert(all[i] == head[i]);
            } else {
                assert(all[i] == tail[i - head.len()]);
            }
        }
        lemma_seen_last(pieces, x);
        lemma_chain_partition(tail, tail.len() - 1);
        if same_partition(tail[0], x) || same_partition(p, x) {
            assert(same_partition(tail[0], x) && same_partition(p, x));
        }
    }
}

/// Cutting a tiled series at the windows keeps the horizon of every partition.
pub proof fn lemma_exploded_horizon(pieces: Seq<Piece>, w: int, x: Piece)
    requires
        w > 0,
        flat(pieces),
        tiled(pieces),
    ensures
        horizon(exploded(pieces, w), x) == horizon(pieces, x),
    decreases pieces.len(),
{
    if pieces.len() > 0 {
        let prev = pieces.drop_last();
        let p = pieces.last();
        lemma_prefix_keeps(pieces, w);
        lemma_exploded_horizon(prev, w, x);
        let head = exploded(prev, w);
        let tail = slices(p, w);
        assert(pieces[pieces.len() - 1].period == 0);
        assert(fits_after(prev, p));
        lemma_slices_chain(p, w);
        lemma_horizon_append(head, tail, x);
        lemma_horizon_chain(tail, x);
        lemma_horizon_positive(prev, x);
        if same_partition(p, x) {
            if prev.len() > 0 && same_partition(prev.last(), p) {
                lemma_tiled_horizon_last(prev);
                lemma_horizon_same_key(prev, prev.last(), x);
            } else {
                lemma_seen_same_key(prev, p, x);
                lemma_horizon_unseen(prev, x);
            }
        }
    }
}

/// The stretches of the bins, in their order.
pub open spec fn pieces_in(bins: Seq<Bin>) -> Seq<Piece> {
    Seq::new(bins.len(), |i: int| bins[i].piece)
}

/// No two bins are on the same window of the same group and year.
pub open spec fn distinct_windows(bins: Seq<Bin>, w: int) -> bool {
    forall|i: int, j: int|
        0 <= i < j < bins.len() ==> !same_window(bins[i].piece, bins[j].piece, w)
}

/// The place that `window_index` gives is that of the first bin on the window.
pub proof fn lemma_window_index_first(bins: Seq<Bin>, x: Piece, w: int)
    ensures
        0 <= window_index(bins, x, w) <= bins.len(),
        window_index(bins, x, w) < bins.len() ==> same_window(
            bins[window_index(bins, x, w)].piece,
            x,
            w,
        ),
        forall|k: int|
            0 <= k < window_index(bins, x, w) ==> !same_window((#[trigger] bins[k]).piece, x, w),
    decreases bins.len(),
{
    if bins.len() > 0 {
        lemma_window_index_first(bins.drop_last(), x, w);
        let i = window_index(bins.drop_last(), x, w);
        assert forall|k: int| 0 <= k < window_index(bins, x, w) implies !same_window(
            (#[trigger] bins[k]).piece,
            x,
            w,
        ) by {
            if k < bins.len() - 1 {
                assert(bins.drop_last()[k] == bins[k]);
            }
        }
        if i < bins.len() - 1 {
            assert(bins.drop_last()[i] == bins[i]);
        }
    }
}

/// Gathering the parts of a tiled series on their windows keeps it tiled: the bins
/// cover the same partitions up to the same hours, each bin inside one window, and
/// no two bins on the same window.
pub proof fn lemma_binned_tiled(parts: Seq<Piece>, w: int, x: Piece)
    requires
        w > 0,
        flat(parts),
        tiled(parts),
        windowed(parts, w),
        binned(parts, w) is Some,
    ensures
        flat(pieces_in(binned(parts, w)->Some_0)),
        tiled(pieces_in(binned(parts, w)->Some_0)),
        windowed(pieces_in(binned(parts, w)->Some_0), w),
        distinct_windows(binned(parts, w)->Some_0, w),
        seen(pieces_in(binned(parts, w)->Some_0), x) <==> seen(parts, x),
        horizon(pieces_in(binned(parts, w)->Some_0), x) == horizon(parts, x),
        parts.len() > 0 ==> binned(parts, w)->Some_0.len() > 0 && same_partition(
            pieces_in(binned(parts, w)->Some_0).last(),
            parts.last(),
        ) && pieces_in(binned(parts, w)->Some_0).last().end == parts.last().end,
        lines_ordered(parts) ==> lines_ordered(pieces_in(binned(parts, w)->Some_0)),
    decreases parts.len(),
{
    if parts.len() == 0 {
        assert(pieces_in(binned(parts, w)->Some_0) =~= Seq::<Piece>::empty());
    } else {
        let prev = parts.drop_last();
        let p = parts.last();
        lemma_prefix_keeps(parts, w);
        lemma_binned_tiled(prev, w, x);
        lemma_binned_tiled(prev, w, p);
        let bins0 = binned(prev, w)->Some_0;
        let cells0 = pieces_in(bins0);
        let bins = binned(parts, w)->Some_0;
        let cells = pieces_in(bins);
        let i = window_index(bins0, p, w);
        lemma_window_index_first(bins0, p, w);
        assert(parts[parts.len() - 1].period == 0);
        assert(p.start as int / w == (p.end - 1) / w);
        assert(fits_after(prev, p));
        assert(seen(parts, x) <==> seen(prev, x) || same_partition(p, x)) by {
            if seen(parts, x) {
                let k = choose|k: int| 0 <= k < parts.len() && same_partition(#[trigger] parts[k], x);
                if k < prev.len() {
                    assert(same_partition(prev[k], x));
                }
            }
            if seen(prev, x) {
                let k = choose|k: int| 0 <= k < prev.len() && same_partition(#[trigger] prev[k], x);
                assert(same_partition(parts[k], x));
            }
            if same_partition(p, x) {
                assert(same_partition(parts[parts.len() - 1], x));
            }
        }
        if i < bins0.len() {
            // The window of the part holds a bin: it is the last bin.
            assert(cells0[i] == bins0[i].piece);
            assert(same_partition(cells0[i], p));
            assert(seen(cells0, p));
            assert(prev.len() > 0 && same_partition(prev.last(), p) && p.start == prev.last().end);
            let last = bins0.len() - 1;
            assert(cells0[last] == bins0[last].piece);
            lemma_tiled_pieces(cells0, last);
            if i < last {
                lemma_tiled_apart(cells0, i, last);
                lemma_tiled_pieces(cells0, i);
                lemma_window_monotone(cells0[i].start as int, cells0[last].start as int, w);
                lemma_window_monotone(cells0[last].start as int, p.start as int, w);
                assert(same_window(bins0[i].piece, bins0[last].piece, w));
                assert(false);
            }
            let old = bins0[last];
            let grown = loaded(old, p)->Some_0;
            assert(bins == bins0.update(last, grown));
            assert(grown.piece.start == old.piece.start);
            assert(grown.piece.end == p.end);
            assert(cells =~= cells0.update(last, grown.piece));
            assert(cells.drop_last() =~= cells0.drop_last());
            assert(fits_after(cells0.drop_last(), cells0.last()));
            assert(fits_after(cells.drop_last(), cells.last())) by {
                if seen(cells.drop_last(), cells.last()) {
                    let k = choose|k: int|
                        0 <= k < cells.drop_last().len() && same_partition(
                            #[trigger] cells.drop_last()[k],
                            cells.last(),
                        );
                    assert(same_partition(cells0.drop_last()[k], cells0.last()));
                }
            }
            assert forall|k: int| 0 <= k < cells.len() implies (#[trigger] cells[k]).period == 0
                && cells[k].start as int / w == (cells[k].end - 1) / w by {
                if k < last {
                    assert(cells[k] == cells0[k]);
                }
            }
            assert forall|a: int, b: int| 0 <= a < b < bins.len() implies !same_window(
                bins[a].piece,
                bins[b].piece,
                w,
            ) by {
                assert(!same_window(bins0[a].piece, bins0[b].piece, w));
            }
            assert(seen(cells, x) <==> seen(cells0, x)) by {
                if seen(cells, x) {
                    let k = choose|k: int| 0 <= k < cells.len() && same_partition(#[trigger] cells[k], x);
                    assert(same_partition(cells0[k], x));
                }
                if seen(cells0, x) {
                    let k = choose|k: int| 0 <= k < cells0.len() && same_partition(#[trigger] cells0[k], x);
                    assert(same_partition(cells[k], x));
                }
            }
            if same_partition(p, x) {
                assert(same_partition(prev[prev.len() - 1], x));
            }
            lemma_horizon_positive(cells0.drop_last(), x);
            if lines_ordered(parts) {
                assert forall|a: int, b: int| 0 <= a < b < cells.len() implies !line_precedes(
                    cells[b],
                    cells[a],
                ) by {
                    assert(!line_precedes(cells0[b], cells0[a]));
                }
            }
        } else {
            let fresh = opened(p)->Some_0;
            assert(bins == bins0.push(fresh));
            assert(cells =~= cells0.push(fresh.piece));
            assert(cells.drop_last() =~= cells0);
            assert(fits_after(cells0, fresh.piece)) by {
                if seen(cells0, fresh.piece) {
                    let k = choose|k: int|
                        0 <= k < cells0.len() && same_partition(#[trigger] cells0[k], fresh.piece);
                    assert(same_partition(cells0[k], p));
                }
            }
            assert forall|k: int| 0 <= k < cells.len() implies (#[trigger] cells[k]).period == 0
                && cells[k].start as int / w == (cells[k].end - 1) / w by {
                if k < cells0.len() {
                    assert(cells[k] == cells0[k]);
                }
            }
            assert forall|a: int, b: int| 0 <= a < b < bins.len() implies !same_window(
                bins[a].piece,
                bins[b].piece,
                w,
            ) by {
                if b < bins0.len() {
                    assert(!same_window(bins0[a].piece, bins0[b].piece, w));
                } else {
                    assert(!same_window(bins0[a].piece, p, w));
                }
            }
            assert(seen(cells, x) <==> seen(cells0, x) || same_partition(p, x)) by {
                if seen(cells, x) {
                    let k = choose|k: int| 0 <= k < cells.len() && same_partition(#[trigger] cells[k], x);
                    if k < cells0.len() {
                        assert(same_partition(cells0[k], x));
                    }
                }
                if seen(cells0, x) {
                    let k = choose|k: int| 0 <= k < cells0.len() && same_partition(#[trigger] cells0[k], x);
                    assert(same_partition(cells[k], x));
                }
                if same_partition(p, x) {
                    assert(same_partition(cells[cells.len() - 1], x));
                }
            }
            if lines_ordered(parts) {
                assert forall|a: int, b: int| 0 <= a < b < cells.len() implies !line_precedes(
                    cells[b],
                    cells[a],
                ) by {
                    if b < cells0.len() {
                        assert(!line_precedes(cells0[b], cells0[a]));
                    } else {
                        lemma_binned_tiled(prev, w, cells0[a]);
                        assert(same_partition(cells0[a], cells0[a]));
                        assert(seen(cells0, cells0[a]));
                        let m = choose|m: int|
                            0 <= m < prev.len() && same_partition(#[trigger] prev[m], cells0[a]);
                        assert(!line_precedes(parts[parts.len() - 1], parts[m]));
                    }
                }
            }
        }
    }
}

/// Both lists have, place by place, pieces on the same stretch of the same
/// partition.
pub open spec fn same_shape(a: Seq<Piece>, b: Seq<Piece>) -> bool {
    a.len() == b.len() && forall|i: int| 0 <= i < a.len() ==> same_place(#[trigger] a[i], b[i])
}

/// Lists of the same shape have seen the same partitions.
pub proof fn lemma_same_shape_seen(a: Seq<Piece>, b: Seq<Piece>, x: Piece)
    requires
        same_shape(a, b),
    ensures
        seen(a, x) <==> seen(b, x),
{
    if seen(a, x) {
        let i = choose|i: int| 0 <= i < a.len() && same_partition(#[trigger] a[i], x);
        assert(same_place(a[i], b[i]));
        assert(same_partition(b[i], x));
    }
    if seen(b, x) {
        let i = choose|i: int| 0 <= i < b.len() && same_partition(#[trigger] b[i], x);
        assert(same_place(a[i], b[i]));
        assert(same_partition(a[i], x));
    }
}

/// What holds of the stretches of a list holds of every list of the same shape.
pub proof fn lemma_same_shape(a: Seq<Piece>, b: Seq<Piece>, x: Piece)
    requires
        same_shape(a, b),
    ensures
        tiled(a) ==> tiled(b),
        flat(a) ==> flat(b),
        lines_ordered(a) ==> lines_ordered(b),
        horizon(a, x) == horizon(b, x),
    decreases a.len(),
{
    if a.len() > 0 {
        let pa = a.drop_last();
        let pb = b.drop_last();
        assert(same_shape(pa, pb)) by {
            assert forall|i: int| 0 <= i < pa.len() implies same_place(#[trigger] pa[i], pb[i]) by {
                assert(same_place(a[i], b[i]));
            }
        }
        lemma_same_shape(pa, pb, x);
        assert(same_place(a[a.len() - 1], b[b.len() - 1]));
        if tiled(a) {
            lemma_same_shape_seen(pa, pb, a.last());
            lemma_seen_same_key(pb, a.last(), b.last());
            if pa.len() > 0 {
                assert(same_place(pa[pa.len() - 1], pb[pb.len() - 1]));
                assert(same_place(a[a.len() - 2], b[b.len() - 2]));
            }
        }
    }
    if flat(a) {
        assert forall|i: int| 0 <= i < b.len() implies (#[trigger] b[i]).period == 0 by {
            assert(same_place(a[i], b[i]));
        }
    }
    if lines_ordered(a) {
        assert forall|i: int, j: int| 0 <= i < j < b.len() implies !line_precedes(b[j], b[i]) by {
            assert(same_place(a[i], b[i]));
            assert(same_place(a[j], b[j]));
            assert(!line_precedes(a[j], a[i]));
        }
    }
}

/// The parts of a series whose groups and years come in order come in that order.
pub proof fn lemma_exploded_lines_ordered(pieces: Seq<Piece>, w: int)
    requires
        w > 0,
        lines_ordered(pieces),
    ensures
        lines_ordered(exploded(pieces, w)),
    decreases pieces.len(),
{
    if pieces.len() > 0 {
        let prev = pieces.drop_last();
        let p = pieces.last();
        lemma_prefix_keeps(pieces, w);
        lemma_exploded_lines_ordered(prev, w);
        lemma_exploded_lines(prev, w);
        let head = exploded(prev, w);
        let tail = slices(p, w);
        let all = exploded(pieces, w);
        if p.start < p.end {
            lemma_slices_shape(p, p.start as int, w);
        }
        assert forall|i: int, j: int| 0 <= i < j < all.len() implies !line_precedes(
            all[j],
            all[i],
        ) by {
            if j < head.len() {
                assert(!line_precedes(head[j], head[i]));
            } else if i < head.len() {
                assert(all[i] == head[i]);
                assert(all[j] == tail[j - head.len()]);
                assert(has_line(prev, head[i].group, head[i].year));
                let k = choose|k: int|
                    0 <= k < prev.len() && (#[trigger] prev[k]).group == head[i].group
                        && prev[k].year == head[i].year;
                assert(!line_precedes(pieces[pieces.len() - 1], pieces[k]));
            } else {
                assert(all[i] == tail[i - head.len()]);
                assert(all[j] == tail[j - head.len()]);
            }
        }
    }
}

/// The settled pieces have the shape of the bins.
pub proof fn lemma_settled_shape(bins: Seq<Bin>, mode: Aggregation)
    requires
        settled_all(bins, mode) is Some,
    ensures
        same_shape(pieces_in(bins), settled_all(bins, mode)->Some_0),
{
    lemma_settled_each(bins, mode);
    let out = settled_all(bins, mode)->Some_0;
    assert forall|i: int| 0 <= i < bins.len() implies same_place(
        #[trigger] pieces_in(bins)[i],
        out[i],
    ) by {
        assert(settled(bins[i], mode) == Some(out[i]));
    }
}

/// Coverage under resampling: a series on the global axis that covers each group
/// and year from hour zero on without gap or overlap, its groups and years in
/// order, is resampled to a series that does so too, up to the same hour, and
/// that is in the order of group, year and start.
pub proof fn lemma_resampled_tiled(axis: Seq<Piece>, w: int, mode: Aggregation, x: Piece)
    requires
        w > 0,
        flat(axis),
        tiled(axis),
        lines_ordered(axis),
        resampled(axis, w, mode) is Some,
    ensures
        flat(resampled(axis, w, mode)->Some_0),
        tiled(resampled(axis, w, mode)->Some_0),
        ordered(resampled(axis, w, mode)->Some_0),
        horizon(resampled(axis, w, mode)->Some_0, x) == horizon(axis, x),
{
    let parts = exploded(axis, w);
    lemma_exploded_tiled(axis, w, x);
    lemma_exploded_horizon(axis, w, x);
    lemma_exploded_lines_ordered(axis, w);
    lemma_binned_tiled(parts, w, x);
    let bins = binned(parts, w)->Some_0;
    lemma_settled_shape(bins, mode);
    let out = resampled(axis, w, mode)->Some_0;
    lemma_same_shape(pieces_in(bins), out, x);
    lemma_tiled_ordered(out);
}

/// Coverage of the answer: a series on the global axis that covers each group and
/// year from hour zero on without gap or overlap is, at any resolution, answered by
/// segments that are in the order of group, year and start, do not overlap, leave
/// no gap, start at hour zero and reach up to the same hour; and no two
/// neighbours of one group and year have the same value.
pub proof fn lemma_coverage(axis: Seq<Piece>, w: int, mode: Aggregation, x: Piece)
    requires
        w > 0,
        flat(axis),
        tiled(axis),
        lines_ordered(axis),
        resampled(axis, w, mode) is Some,
    ensures
        flat(compacted(arranged(resampled(axis, w, mode)->Some_0))),
        tiled(compacted(arranged(resampled(axis, w, mode)->Some_0))),
        ordered(compacted(arranged(resampled(axis, w, mode)->Some_0))),
        maximal(compacted(arranged(resampled(axis, w, mode)->Some_0))),
        horizon(compacted(arranged(resampled(axis, w, mode)->Some_0)), x) == horizon(axis, x),
{
    let r = resampled(axis, w, mode)->Some_0;
    lemma_resampled_tiled(axis, w, mode, x);
    lemma_arranged_of_ordered(r);
    lemma_compacted_tiled(r);
    lemma_compacted_ordered(r);
    lemma_compacted_flat(r);
    lemma_compacted_maximal(r);
    lemma_compacted_horizon(r, x);
}

/// The series with every piece in period zero: on the global axis the periods are
/// no longer apart, and a partition is a group in a year.
pub open spec fn flattened(s: Seq<Piece>) -> Seq<Piece> {
    Seq::new(s.len(), |i: int| Piece { period: 0, ..s[i] })
}

/// The parts of a piece do not depend on its period.
pub proof fn lemma_slices_flattened(p: Piece, from: int, w: int)
    ensures
        slices_from(p, from, w) == slices_from(Piece { period: 0, ..p }, from, w),
    decreases p.end - from,
{
    let cut = window_end(from, w);
    if !(w <= 0 || from < 0 || from >= p.end) && !(p.end <= cut || cut <= from) {
        lemma_slices_flattened(p, cut, w);
    }
}

/// Resampling does not depend on the periods of the pieces.
pub proof fn lemma_exploded_flattened(s: Seq<Piece>, w: int)
    ensures
        exploded(s, w) == exploded(flattened(s), w),
    decreases s.len(),
{
    if s.len() > 0 {
        lemma_exploded_flattened(s.drop_last(), w);
        assert(flattened(s).drop_last() =~= flattened(s.drop_last()));
        lemma_slices_flattened(s.last(), s.last().start as int, w);
    }
}

/// The piece at `i` is the last of its partition that stands there: the list ends
/// with it, or the next piece lies in another partition.
pub open spec fn ends_run(s: Seq<Piece>, i: int) -> bool {
    i == s.len() - 1 || !same_partition(s[i], s[i + 1])
}

/// Every period is covered up to its hours: where the pieces of a period end in
/// the list, the period ends.
pub open spec fn reaches(s: Seq<Piece>, places: Seq<Placement>) -> bool {
    forall|i: int|
        0 <= i < s.len() && ends_run(s, i) ==> (#[trigger] s[i]).end == duration(
            places,
            s[i].year,
            s[i].period,
        )
}

/// Laying the periods end to end gives coverage: where the series, in the order of
/// group, year, period and start, covers each period from its start to its end
/// without gap or overlap, the series on the global axis covers each group and
/// year from hour zero on without gap or overlap, and its groups and years come in
/// order.
pub proof fn lemma_shifted_tiled(s: Seq<Piece>, n: int, places: Seq<Placement>)
    requires
        ordered(s),
        tiled(s),
        reaches(s, places),
        0 <= n <= s.len(),
        shifted(s, n, places) is Some,
    ensures
        shifted(s, n, places)->Some_0.len() == n,
        tiled(flattened(shifted(s, n, places)->Some_0)),
        lines_ordered(flattened(shifted(s, n, places)->Some_0)),
        forall|k: int|
            0 <= k < n ==> same_line(#[trigger] flattened(shifted(s, n, places)->Some_0)[k], s[k]),
        n > 0 ==> flattened(shifted(s, n, places)->Some_0).last().end == s[n - 1].end + offset_at(
            s,
            n - 1,
            places,
        ),
    decreases n,
{
    if n > 0 {
        lemma_shifted_tiled(s, n - 1, places);
        let before = flattened(shifted(s, n - 1, places)->Some_0);
        let all = flattened(shifted(s, n, places)->Some_0);
        let q = s[n - 1];
        assert(all.drop_last() =~= before);
        lemma_tiled_pieces(s, n - 1);
        if n > 1 {
            assert(!same_partition(s[n - 2], s[n - 1]) ==> ends_run(s, n - 2));
            assert(!precedes(s[n - 1], s[n - 2]));
        }
        assert forall|k: int| 0 <= k < n implies same_line(#[trigger] all[k], s[k]) by {
            if k < n - 1 {
                assert(all[k] == before[k]);
            }
        }
        assert(fits_after(before, all.last())) by {
            if seen(before, all.last()) && !(n > 1 && same_line(s[n - 2], q)) {
                let k = choose|k: int|
                    0 <= k < before.len() && same_partition(#[trigger] before[k], all.last());
                assert(same_line(before[k], s[k]));
                assert(!precedes(s[n - 1], s[k]));
                if k < n - 2 {
                    assert(!precedes(s[n - 2], s[k]));
                }
            }
            if n > 1 {
                assert(same_line(before[n - 2], s[n - 2]));
            }
        }
        assert forall|i: int, j: int| 0 <= i < j < all.len() implies !line_precedes(
            all[j],
            all[i],
        ) by {
            assert(same_line(all[i], s[i]));
            assert(same_line(all[j], s[j]));
            assert(!precedes(s[j], s[i]));
        }
    } else {
        assert(flattened(shifted(s, n, places)->Some_0) =~= Seq::<Piece>::empty());
    }
}

/// Coverage of the pipeline's answer. Let the series of the periods, in the order of
/// group, year, period and start, cover each period from its start to its end
/// without gap or overlap. Then the answer at any resolution is, per group and year, a run of
/// segments in the order of time that starts at hour zero, leaves no gap, has no
/// overlap, and ends at the hour where the periods laid end to end end; and no two
/// neighbours in it have the same value.
pub proof fn lemma_answer_coverage(local: Seq<Piece>, w: int, mode: Aggregation, x: Piece, places: Seq<Placement>)
    requires
        w > 0,
        tiled(arranged(local)),
        reaches(arranged(local), places),
        on_global_axis(local, places) is Some,
        resampled(on_global_axis(local, places)->Some_0, w, mode) is Some,
    ensures
        flat(compacted(arranged(resampled(on_global_axis(local, places)->Some_0, w, mode)->Some_0))),
        tiled(compacted(arranged(resampled(on_global_axis(local, places)->Some_0, w, mode)->Some_0))),
        ordered(compacted(arranged(resampled(on_global_axis(local, places)->Some_0, w, mode)->Some_0))),
        maximal(compacted(arranged(resampled(on_global_axis(local, places)->Some_0, w, mode)->Some_0))),
        horizon(
            compacted(arranged(resampled(on_global_axis(local, places)->Some_0, w, mode)->Some_0)),
            x,
        ) == horizon(flattened(on_global_axis(local, places)->Some_0), x),
{
    let s = arranged(local);
    lemma_arranged(local);
    lemma_shifted_tiled(s, s.len() as int, places);
    let axis = on_global_axis(local, places)->Some_0;
    lemma_exploded_flattened(axis, w);
    assert(resampled(axis, w, mode) == resampled(flattened(axis), w, mode));
    assert(flat(flattened(axis)));
    lemma_coverage(flattened(axis), w, mode, x);
}

} // verus!
