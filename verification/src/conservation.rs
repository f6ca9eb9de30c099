//! Totals: the sum of the values of a series, each times a weight of its group and
//! stretch. The total does not depend on the order and the merging of the pieces,
//! and stage by stage it is the total of the stage before under another weight.
use crate::arrange::{arranged, inserted, precedes};
use crate::breakdown::{bucket_of, classified};
use crate::compaction::{compacted, continues};
use crate::coverage::{lemma_window_index_first, pieces_in};
use crate::gather::{gathered, lemma_place_index_place, place_index};
use crate::model::{CategoryNode, Membership};
use crate::resample::{
    binned, exploded, lemma_next_multiple, lemma_settled_each, lemma_slices_shape, loaded,
    opened, resampled, settled, slices, slices_from, window_end, window_index, Aggregation,
};
use crate::series::{
    fits_after, lemma_tiled_apart, same_partition, same_place, tiled, values_wf, Piece,
};
use crate::timeline::{lemma_offset_not_negative, offset_at, shifted};
use crate::weighting::Placement;
use vstd::prelude::*;

verus! {

/// The total of the series under the weight `wt`: the sum, over all pieces, of the
/// numerator of the value times the weight that the group of the piece has on the
/// stretch of the piece.
pub open spec fn total(s: Seq<Piece>, wt: spec_fn(u64, u32, u64, int, int) -> int) -> int
    decreases s.len(),
{
    if s.len() == 0 {
        0
    } else {
        total(s.drop_last(), wt) + s.last().value.num * at(wt, s.last())
    }
}

/// The weight of a piece: a weight is given to a stretch of a period of a year of
/// a group, and so does not depend on the value of the piece.
pub open spec fn at(wt: spec_fn(u64, u32, u64, int, int) -> int, x: Piece) -> int {
    wt(x.group, x.year, x.period, x.start as int, x.end as int)
}

/// The weight of two stretches of one period that follow each other is the sum of
/// their weights.
pub open spec fn additive(wt: spec_fn(u64, u32, u64, int, int) -> int) -> bool {
    forall|g: u64, y: u32, p: u64, a: int, b: int, c: int|
        a <= b <= c ==> wt(g, y, p, a, c) == #[trigger] wt(g, y, p, a, b) + #[trigger] wt(
            g,
            y,
            p,
            b,
            c,
        )
}

/// The pieces of one partition have values over the same denominator.
pub open spec fn dens_agree(s: Seq<Piece>) -> bool {
    forall|i: int, j: int|
        0 <= i < s.len() && 0 <= j < s.len() && same_partition(s[i], s[j]) ==> s[i].value.den
            == s[j].value.den
}

/// A prefix of a series whose denominators agree is such a series.
pub proof fn lemma_dens_prefix(s: Seq<Piece>)
    requires
        dens_agree(s),
        s.len() > 0,
    ensures
        dens_agree(s.drop_last()),
{
    let prev = s.drop_last();
    assert forall|i: int, j: int|
        0 <= i < prev.len() && 0 <= j < prev.len() && same_partition(
            prev[i],
            prev[j],
        ) implies prev[i].value.den == prev[j].value.den by {
        assert(prev[i] == s[i] && prev[j] == s[j]);
    }
}

/// The total of two lists in a row is the sum of their totals.
pub proof fn lemma_total_append(
    a: Seq<Piece>,
    b: Seq<Piece>,
    wt: spec_fn(u64, u32, u64, int, int) -> int,
)
    ensures
        total(a + b, wt) == total(a, wt) + total(b, wt),
    decreases b.len(),
{
    if b.len() == 0 {
        assert(a + b =~= a);
    } else {
        lemma_total_append(a, b.drop_last(), wt);
        assert((a + b).drop_last() =~= a + b.drop_last());
    }
}

/// The total of a single piece is its share.
pub proof fn lemma_total_one(x: Piece, wt: spec_fn(u64, u32, u64, int, int) -> int)
    ensures
        total(seq![x], wt) == x.value.num * at(wt, x),
{
    assert(seq![x].drop_last() =~= Seq::<Piece>::empty());
    assert(total(Seq::<Piece>::empty(), wt) == 0);
    assert(total(seq![x].drop_last(), wt) == 0);
    assert(seq![x].last() == x);
}

/// Putting a piece into a list raises the total by the piece's share.
pub proof fn lemma_total_inserted(
    s: Seq<Piece>,
    x: Piece,
    wt: spec_fn(u64, u32, u64, int, int) -> int,
)
    ensures
        total(inserted(s, x), wt) == total(s, wt) + x.value.num * at(wt, x),
    decreases s.len(),
{
    if s.len() > 0 && precedes(x, s.last()) {
        lemma_total_inserted(s.drop_last(), x, wt);
        assert(inserted(s, x).drop_last() =~= inserted(s.drop_last(), x));
    } else {
        assert(s.push(x).drop_last() =~= s);
    }
}

/// Arranging keeps the total.
pub proof fn lemma_total_arranged(s: Seq<Piece>, wt: spec_fn(u64, u32, u64, int, int) -> int)
    ensures
        total(arranged(s), wt) == total(s, wt),
    decreases s.len(),
{
    if s.len() > 0 {
        lemma_total_arranged(s.drop_last(), wt);
        lemma_total_inserted(arranged(s.drop_last()), s.last(), wt);
    }
}

/// Replacing one piece changes the total by the difference of the two shares.
pub proof fn lemma_total_update(
    s: Seq<Piece>,
    i: int,
    x: Piece,
    wt: spec_fn(u64, u32, u64, int, int) -> int,
)
    requires
        0 <= i < s.len(),
    ensures
        total(s.update(i, x), wt) == total(s, wt) - s[i].value.num * at(wt, s[i]) + x.value.num
            * at(wt, x),
    decreases s.len(),
{
    if i == s.len() - 1 {
        assert(s.update(i, x).drop_last() =~= s.drop_last());
    } else {
        lemma_total_update(s.drop_last(), i, x, wt);
        assert(s.update(i, x).drop_last() =~= s.drop_last().update(i, x));
    }
}

/// The weight that a group has where its bucket has the weight `wt`.
pub open spec fn regrouped(
    wt: spec_fn(u64, u32, u64, int, int) -> int,
    memberships: Seq<Membership>,
    nodes: Seq<CategoryNode>,
    breakdown: Seq<i32>,
) -> spec_fn(u64, u32, u64, int, int) -> int {
    |g: u64, y: u32, p: u64, a: int, b: int|
        wt(bucket_of(memberships, nodes, g, breakdown) as u64, y, p, a, b)
}

/// The pieces in their buckets have, under a weight, the total that the pieces
/// have where each group has the weight of its bucket.
pub proof fn lemma_total_classified(
    pieces: Seq<Piece>,
    memberships: Seq<Membership>,
    nodes: Seq<CategoryNode>,
    breakdown: Seq<i32>,
    wt: spec_fn(u64, u32, u64, int, int) -> int,
)
    ensures
        total(classified(pieces, memberships, nodes, breakdown), wt) == total(
            pieces,
            regrouped(wt, memberships, nodes, breakdown),
        ),
    decreases pieces.len(),
{
    if pieces.len() > 0 {
        lemma_total_classified(pieces.drop_last(), memberships, nodes, breakdown, wt);
        let renamed = classified(pieces, memberships, nodes, breakdown);
        assert(renamed.drop_last() =~= classified(
            pieces.drop_last(),
            memberships,
            nodes,
            breakdown,
        ));
        assert(at(wt, renamed.last()) == at(
            regrouped(wt, memberships, nodes, breakdown),
            pieces.last(),
        ));
    }
}

/// Every cell has the denominator of a piece on its stretch.
pub open spec fn dens_from(cells: Seq<Piece>, pieces: Seq<Piece>) -> bool {
    forall|k: int|
        0 <= k < cells.len() ==> exists|a: int|
            0 <= a < pieces.len() && same_place(#[trigger] cells[k], #[trigger] pieces[a])
                && cells[k].value.den == pieces[a].value.den
}

/// Gathering keeps the total, where the denominators of each partition agree.
pub proof fn lemma_total_gathered(pieces: Seq<Piece>, wt: spec_fn(u64, u32, u64, int, int) -> int)
    requires
        dens_agree(pieces),
        gathered(pieces) is Some,
    ensures
        total(gathered(pieces)->Some_0, wt) == total(pieces, wt),
        dens_from(gathered(pieces)->Some_0, pieces),
    decreases pieces.len(),
{
    if pieces.len() > 0 {
        let prev = pieces.drop_last();
        let x = pieces.last();
        lemma_dens_prefix(pieces);
        lemma_total_gathered(prev, wt);
        let cells = gathered(prev)->Some_0;
        let all = gathered(pieces)->Some_0;
        let place = place_index(cells, x);
        lemma_place_index_place(cells, x);
        if place < cells.len() {
            let a = choose|a: int|
                0 <= a < prev.len() && same_place(#[trigger] cells[place], #[trigger] prev[a])
                    && cells[place].value.den == prev[a].value.den;
            assert(pieces[a] == prev[a]);
            assert(same_partition(pieces[a], pieces[pieces.len() - 1]));
            assert(cells[place].value.den == x.value.den);
            let grown = Piece { value: cells[place].value.plus(x.value)->Some_0, ..cells[place] };
            lemma_total_update(cells, place, grown, wt);
            assert(at(wt, grown) == at(wt, cells[place]) && at(wt, x) == at(wt, cells[place]));
            let (c, n, w) = (cells[place].value.num as int, x.value.num as int, at(wt, cells[place]));
            assert((c + n) * w == c * w + n * w) by (nonlinear_arith);
        } else {
            assert(all.drop_last() =~= cells);
        }
        assert forall|k: int| 0 <= k < all.len() implies exists|a: int|
            0 <= a < pieces.len() && same_place(#[trigger] all[k], #[trigger] pieces[a])
                && all[k].value.den == pieces[a].value.den by {
            if k < cells.len() {
                let a = choose|a: int|
                    0 <= a < prev.len() && same_place(#[trigger] cells[k], #[trigger] prev[a])
                        && cells[k].value.den == prev[a].value.den;
                assert(pieces[a] == prev[a]);
                assert(same_place(all[k], pieces[a]));
            } else {
                assert(same_place(all[k], pieces[pieces.len() - 1]));
            }
        }
    }
}

/// Compaction keeps the total of a tiled series, where the weight is additive and
/// the denominators of each partition agree.
pub proof fn lemma_total_compacted(rows: Seq<Piece>, wt: spec_fn(u64, u32, u64, int, int) -> int)
    requires
        additive(wt),
        tiled(rows),
        dens_agree(rows),
        values_wf(rows),
    ensures
        total(compacted(rows), wt) == total(rows, wt),
        rows.len() > 0 ==> compacted(rows).len() > 0 && same_partition(
            compacted(rows).last(),
            rows.last(),
        ) && compacted(rows).last().end == rows.last().end && compacted(rows).last().start
            <= compacted(rows).last().end && compacted(rows).last().value.den
            == rows.last().value.den,
    decreases rows.len(),
{
    if rows.len() > 0 {
        let prev = rows.drop_last();
        let r = rows.last();
        let b = compacted(prev);
        let c = compacted(rows);
        lemma_dens_prefix(rows);
        assert(values_wf(prev)) by {
            assert forall|i: int| 0 <= i < prev.len() implies (#[trigger] prev[i]).value.wf() by {
                assert(prev[i] == rows[i]);
            }
        }
        lemma_total_compacted(prev, wt);
        assert(fits_after(prev, r));
        assert(rows[rows.len() - 1].value.wf());
        if b.len() > 0 && continues(b.last(), r) {
            let run = b.last();
            assert(c.drop_last() =~= b.drop_last());
            assert(same_partition(prev.last(), r));
            assert(rows[rows.len() - 2] == prev.last());
            assert(run.value.den == r.value.den);
            assert(run.value.num == r.value.num) by {
                let (a, d, n) = (run.value.num as int, r.value.den as int, r.value.num as int);
                assert(run.value.same(r.value));
                assert(a * d == n * d);
                assert(a == n) by (nonlinear_arith)
                    requires
                        a * d == n * d,
                        d >= 1,
                ;
            }
            let grown = c.last();
            assert(grown == (Piece { end: r.end, ..run }));
            assert(at(wt, grown) == at(wt, run) + at(wt, r)) by {
                assert(wt(run.group, run.year, run.period, run.start as int, r.end as int) == wt(
                    run.group,
                    run.year,
                    run.period,
                    run.start as int,
                    run.end as int,
                ) + wt(run.group, run.year, run.period, run.end as int, r.end as int));
            }
            let (n, x, y) = (run.value.num as int, at(wt, run), at(wt, r));
            assert(n * (x + y) == n * x + n * y) by (nonlinear_arith);
        } else {
            assert(c.drop_last() =~= b);
        }
    }
}

/// One for a piece of a chosen group and the year `y` that starts in the window
/// `b`, zero for any other piece.
pub open spec fn in_window(
    sel: spec_fn(u64) -> bool, y: u32, b: int, w: int) -> spec_fn(u64, u32, u64, int, int,
) -> int {
    |group: u64, year: u32, period: u64, start: int, end: int|
        if sel(group) && year == y && start / w == b {
            1int
        } else {
            0int
        }
}

/// The hours of a piece of a chosen group and the year `y` that starts in the
/// window `b`, zero for any other piece.
pub open spec fn hours_in_window(
    sel: spec_fn(u64) -> bool, y: u32, b: int, w: int) -> spec_fn(u64, u32, u64, int, int,
) -> int {
    |group: u64, year: u32, period: u64, start: int, end: int|
        if sel(group) && year == y && start / w == b {
            end - start
        } else {
            0int
        }
}

/// The hours that the stretch from `start` to `end` has in the window `b`.
pub open spec fn overlap(start: int, end: int, b: int, w: int) -> int {
    let from = if start > b * w {
        start
    } else {
        b * w
    };
    let to = if end < (b + 1) * w {
        end
    } else {
        (b + 1) * w
    };
    if to > from {
        to - from
    } else {
        0
    }
}

/// The hours that a piece of a chosen group and the year `y` has in the window
/// `b`, zero for any other piece.
pub open spec fn hours_of_window(
    sel: spec_fn(u64) -> bool, y: u32, b: int, w: int) -> spec_fn(u64, u32, u64, int, int,
) -> int {
    |group: u64, year: u32, period: u64, start: int, end: int|
        if sel(group) && year == y {
            overlap(start, end, b, w)
        } else {
            0int
        }
}

/// All values stand over the denominator `d`.
pub open spec fn over_den(s: Seq<Piece>, d: int) -> bool {
    forall|i: int| 0 <= i < s.len() ==> (#[trigger] s[i]).value.den == d
}

/// The hours that a stretch has in a window are additive.
pub proof fn lemma_hours_of_window_additive(sel: spec_fn(u64) -> bool, y: u32, b: int, w: int)
    ensures
        additive(hours_of_window(sel, y, b, w)),
{
    let wt = hours_of_window(sel, y, b, w);
    assert forall|g: u64, year: u32, p: u64, a: int, m: int, c: int| a <= m <= c implies wt(
        g,
        year,
        p,
        a,
        c,
    ) == #[trigger] wt(g, year, p, a, m) + #[trigger] wt(g, year, p, m, c) by {}
}

/// The parts of what is left of a piece have, together, the hours that it has in
/// the window.
pub proof fn lemma_slices_hours(
    p: Piece,
    from: int,
    w: int,
    sel: spec_fn(u64) -> bool, y: u32, b: int,
)
    requires
        w > 0,
        p.start <= from <= p.end,
        b >= 0,
    ensures
        total(slices_from(p, from, w), hours_in_window(sel, y, b, w)) == p.value.num * (if sel(p.group) && p.year == y {
            overlap(from, p.end as int, b, w)
        } else {
            0
        }),
    decreases p.end - from,
{
    let wt = hours_in_window(sel, y, b, w);
    let all = slices_from(p, from, w);
    if from < p.end {
        let cut = window_end(from, w);
        let k = from / w;
        lemma_next_multiple(from, w);
        assert(k * w <= from < (k + 1) * w);
        assert(k < b ==> (k + 1) * w <= b * w) by (nonlinear_arith)
            requires
                w > 0,
        ;
        assert(k > b ==> k * w >= (b + 1) * w) by (nonlinear_arith)
            requires
                w > 0,
        ;
        if p.end <= cut {
            let only = Piece { period: 0, start: from as u64, ..p };
            assert(all =~= seq![only]);
            lemma_total_one(only, wt);
            assert(at(wt, only) == if sel(p.group) && p.year == y && k == b {
                p.end - from
            } else {
                0
            });
            let target = if sel(p.group) && p.year == y {
                overlap(from, p.end as int, b, w)
            } else {
                0
            };
            assert(at(wt, only) == target);
        } else {
            let first = Piece { period: 0, start: from as u64, end: cut as u64, ..p };
            let rest = slices_from(p, cut, w);
            lemma_slices_hours(p, cut, w, sel, y, b);
            assert(all =~= seq![first] + rest);
            lemma_total_append(seq![first], rest, wt);
            lemma_total_one(first, wt);
            assert(at(wt, first) == if sel(p.group) && p.year == y && k == b {
                cut - from
            } else {
                0
            });
            let n = p.value.num as int;
            let (h, r) = (at(wt, first), if sel(p.group) && p.year == y {
                overlap(cut, p.end as int, b, w)
            } else {
                0
            });
            assert(n * h + n * r == n * (h + r)) by (nonlinear_arith);
            assert((k + 1 + 1) * w == (k + 1) * w + w) by (nonlinear_arith);
            let target = if sel(p.group) && p.year == y {
                overlap(from, p.end as int, b, w)
            } else {
                0
            };
            assert(h + r == target);
        }
    } else {
        assert(all =~= Seq::<Piece>::empty());
        assert(b * w < (b + 1) * w) by (nonlinear_arith)
            requires
                w > 0,
        ;
        assert(overlap(from, p.end as int, b, w) == 0);
        assert(p.value.num * 0 == 0);
    }
}

/// The parts of a series have, window by window, the hours that the series has in
/// the window.
pub proof fn lemma_exploded_hours(
    pieces: Seq<Piece>,
    w: int,
    sel: spec_fn(u64) -> bool, y: u32, b: int,
)
    requires
        w > 0,
        b >= 0,
    ensures
        total(exploded(pieces, w), hours_in_window(sel, y, b, w)) == total(
            pieces,
            hours_of_window(sel, y, b, w),
        ),
    decreases pieces.len(),
{
    if pieces.len() > 0 {
        let p = pieces.last();
        lemma_exploded_hours(pieces.drop_last(), w, sel, y, b);
        lemma_total_append(
            exploded(pieces.drop_last(), w),
            slices(p, w),
            hours_in_window(sel, y, b, w),
        );
        let wt = hours_of_window(sel, y, b, w);
        assert(at(wt, p) == if sel(p.group) && p.year == y {
            overlap(p.start as int, p.end as int, b, w)
        } else {
            0
        });
        if p.start <= p.end {
            lemma_slices_hours(p, p.start as int, w, sel, y, b);
        } else {
            assert(slices(p, w) =~= Seq::<Piece>::empty());
            assert(b * w < (b + 1) * w) by (nonlinear_arith)
                requires
                    w > 0,
            ;
            assert(overlap(p.start as int, p.end as int, b, w) == 0);
            assert(p.value.num * 0 == 0);
        }
    }
}

/// The bins hold, window by window, the sum of the values of the parts, each times
/// its hours; their values stand over the denominator of the parts.
pub proof fn lemma_binned_total(
    parts: Seq<Piece>,
    w: int,
    d: int,
    sel: spec_fn(u64) -> bool, y: u32, b: int,
)
    requires
        w > 0,
        over_den(parts, d),
        forall|i: int| 0 <= i < parts.len() ==> (#[trigger] parts[i]).start < parts[i].end,
        binned(parts, w) is Some,
    ensures
        total(pieces_in(binned(parts, w)->Some_0), in_window(sel, y, b, w)) == total(
            parts,
            hours_in_window(sel, y, b, w),
        ),
        over_den(pieces_in(binned(parts, w)->Some_0), d),
    decreases parts.len(),
{
    let one = in_window(sel, y, b, w);
    let hours = hours_in_window(sel, y, b, w);
    if parts.len() == 0 {
        assert(pieces_in(binned(parts, w)->Some_0) =~= Seq::<Piece>::empty());
    } else {
        let prev = parts.drop_last();
        let x = parts.last();
        assert(over_den(prev, d)) by {
            assert forall|i: int| 0 <= i < prev.len() implies (#[trigger] prev[i]).value.den
                == d by {
                assert(prev[i] == parts[i]);
            }
        }
        assert forall|i: int| 0 <= i < prev.len() implies (#[trigger] prev[i]).start
            < prev[i].end by {
            assert(prev[i] == parts[i]);
        }
        lemma_binned_total(prev, w, d, sel, y, b);
        let bins0 = binned(prev, w)->Some_0;
        let cells0 = pieces_in(bins0);
        let bins = binned(parts, w)->Some_0;
        let cells = pieces_in(bins);
        let place = window_index(bins0, x, w);
        lemma_window_index_first(bins0, x, w);
        assert(parts[parts.len() - 1].value.den == d);
        assert(parts[parts.len() - 1].start < parts[parts.len() - 1].end);
        let load = x.value.times(x.end - x.start)->Some_0;
        let (n, h) = (x.value.num as int, x.end - x.start);
        if place < bins0.len() {
            let old = bins0[place];
            let grown = loaded(old, x)->Some_0;
            assert(cells0[place] == old.piece);
            assert(old.piece.value.den == d);
            assert(cells =~= cells0.update(place, grown.piece));
            lemma_total_update(cells0, place, grown.piece, one);
            assert(at(one, grown.piece) == at(one, old.piece) && at(one, old.piece) == at(one, x)) by {
                if x.start < old.piece.start {
                    assert(grown.piece.start == x.start);
                } else {
                    assert(grown.piece.start == old.piece.start);
                }
            }
            let (c, i) = (old.piece.value.num as int, at(one, x));
            assert((c + n * h) * i == c * i + n * (h * i)) by (nonlinear_arith);
            assert(at(hours, x) == h * i) by {
                if sel(x.group) && x.year == y && x.start as int / w == b {
                    assert(i == 1 && at(hours, x) == h);
                } else {
                    assert(i == 0 && at(hours, x) == 0);
                }
            }
            assert forall|k: int| 0 <= k < cells.len() implies (#[trigger] cells[k]).value.den
                == d by {
                if k != place {
                    assert(cells[k] == cells0[k]);
                }
            }
        } else {
            let fresh = opened(x)->Some_0;
            assert(cells =~= cells0.push(fresh.piece));
            assert(cells.drop_last() =~= cells0);
            let i = at(one, x);
            assert(at(one, fresh.piece) == i);
            assert((n * h) * i == n * (h * i)) by (nonlinear_arith);
            assert(at(hours, x) == h * i) by {
                if sel(x.group) && x.year == y && x.start as int / w == b {
                    assert(i == 1 && at(hours, x) == h);
                } else {
                    assert(i == 0 && at(hours, x) == 0);
                }
            }
            assert forall|k: int| 0 <= k < cells.len() implies (#[trigger] cells[k]).value.den
                == d by {
                if k < cells0.len() {
                    assert(cells[k] == cells0[k]);
                }
            }
        }
    }
}

/// Conservation under resampling. By the sum, the pieces of a year that start in a
/// window hold together, over the chosen groups, the values of the series of
/// those groups, each times the hours that it has in the window.
pub proof fn lemma_resampled_total(
    axis: Seq<Piece>,
    w: int,
    d: int,
    sel: spec_fn(u64) -> bool, y: u32, b: int,
)
    requires
        w > 0,
        b >= 0,
        over_den(axis, d),
        resampled(axis, w, Aggregation::Sum) is Some,
    ensures
        total(resampled(axis, w, Aggregation::Sum)->Some_0, in_window(sel, y, b, w)) == total(
            axis,
            hours_of_window(sel, y, b, w),
        ),
        over_den(resampled(axis, w, Aggregation::Sum)->Some_0, d),
{
    let parts = exploded(axis, w);
    lemma_exploded_den(axis, w, d);
    lemma_exploded_hours(axis, w, sel, y, b);
    lemma_binned_total(parts, w, d, sel, y, b);
    let bins = binned(parts, w)->Some_0;
    lemma_settled_each(bins, Aggregation::Sum);
    let out = resampled(axis, w, Aggregation::Sum)->Some_0;
    assert(out =~= pieces_in(bins)) by {
        assert forall|i: int| 0 <= i < out.len() implies out[i] == pieces_in(bins)[i] by {
            assert(settled(bins[i], Aggregation::Sum) == Some(out[i]));
        }
    }
}

/// The parts of a series stand over the denominator of the series, and none is an
/// empty stretch.
pub proof fn lemma_exploded_den(pieces: Seq<Piece>, w: int, d: int)
    requires
        w > 0,
        over_den(pieces, d),
    ensures
        over_den(exploded(pieces, w), d),
        forall|i: int|
            0 <= i < exploded(pieces, w).len() ==> (#[trigger] exploded(pieces, w)[i]).start
                < exploded(pieces, w)[i].end,
    decreases pieces.len(),
{
    if pieces.len() > 0 {
        let prev = pieces.drop_last();
        let p = pieces.last();
        assert(over_den(prev, d)) by {
            assert forall|i: int| 0 <= i < prev.len() implies (#[trigger] prev[i]).value.den
                == d by {
                assert(prev[i] == pieces[i]);
            }
        }
        lemma_exploded_den(prev, w, d);
        let head = exploded(prev, w);
        let tail = slices(p, w);
        let all = exploded(pieces, w);
        assert(pieces[pieces.len() - 1].value.den == d);
        if p.start < p.end {
            lemma_slices_shape(p, p.start as int, w);
        }
        assert forall|i: int| 0 <= i < all.len() implies (#[trigger] all[i]).value.den == d
            && all[i].start < all[i].end by {
            if i < head.len() {
                assert(all[i] == head[i]);
            } else {
                assert(all[i] == tail[i - head.len()]);
            }
        }
    }
}

/// The piece lies in the partition of `key` and ends at `lim` or before.
pub open spec fn ends_by(x: Piece, key: Piece, lim: int) -> bool {
    same_partition(x, key) && x.end <= lim
}

/// The sum of the weights of the pieces of a partition that end at `lim` or
/// before.
pub open spec fn below(
    s: Seq<Piece>,
    key: Piece,
    lim: int,
    wc: spec_fn(u64, u32, u64, int, int) -> int,
) -> int
    decreases s.len(),
{
    if s.len() == 0 {
        0
    } else if ends_by(s.last(), key, lim) {
        below(s.drop_last(), key, lim, wc) + at(wc, s.last())
    } else {
        below(s.drop_last(), key, lim, wc)
    }
}

/// The largest end of the pieces of a partition that end at `lim` or before, zero
/// if there is none.
pub open spec fn reach(s: Seq<Piece>, key: Piece, lim: int) -> int
    decreases s.len(),
{
    if s.len() == 0 {
        0
    } else if ends_by(s.last(), key, lim) && s.last().end > reach(s.drop_last(), key, lim) {
        s.last().end as int
    } else {
        reach(s.drop_last(), key, lim)
    }
}

/// The sum of the weights of the pieces of a partition that lie between `from` and
/// `to`.
pub open spec fn within(
    s: Seq<Piece>,
    key: Piece,
    from: int,
    to: int,
    wc: spec_fn(u64, u32, u64, int, int) -> int,
) -> int
    decreases s.len(),
{
    if s.len() == 0 {
        0
    } else if same_partition(s.last(), key) && from <= s.last().start && s.last().end <= to {
        within(s.drop_last(), key, from, to, wc) + at(wc, s.last())
    } else {
        within(s.drop_last(), key, from, to, wc)
    }
}

/// The reach lies between zero and the limit, at or behind the end of every piece
/// that counts, and at the end of one of them unless it is zero.
pub proof fn lemma_reach(s: Seq<Piece>, key: Piece, lim: int)
    requires
        lim >= 0,
    ensures
        0 <= reach(s, key, lim) <= lim,
        forall|i: int|
            0 <= i < s.len() && ends_by(#[trigger] s[i], key, lim) ==> s[i].end <= reach(
                s,
                key,
                lim,
            ),
        reach(s, key, lim) > 0 ==> exists|i: int|
            0 <= i < s.len() && ends_by(#[trigger] s[i], key, lim) && s[i].end == reach(
                s,
                key,
                lim,
            ),
    decreases s.len(),
{
    if s.len() > 0 {
        let prev = s.drop_last();
        lemma_reach(prev, key, lim);
        assert forall|i: int| 0 <= i < s.len() && ends_by(#[trigger] s[i], key, lim) implies s[i].end
            <= reach(s, key, lim) by {
            if i < prev.len() {
                assert(prev[i] == s[i]);
            }
        }
        if reach(s, key, lim) > 0 {
            if ends_by(s.last(), key, lim) && s.last().end > reach(prev, key, lim) {
                assert(ends_by(s[s.len() - 1], key, lim));
            } else {
                let i = choose|i: int|
                    0 <= i < prev.len() && ends_by(#[trigger] prev[i], key, lim) && prev[i].end
                        == reach(prev, key, lim);
                assert(s[i] == prev[i]);
            }
        }
    }
}

/// In a tiled list the pieces of a partition that end by a limit have together the
/// weight of the stretch from zero to their reach.
pub proof fn lemma_below_tiled(
    s: Seq<Piece>,
    key: Piece,
    lim: int,
    wc: spec_fn(u64, u32, u64, int, int) -> int,
)
    requires
        tiled(s),
        additive(wc),
        lim >= 0,
    ensures
        below(s, key, lim, wc) == wc(key.group, key.year, key.period, 0, reach(s, key, lim)),
    decreases s.len(),
{
    assert(wc(key.group, key.year, key.period, 0, 0) == 0) by {
        assert(wc(key.group, key.year, key.period, 0, 0) == wc(
            key.group,
            key.year,
            key.period,
            0,
            0,
        ) + wc(
            key.group,
            key.year,
            key.period,
            0,
            0,
        ));
    }
    if s.len() > 0 {
        let prev = s.drop_last();
        let x = s.last();
        lemma_below_tiled(prev, key, lim, wc);
        lemma_reach(prev, key, lim);
        if ends_by(x, key, lim) {
            assert(fits_after(prev, x));
            let r = reach(prev, key, lim);
            assert(r == x.start) by {
                if prev.len() > 0 && same_partition(prev.last(), x) {
                    assert(ends_by(prev[prev.len() - 1], key, lim));
                    if r > x.start {
                        let i = choose|i: int|
                            0 <= i < prev.len() && ends_by(#[trigger] prev[i], key, lim)
                                && prev[i].end == r;
                        assert(s[i] == prev[i]);
                        if i < s.len() - 1 {
                            lemma_tiled_apart(s, i, s.len() - 1);
                        }
                    }
                } else {
                    if r > 0 {
                        let i = choose|i: int|
                            0 <= i < prev.len() && ends_by(#[trigger] prev[i], key, lim)
                                && prev[i].end == r;
                        assert(same_partition(prev[i], x));
                    }
                }
            }
            assert(wc(key.group, key.year, key.period, 0, x.end as int) == wc(
                key.group,
                key.year,
                key.period,
                0,
                r,
            ) + wc(
                key.group,
                key.year,
                key.period,
                r,
                x.end as int,
            ));
        }
    }
}

/// Where no piece of the partition reaches over `from` from before it, the pieces
/// between `from` and `to` are those that end by `to` but not by `from`.
pub proof fn lemma_within(
    s: Seq<Piece>,
    key: Piece,
    from: int,
    to: int,
    wc: spec_fn(u64, u32, u64, int, int) -> int,
)
    requires
        0 <= from <= to,
        forall|i: int|
            0 <= i < s.len() && same_partition(#[trigger] s[i], key) ==> s[i].start < s[i].end && (
            s[i].end <= from || s[i].start >= from),
    ensures
        within(s, key, from, to, wc) == below(s, key, to, wc) - below(s, key, from, wc),
    decreases s.len(),
{
    if s.len() > 0 {
        let prev = s.drop_last();
        assert forall|i: int| 0 <= i < prev.len() && same_partition(
            #[trigger] prev[i],
            key,
        ) implies prev[i].start < prev[i].end && (prev[i].end <= from || prev[i].start >= from) by {
            assert(prev[i] == s[i]);
        }
        lemma_within(prev, key, from, to, wc);
        assert(s[s.len() - 1] == s.last());
    }
}

/// The weight of a stretch of a period on the global axis, where each period
/// starts at the hour that `off` gives it: the weight `wt` of the stretch moved by
/// that hour, in period zero.
pub open spec fn moved_weight(
    wt: spec_fn(u64, u32, u64, int, int) -> int,
    off: spec_fn(u32, u64) -> int,
) -> spec_fn(u64, u32, u64, int, int) -> int {
    |g: u64, y: u32, p: u64, a: int, b: int| wt(g, y, 0, a + off(y, p), b + off(y, p))
}

/// A weight that does not look at the period.
pub open spec fn any_period(wt: spec_fn(u64, u32, u64, int, int) -> int) -> bool {
    forall|g: u64, y: u32, p: u64, q: u64, a: int, b: int| #[trigger]
        wt(g, y, p, a, b) == #[trigger] wt(g, y, q, a, b)
}

/// The moved weight of an additive weight is additive.
pub proof fn lemma_moved_additive(
    wt: spec_fn(u64, u32, u64, int, int) -> int,
    off: spec_fn(u32, u64) -> int,
)
    requires
        additive(wt),
    ensures
        additive(moved_weight(wt, off)),
{
    let mw = moved_weight(wt, off);
    assert forall|g: u64, y: u32, p: u64, a: int, b: int, c: int| a <= b <= c implies mw(
        g,
        y,
        p,
        a,
        c,
    ) == #[trigger] mw(g, y, p, a, b) + #[trigger] mw(g, y, p, b, c) by {
        let o = off(y, p);
        assert(wt(g, y, 0, a + o, c + o) == wt(g, y, 0, a + o, b + o) + wt(
            g,
            y,
            0,
            b + o,
            c + o,
        ));
    }
}

/// Laying the periods end to end keeps the total, the weight being moved with the
/// periods: where every period starts at the hour that `off` gives it, the
/// series on the global axis has, under a weight that does not look at the
/// period, the total of the series of the periods under the moved weight.
pub proof fn lemma_total_shifted(
    s: Seq<Piece>,
    n: int,
    wt: spec_fn(u64, u32, u64, int, int) -> int,
    off: spec_fn(u32, u64) -> int,
    places: Seq<Placement>,
)
    requires
        0 <= n <= s.len(),
        shifted(s, n, places) is Some,
        any_period(wt),
        forall|i: int|
            0 <= i < s.len() ==> offset_at(s, i, places) == off(
                (#[trigger] s[i]).year,
                s[i].period,
            ),
    ensures
        total(shifted(s, n, places)->Some_0, wt) == total(s.take(n), moved_weight(wt, off)),
    decreases n,
{
    if n > 0 {
        lemma_total_shifted(s, n - 1, wt, off, places);
        let before = shifted(s, n - 1, places)->Some_0;
        let all = shifted(s, n, places)->Some_0;
        let x = s[n - 1];
        assert(all.drop_last() =~= before);
        assert(s.take(n).drop_last() =~= s.take(n - 1));
        assert(s.take(n).last() == x);
        let o = off(x.year, x.period);
        assert(offset_at(s, n - 1, places) == o);
        lemma_offset_not_negative(s, n - 1, places);
        assert(at(wt, all.last()) == wt(x.group, x.year, x.period, x.start + o, x.end + o));
        assert(wt(x.group, x.year, x.period, x.start + o, x.end + o) == wt(
            x.group,
            x.year,
            0,
            x.start + o,
            x.end + o,
        ));
    } else {
        assert(s.take(n) =~= Seq::<Piece>::empty());
    }
}

/// The hours of a window do not look at the period.
pub proof fn lemma_hours_of_window_any_period(sel: spec_fn(u64) -> bool, y: u32, b: int, w: int)
    ensures
        any_period(hours_of_window(sel, y, b, w)),
{
    let wt = hours_of_window(sel, y, b, w);
    assert forall|g: u64, year: u32, p: u64, q: u64, a: int, c: int| #[trigger]
        wt(g, year, p, a, c) == #[trigger] wt(g, year, q, a, c) by {}
}

} // verus!
