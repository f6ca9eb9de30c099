//! Resampling: a series on the global time axis is cut at the multiples of a window
//! width, and each window gets the sum or the average of the values on it, each
//! value weighted by the hours it holds in the window.
use crate::series::{same_line, EngineError, Piece};
use crate::text::{chars_equal, chars_of};
use vstd::prelude::*;

verus! {

/// How the values on one window become one value.
#[derive(Clone, Copy, Debug, PartialEq, Eq, Structural)]
pub enum Aggregation {
    /// The sum of the values, each times its hours in the window.
    Sum,
    /// That sum over the hours of the window that the series covers.
    Avg,
}

/// Reads an aggregation mode: `sum` or `avg`, and nothing else.
pub fn parse_aggregation(text: &str) -> (mode: Result<Aggregation, EngineError>)
    ensures
        text@ == "sum"@ ==> mode == Ok::<Aggregation, EngineError>(Aggregation::Sum),
        text@ == "avg"@ ==> mode == Ok::<Aggregation, EngineError>(Aggregation::Avg),
        text@ != "sum"@ && text@ != "avg"@ ==> mode == Err::<Aggregation, EngineError>(
            EngineError::UnknownMode,
        ),
{
    let t: Vec<char> = chars_of(text);
    proof {
        reveal_strlit("sum");
        reveal_strlit("avg");
        assert("sum"@[0] != "avg"@[0]);
    }
    if chars_equal(&t, &chars_of("sum")) {
        Ok(Aggregation::Sum)
    } else if chars_equal(&t, &chars_of("avg")) {
        Ok(Aggregation::Avg)
    } else {
        Err(EngineError::UnknownMode)
    }
}

/// The end of the window of width `w` in which the hour `t` lies: the next multiple
/// of `w` after `t`.
pub open spec fn window_end(t: int, w: int) -> int {
    (t / w + 1) * w
}

/// The parts of `p` from the hour `from` on, in the order of time: what is left of
/// `p` is cut at every multiple of `w` inside it.
pub open spec fn slices_from(p: Piece, from: int, w: int) -> Seq<Piece>
    decreases p.end - from,
{
    if w <= 0 || from < 0 || from >= p.end {
        Seq::empty()
    } else {
        let cut = window_end(from, w);
        if p.end <= cut || cut <= from {
            seq![Piece { period: 0, start: from as u64, ..p }]
        } else {
            seq![Piece { period: 0, start: from as u64, end: cut as u64, ..p }] + slices_from(
                p,
                cut,
                w,
            )
        }
    }
}

/// The parts of `p` in the windows of width `w`, in the order of time: `p` is cut at
/// every multiple of `w` inside it. An empty piece has no part. The parts lie in
/// period zero: on the global axis the periods are no longer apart.
pub open spec fn slices(p: Piece, w: int) -> Seq<Piece> {
    slices_from(p, p.start as int, w)
}

/// The parts of all pieces in the windows of width `w`, piece after piece.
pub open spec fn exploded(pieces: Seq<Piece>, w: int) -> Seq<Piece>
    decreases pieces.len(),
{
    if pieces.len() == 0 {
        Seq::empty()
    } else {
        exploded(pieces.drop_last(), w) + slices(pieces.last(), w)
    }
}

/// What has gathered on one window: the stretch that the parts cover, from the
/// smallest start to the largest end, with the sum of their values, each times its
/// hours; and the sum of those hours.
#[derive(Clone, Copy, Debug, PartialEq, Eq, Structural)]
pub struct Bin {
    pub piece: Piece,
    pub hours: u64,
}

/// Both parts lie in the same window of the same group and year.
pub open spec fn same_window(a: Piece, b: Piece, w: int) -> bool {
    same_line(a, b) && a.start as int / w == b.start as int / w
}

/// The place of the first bin on the window of `x`, or the number of bins if
/// there is none.
pub open spec fn window_index(bins: Seq<Bin>, x: Piece, w: int) -> int
    decreases bins.len(),
{
    if bins.len() == 0 {
        0
    } else {
        let i = window_index(bins.drop_last(), x, w);
        if i < bins.len() - 1 {
            i
        } else if same_window(bins.last().piece, x, w) {
            bins.len() - 1
        } else {
            bins.len() as int
        }
    }
}

/// The bin `bin` with the part `x` added, unless a sum does not fit.
pub open spec fn loaded(bin: Bin, x: Piece) -> Option<Bin> {
    match x.value.times(x.end - x.start) {
        None => None,
        Some(load) => match bin.piece.value.plus(load) {
            None => None,
            Some(value) => if bin.hours + (x.end - x.start) > u64::MAX {
                None
            } else {
                Some(
                    Bin {
                        piece: Piece {
                            start: if x.start < bin.piece.start {
                                x.start
                            } else {
                                bin.piece.start
                            },
                            end: if x.end > bin.piece.end {
                                x.end
                            } else {
                                bin.piece.end
                            },
                            value,
                            ..bin.piece
                        },
                        hours: (bin.hours + (x.end - x.start)) as u64,
                    },
                )
            },
        },
    }
}

/// The bin that the part `x` makes alone, unless its product does not fit.
pub open spec fn opened(x: Piece) -> Option<Bin> {
    match x.value.times(x.end - x.start) {
        None => None,
        Some(load) => Some(Bin { piece: Piece { value: load, ..x }, hours: (x.end - x.start) as u64 }),
    }
}

/// The bins with the part `x` added: to the bin on its window, or as a new last bin.
pub open spec fn with_part(bins: Seq<Bin>, x: Piece, w: int) -> Option<Seq<Bin>> {
    let i = window_index(bins, x, w);
    if i < bins.len() {
        match loaded(bins[i], x) {
            None => None,
            Some(bin) => Some(bins.update(i, bin)),
        }
    } else {
        match opened(x) {
            None => None,
            Some(bin) => Some(bins.push(bin)),
        }
    }
}

/// One bin per window that holds a part, in the order in which the windows first
/// occur, unless a sum does not fit.
pub open spec fn binned(parts: Seq<Piece>, w: int) -> Option<Seq<Bin>>
    decreases parts.len(),
{
    if parts.len() == 0 {
        Some(Seq::empty())
    } else {
        match binned(parts.drop_last(), w) {
            None => None,
            Some(bins) => with_part(bins, parts.last(), w),
        }
    }
}

/// The piece that a bin gives: its stretch with its sum, or with its sum over its
/// hours.
pub open spec fn settled(bin: Bin, mode: Aggregation) -> Option<Piece> {
    match mode {
        Aggregation::Sum => Some(bin.piece),
        Aggregation::Avg => match bin.piece.value.over(bin.hours as int) {
            None => None,
            Some(value) => Some(Piece { value, ..bin.piece }),
        },
    }
}

/// The pieces of all bins, unless a quotient does not fit.
pub open spec fn settled_all(bins: Seq<Bin>, mode: Aggregation) -> Option<Seq<Piece>>
    decreases bins.len(),
{
    if bins.len() == 0 {
        Some(Seq::empty())
    } else {
        match settled_all(bins.drop_last(), mode) {
            None => None,
            Some(pieces) => match settled(bins.last(), mode) {
                None => None,
                Some(piece) => Some(pieces.push(piece)),
            },
        }
    }
}

/// The series at windows of width `w`: per group, year and window one piece, with
/// the sum or average of the values on the window. `None` where a sum, a product
/// or a quotient does not fit.
pub open spec fn resampled(pieces: Seq<Piece>, w: int, mode: Aggregation) -> Option<Seq<Piece>> {
    match binned(exploded(pieces, w), w) {
        None => None,
        Some(bins) => settled_all(bins, mode),
    }
}

/// The next multiple of `w` after `t` lies beyond `t`, at most `w` away, and `t`
/// lies in the window that ends there.
pub proof fn lemma_next_multiple(t: int, w: int)
    requires
        t >= 0,
        w > 0,
    ensures
        (t / w) * w <= t < (t / w + 1) * w,
        (t / w + 1) * w <= t + w,
        t / w >= 0,
{
    assert(t == (t / w) * w + t % w && 0 <= t % w < w && t / w >= 0) by (nonlinear_arith)
        requires
            t >= 0,
            w > 0,
    ;
    assert((t / w + 1) * w == (t / w) * w + w) by (nonlinear_arith);
}

/// An hour between a multiple of `w` and the next lies in the window that starts at
/// that multiple.
pub proof fn lemma_in_window(x: int, k: int, w: int)
    requires
        w > 0,
        k * w <= x < (k + 1) * w,
    ensures
        x / w == k,
{
    assert(x / w == k) by (nonlinear_arith)
        requires
            w > 0,
            k * w <= x < (k + 1) * w,
    ;
}

/// The window of a later hour is not an earlier one.
pub proof fn lemma_window_monotone(a: int, b: int, w: int)
    requires
        w > 0,
        0 <= a <= b,
    ensures
        a / w <= b / w,
{
    assert(a / w <= b / w) by (nonlinear_arith)
        requires
            w > 0,
            0 <= a <= b,
    ;
}

/// The parts of a piece follow each other from `from` to the end of the piece; each
/// lies in the piece's group and year, in period zero, inside one window, holds
/// the piece's value and is not empty; each but the last ends at the end of its
/// window.
pub proof fn lemma_slices_shape(p: Piece, from: int, w: int)
    requires
        w > 0,
        p.start <= from < p.end,
    ensures
        slices_from(p, from, w).len() >= 1,
        slices_from(p, from, w)[0].start == from,
        slices_from(p, from, w).last().end == p.end,
        forall|i: int|
            0 <= i < slices_from(p, from, w).len() ==> {
                let x = #[trigger] slices_from(p, from, w)[i];
                &&& x.group == p.group
                &&& x.year == p.year
                &&& x.period == 0
                &&& x.value == p.value
                &&& from <= x.start < x.end <= p.end
                &&& x.start as int / w == (x.end - 1) / w
            },
        forall|i: int|
            0 < i < slices_from(p, from, w).len() ==> (#[trigger] slices_from(p, from, w)[i]).start
                == slices_from(p, from, w)[i - 1].end && slices_from(p, from, w)[i].start as int
                / w > slices_from(p, from, w)[i - 1].start as int / w,
    decreases p.end - from,
{
    let cut = window_end(from, w);
    lemma_next_multiple(from, w);
    let all = slices_from(p, from, w);
    if p.end <= cut {
        lemma_in_window(p.end - 1, from / w, w);
    } else {
        lemma_slices_shape(p, cut, w);
        let rest = slices_from(p, cut, w);
        lemma_in_window(cut - 1, from / w, w);
        assert((from / w + 1 + 1) * w == (from / w + 1) * w + w) by (nonlinear_arith);
        lemma_in_window(cut, from / w + 1, w);
        assert forall|i: int| 0 <= i < all.len() implies {
            let x = #[trigger] all[i];
            &&& x.group == p.group
            &&& x.year == p.year
            &&& x.period == 0
            &&& x.value == p.value
            &&& from <= x.start < x.end <= p.end
            &&& x.start as int / w == (x.end - 1) / w
        } by {
            if i > 0 {
                assert(all[i] == rest[i - 1]);
            }
        }
        assert forall|i: int| 0 < i < all.len() implies (#[trigger] all[i]).start == all[i
            - 1].end && all[i].start as int / w > all[i - 1].start as int / w by {
            assert(all[i] == rest[i - 1]);
            if i > 1 {
                assert(all[i - 1] == rest[i - 2]);
            }
        }
        assert(all.last() == rest.last());
    }
}

/// Appends the parts of `p` in the windows of width `w` to `out`.
fn push_slices(out: &mut Vec<Piece>, p: Piece, w: u64)
    requires
        w > 0,
    ensures
        final(out)@ == old(out)@ + slices(p, w as int),
{
    let mut from: u64 = p.start;
    while from < p.end
        invariant
            w > 0,
            p.start <= from,
            out@ + slices_from(p, from as int, w as int) == old(out)@ + slices(p, w as int),
        decreases p.end - from,
    {
        let ghost before = out@;
        let ghost at = from as int;
        let window: u128 = (from / w) as u128;
        let width: u128 = w as u128;
        assert(0 <= (window + 1) * width <= 0xffff_ffff_ffff_ffff_0000_0000_0000_0000)
            by (nonlinear_arith)
            requires
                0 <= window <= 0xffff_ffff_ffff_ffff,
                0 < width <= 0xffff_ffff_ffff_ffff,
        ;
        let cut: u128 = (window + 1) * width;
        proof {
            lemma_next_multiple(at, w as int);
            assert(cut == window_end(at, w as int));
        }
        if p.end as u128 <= cut {
            out.push(
                Piece {
                    group: p.group,
                    year: p.year,
                    period: 0,
                    start: from,
                    end: p.end,
                    value: p.value,
                },
            );
            from = p.end;
            proof {
                assert(slices_from(p, from as int, w as int) =~= Seq::<Piece>::empty());
                assert(out@ + slices_from(p, from as int, w as int) =~= before + slices_from(
                    p,
                    at,
                    w as int,
                ));
            }
        } else {
            let cut: u64 = cut as u64;
            out.push(
                Piece {
                    group: p.group,
                    year: p.year,
                    period: 0,
                    start: from,
                    end: cut,
                    value: p.value,
                },
            );
            from = cut;
            proof {
                assert(out@ + slices_from(p, from as int, w as int) =~= before + slices_from(
                    p,
                    at,
                    w as int,
                ));
            }
        }
    }
    assert(slices_from(p, from as int, w as int) =~= Seq::<Piece>::empty());
    assert(out@ + Seq::<Piece>::empty() =~= out@);
}

/// With a width of zero there are no windows, and no parts.
pub proof fn lemma_exploded_without_width(pieces: Seq<Piece>)
    ensures
        exploded(pieces, 0) == Seq::<Piece>::empty(),
    decreases pieces.len(),
{
    if pieces.len() > 0 {
        lemma_exploded_without_width(pieces.drop_last());
        assert(exploded(pieces, 0) =~= Seq::<Piece>::empty());
    }
}

/// Cuts all pieces at the multiples of `w`. With a width of zero there are no
/// windows, and no parts.
pub fn explode(pieces: &Vec<Piece>, w: u64) -> (parts: Vec<Piece>)
    ensures
        parts@ == exploded(pieces@, w as int),
{
    let mut parts: Vec<Piece> = Vec::new();
    if w == 0 {
        proof {
            lemma_exploded_without_width(pieces@);
        }
        return parts;
    }
    let mut i: usize = 0;
    while i < pieces.len()
        invariant
            w > 0,
            i <= pieces.len(),
            parts@ == exploded(pieces@.take(i as int), w as int),
        decreases pieces.len() - i,
    {
        proof {
            assert(pieces@.take(i + 1).drop_last() =~= pieces@.take(i as int));
        }
        push_slices(&mut parts, pieces[i], w);
        i += 1;
    }
    assert(pieces@.take(pieces.len() as int) =~= pieces@);
    parts
}

/// The place of the first bin on the window of `x`, or the number of bins.
fn find_window(bins: &Vec<Bin>, x: &Piece, w: u64) -> (i: usize)
    requires
        w > 0,
    ensures
        i == window_index(bins@, *x, w as int),
        i <= bins.len(),
        i < bins.len() ==> same_window(bins@[i as int].piece, *x, w as int),
{
    let mut i: usize = 0;
    while i < bins.len()
        invariant
            w > 0,
            i <= bins.len(),
            window_index(bins@.take(i as int), *x, w as int) == i,
        decreases bins.len() - i,
    {
        let b: Piece = bins[i].piece;
        proof {
            assert(bins@.take(i + 1).drop_last() =~= bins@.take(i as int));
        }
        if b.group == x.group && b.year == x.year && b.start / w == x.start / w {
            proof {
                lemma_window_index_found(bins@, *x, w as int, i as int);
            }
            return i;
        }
        i += 1;
    }
    assert(bins@.take(bins.len() as int) =~= bins@);
    i
}

/// Once a prefix holds a bin on the window of `x`, the place of the first such bin
/// is the same in every longer list.
pub proof fn lemma_window_index_found(bins: Seq<Bin>, x: Piece, w: int, i: int)
    requires
        0 <= i < bins.len(),
        window_index(bins.take(i), x, w) == i,
        same_window(bins[i].piece, x, w),
    ensures
        window_index(bins, x, w) == i,
    decreases bins.len(),
{
    if bins.len() == i + 1 {
        assert(bins.drop_last() =~= bins.take(i));
    } else {
        assert(bins.drop_last().take(i) =~= bins.take(i));
        lemma_window_index_found(bins.drop_last(), x, w, i);
    }
}

/// Adds the part `x` to the bins.
fn add_part(bins: &mut Vec<Bin>, x: Piece, w: u64) -> (done: bool)
    requires
        w > 0,
        x.start < x.end,
    ensures
        done ==> with_part(old(bins)@, x, w as int) == Some(final(bins)@),
        !done ==> with_part(old(bins)@, x, w as int) is None,
{
    let hours: u64 = x.end - x.start;
    let i: usize = find_window(bins, &x, w);
    match x.value.checked_scale(hours) {
        None => false,
        Some(load) => {
            if i < bins.len() {
                let bin: Bin = bins[i];
                match bin.piece.value.checked_add(&load) {
                    None => false,
                    Some(value) => {
                        if bin.hours > u64::MAX - hours {
                            false
                        } else {
                            let grown = Bin {
                                piece: Piece {
                                    group: bin.piece.group,
                                    year: bin.piece.year,
                                    period: bin.piece.period,
                                    start: if x.start < bin.piece.start {
                                        x.start
                                    } else {
                                        bin.piece.start
                                    },
                                    end: if x.end > bin.piece.end {
                                        x.end
                                    } else {
                                        bin.piece.end
                                    },
                                    value,
                                },
                                hours: bin.hours + hours,
                            };
                            bins.set(i, grown);
                            true
                        }
                    },
                }
            } else {
                bins.push(
                    Bin {
                        piece: Piece {
                            group: x.group,
                            year: x.year,
                            period: x.period,
                            start: x.start,
                            end: x.end,
                            value: load,
                        },
                        hours,
                    },
                );
                true
            }
        },
    }
}

/// Every part of a piece is a stretch that is not empty.
pub proof fn lemma_slices_not_empty(p: Piece, from: int, w: int)
    requires
        p.start <= from,
    ensures
        forall|i: int|
            0 <= i < slices_from(p, from, w).len() ==> (#[trigger] slices_from(
                p,
                from,
                w,
            )[i]).start < slices_from(p, from, w)[i].end,
    decreases p.end - from,
{
    if w > 0 && from < p.end {
        let cut = window_end(from, w);
        lemma_next_multiple(from, w);
        if p.end > cut {
            lemma_slices_not_empty(p, cut, w);
            let all = slices_from(p, from, w);
            assert forall|i: int| 0 <= i < all.len() implies (#[trigger] all[i]).start
                < all[i].end by {
                if i > 0 {
                    assert(all[i] == slices_from(p, cut, w)[i - 1]);
                }
            }
        }
    }
}

/// No part of any piece is an empty stretch.
pub proof fn lemma_exploded_not_empty(pieces: Seq<Piece>, w: int)
    ensures
        forall|i: int|
            0 <= i < exploded(pieces, w).len() ==> (#[trigger] exploded(pieces, w)[i]).start
                < exploded(pieces, w)[i].end,
    decreases pieces.len(),
{
    if pieces.len() > 0 {
        lemma_exploded_not_empty(pieces.drop_last(), w);
        lemma_slices_not_empty(pieces.last(), pieces.last().start as int, w);
        let head = exploded(pieces.drop_last(), w);
        let tail = slices(pieces.last(), w);
        assert forall|i: int| 0 <= i < exploded(pieces, w).len() implies (#[trigger] exploded(
            pieces,
            w,
        )[i]).start < exploded(pieces, w)[i].end by {
            if i < head.len() {
                assert(exploded(pieces, w)[i] == head[i]);
            } else {
                assert(exploded(pieces, w)[i] == tail[i - head.len()]);
            }
        }
    }
}

/// Gathers the parts on their windows.
fn bin_parts(parts: &Vec<Piece>, w: u64) -> (bins: Option<Vec<Bin>>)
    requires
        w > 0,
        forall|i: int| 0 <= i < parts@.len() ==> (#[trigger] parts@[i]).start < parts@[i].end,
    ensures
        match bins {
            Some(b) => binned(parts@, w as int) == Some(b@),
            None => binned(parts@, w as int) is None,
        },
{
    let mut bins: Vec<Bin> = Vec::new();
    let mut i: usize = 0;
    while i < parts.len()
        invariant
            w > 0,
            i <= parts.len(),
            forall|i: int| 0 <= i < parts@.len() ==> (#[trigger] parts@[i]).start < parts@[i].end,
            binned(parts@.take(i as int), w as int) == Some(bins@),
        decreases parts.len() - i,
    {
        proof {
            assert(parts@.take(i + 1).drop_last() =~= parts@.take(i as int));
        }
        if !add_part(&mut bins, parts[i], w) {
            proof {
                lemma_binned_prefix_none(parts@, w as int, i + 1);
            }
            return None;
        }
        i += 1;
    }
    assert(parts@.take(parts.len() as int) =~= parts@);
    Some(bins)
}

/// Where the parts up to some place cannot be gathered, all of them cannot.
pub proof fn lemma_binned_prefix_none(parts: Seq<Piece>, w: int, n: int)
    requires
        0 <= n <= parts.len(),
        binned(parts.take(n), w) is None,
    ensures
        binned(parts, w) is None,
    decreases parts.len(),
{
    if n < parts.len() {
        assert(parts.drop_last().take(n) =~= parts.take(n));
        lemma_binned_prefix_none(parts.drop_last(), w, n);
    } else {
        assert(parts.take(n) =~= parts);
    }
}

/// Where the bins up to some place cannot be settled, all of them cannot.
pub proof fn lemma_settled_prefix_none(bins: Seq<Bin>, mode: Aggregation, n: int)
    requires
        0 <= n <= bins.len(),
        settled_all(bins.take(n), mode) is None,
    ensures
        settled_all(bins, mode) is None,
    decreases bins.len(),
{
    if n < bins.len() {
        assert(bins.drop_last().take(n) =~= bins.take(n));
        lemma_settled_prefix_none(bins.drop_last(), mode, n);
    } else {
        assert(bins.take(n) =~= bins);
    }
}

/// The settled pieces stand bin by bin.
pub proof fn lemma_settled_each(bins: Seq<Bin>, mode: Aggregation)
    requires
        settled_all(bins, mode) is Some,
    ensures
        settled_all(bins, mode)->Some_0.len() == bins.len(),
        forall|i: int|
            0 <= i < bins.len() ==> settled(bins[i], mode) == Some(
                #[trigger] settled_all(bins, mode)->Some_0[i],
            ),
    decreases bins.len(),
{
    if bins.len() > 0 {
        lemma_settled_each(bins.drop_last(), mode);
        let before = settled_all(bins.drop_last(), mode)->Some_0;
        let all = settled_all(bins, mode)->Some_0;
        assert forall|i: int| 0 <= i < bins.len() implies settled(bins[i], mode) == Some(
            #[trigger] all[i],
        ) by {
            if i < bins.len() - 1 {
                assert(all[i] == before[i]);
                assert(bins.drop_last()[i] == bins[i]);
            }
        }
    }
}

/// Resamples a series on the global time axis at windows of `width` hours. Each
/// piece is cut at the multiples of `width`; per group, year and window the parts
/// give one piece, which reaches from the first hour to the last hour that they
/// cover and carries their sum or average, weighted by hours. A zero width is
/// refused; so is a series whose sums do not fit.
pub fn resample(pieces: &Vec<Piece>, width: u64, mode: Aggregation) -> (out: Result<
    Vec<Piece>,
    EngineError,
>)
    ensures
        width == 0 ==> out == Err::<Vec<Piece>, EngineError>(EngineError::ZeroWidth),
        width > 0 ==> match resampled(pieces@, width as int, mode) {
            Some(series) => out is Ok && out->Ok_0@ == series,
            None => out == Err::<Vec<Piece>, EngineError>(EngineError::Overflow),
        },
{
    if width == 0 {
        return Err(EngineError::ZeroWidth);
    }
    let parts: Vec<Piece> = explode(pieces, width);
    proof {
        lemma_exploded_not_empty(pieces@, width as int);
    }
    let bins: Vec<Bin> = match bin_parts(&parts, width) {
        None => {
            return Err(EngineError::Overflow);
        },
        Some(bins) => bins,
    };
    let mut out: Vec<Piece> = Vec::new();
    let mut i: usize = 0;
    while i < bins.len()
        invariant
            width > 0,
            i <= bins.len(),
            binned(exploded(pieces@, width as int), width as int) == Some(bins@),
            settled_all(bins@.take(i as int), mode) == Some(out@),
        decreases bins.len() - i,
    {
        let bin: Bin = bins[i];
        proof {
            assert(bins@.take(i + 1).drop_last() =~= bins@.take(i as int));
        }
        match mode {
            Aggregation::Sum => {
                out.push(bin.piece);
            },
            Aggregation::Avg => match bin.piece.value.checked_div(bin.hours) {
                None => {
                    proof {
                        lemma_settled_prefix_none(bins@, mode, i + 1);
                    }
                    return Err(EngineError::Overflow);
                },
                Some(value) => {
                    out.push(
                        Piece {
                            group: bin.piece.group,
                            year: bin.piece.year,
                            period: bin.piece.period,
                            start: bin.piece.start,
                            end: bin.piece.end,
                            value,
                        },
                    );
                },
            },
        }
        i += 1;
    }
    assert(bins@.take(bins.len() as int) =~= bins@);
    Ok(out)
}

} // verus!
