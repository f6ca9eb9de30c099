//! Piecewise constant series. A series is a list of pieces; each piece gives one
//! value to one stretch of time of one partition. A partition is a group in a year
//! and, while the periods are still apart, in one period.
use crate::ratio::Ratio;
use crate::text::{append_decimal, append_str, chars_of, decimal, string_of};
use vstd::prelude::*;

verus! {

/// One value on one stretch of time. Before the values are weighted the stretch is
/// the run of native timesteps `start..=end` of a representative period; afterwards
/// it is the hours from `start` up to, not including, `end`.
#[derive(Clone, Copy, Debug, PartialEq, Eq, Structural)]
pub struct Piece {
    pub group: u64,
    pub year: u32,
    pub period: u64,
    pub start: u64,
    pub end: u64,
    pub value: Ratio,
}

/// Why the engine gave no result.
#[derive(Clone, Copy, Debug, PartialEq, Eq, Structural)]
pub enum EngineError {
    /// A sum, a product or a bound left the range that the engine can hold.
    Overflow,
    /// The window width was zero.
    ZeroWidth,
    /// The aggregation mode was neither `sum` nor `avg`.
    UnknownMode,
    /// The selection of the series was none of the known ones.
    UnknownSelection,
    /// The answer is empty where the caller asked for data.
    NoData,
}

/// What went wrong, in words.
pub open spec fn reason_text(error: EngineError) -> Seq<char> {
    match error {
        EngineError::Overflow => "a number does not fit"@,
        EngineError::ZeroWidth => "the resolution is zero hours"@,
        EngineError::UnknownMode => "the aggregation is neither sum nor avg"@,
        EngineError::UnknownSelection => "the selection of the series is not known"@,
        EngineError::NoData => "no data"@,
    }
}

/// The message of an error for the user: what went wrong, on which dataset and for
/// which year.
pub open spec fn error_text(error: EngineError, dataset: Seq<char>, year: u32) -> Seq<char> {
    "Error: "@ + reason_text(error) + " (dataset '"@ + dataset + "', year "@ + decimal(
        year as int,
    ) + ")"@
}

impl EngineError {
    /// Words the error for the user, with the dataset and the year of the request.
    pub fn message(&self, dataset: &str, year: u32) -> (message: String)
        ensures
            message@ == error_text(*self, dataset@, year),
    {
        let mut out: Vec<char> = chars_of("Error: ");
        match self {
            EngineError::Overflow => append_str(&mut out, "a number does not fit"),
            EngineError::ZeroWidth => append_str(&mut out, "the resolution is zero hours"),
            EngineError::UnknownMode => append_str(
                &mut out,
                "the aggregation is neither sum nor avg",
            ),
            EngineError::UnknownSelection => append_str(
                &mut out,
                "the selection of the series is not known",
            ),
            EngineError::NoData => append_str(&mut out, "no data"),
        }
        append_str(&mut out, " (dataset '");
        append_str(&mut out, dataset);
        append_str(&mut out, "', year ");
        append_decimal(&mut out, year as i64);
        append_str(&mut out, ")");
        assert(out@ =~= error_text(*self, dataset@, year));
        string_of(&out)
    }
}

/// Both pieces lie in the same group and year.
pub open spec fn same_line(a: Piece, b: Piece) -> bool {
    a.group == b.group && a.year == b.year
}

/// Both pieces lie in the same group, year and period.
pub open spec fn same_partition(a: Piece, b: Piece) -> bool {
    same_line(a, b) && a.period == b.period
}

/// Both pieces lie in the same partition and on the same stretch.
pub open spec fn same_place(a: Piece, b: Piece) -> bool {
    same_partition(a, b) && a.start == b.start && a.end == b.end
}

/// Some piece of `s` lies in the partition of `x`.
pub open spec fn seen(s: Seq<Piece>, x: Piece) -> bool {
    exists|i: int| 0 <= i < s.len() && same_partition(#[trigger] s[i], x)
}

/// `x` may follow the tiled list `before`: it is not empty, and it either goes on
/// where the last piece ends, in the same partition, or opens at hour zero a
/// partition that the list has not seen.
pub open spec fn fits_after(before: Seq<Piece>, x: Piece) -> bool {
    &&& x.start < x.end
    &&& if before.len() > 0 && same_partition(before.last(), x) {
        x.start == before.last().end
    } else {
        x.start == 0 && !seen(before, x)
    }
}

/// Every partition is covered from hour zero on without gap or overlap: its pieces
/// stand together in the list, in the order of time, none is empty, the first
/// starts at zero and each next one starts where the one before it ends.
pub open spec fn tiled(s: Seq<Piece>) -> bool
    decreases s.len(),
{
    s.len() == 0 || (tiled(s.drop_last()) && fits_after(s.drop_last(), s.last()))
}

/// The largest end of the pieces of `s` in the partition of `key`, zero if there
/// is none: where `s` is tiled, the hour up to which that partition is covered.
pub open spec fn horizon(s: Seq<Piece>, key: Piece) -> int
    decreases s.len(),
{
    if s.len() == 0 {
        0
    } else {
        let before = horizon(s.drop_last(), key);
        if same_partition(s.last(), key) && s.last().end > before {
            s.last().end as int
        } else {
            before
        }
    }
}

/// Every prefix of a tiled list is tiled.
pub proof fn lemma_tiled_prefix(s: Seq<Piece>, n: int)
    requires
        tiled(s),
        0 <= n <= s.len(),
    ensures
        tiled(s.take(n)),
    decreases s.len(),
{
    if n == s.len() {
        assert(s.take(n) =~= s);
    } else {
        lemma_tiled_prefix(s.drop_last(), n);
        assert(s.drop_last().take(n) =~= s.take(n));
    }
}

/// What a tiled list looks like piece by piece: no piece is empty; a piece whose
/// neighbour before it lies in the same partition starts where that one ends; any
/// other piece starts at zero, and no piece before it lies in its partition.
pub proof fn lemma_tiled_pieces(s: Seq<Piece>, i: int)
    requires
        tiled(s),
        0 <= i < s.len(),
    ensures
        s[i].start < s[i].end,
        i > 0 && same_partition(s[i - 1], s[i]) ==> s[i].start == s[i - 1].end,
        i == 0 || !same_partition(s[i - 1], s[i]) ==> s[i].start == 0,
        i == 0 || !same_partition(s[i - 1], s[i]) ==> forall|k: int|
            0 <= k < i ==> !same_partition(#[trigger] s[k], s[i]),
{
    lemma_tiled_prefix(s, i + 1);
    let upto = s.take(i + 1);
    assert(upto.last() == s[i]);
    assert(fits_after(upto.drop_last(), upto.last()));
    if i > 0 {
        assert(upto.drop_last().last() == s[i - 1]);
    }
    if i == 0 || !same_partition(s[i - 1], s[i]) {
        assert forall|k: int| 0 <= k < i implies !same_partition(#[trigger] s[k], s[i]) by {
            assert(upto.drop_last()[k] == s[k]);
        }
    }
}

/// In a tiled list the pieces of one partition stand together: between two pieces
/// of a partition lie only pieces of that partition.
pub proof fn lemma_tiled_together(s: Seq<Piece>, i: int, k: int, j: int)
    requires
        tiled(s),
        0 <= i <= k <= j < s.len(),
        same_partition(s[i], s[j]),
    ensures
        same_partition(s[i], s[k]),
    decreases j - k,
{
    if k < j {
        lemma_tiled_pieces(s, j);
        if j > 0 && same_partition(s[j - 1], s[j]) {
            lemma_tiled_together(s, i, k, j - 1);
        }
    }
}

/// In a tiled list the pieces of one partition come in the order of time and do
/// not overlap: an earlier one ends where a later one starts, or before.
pub proof fn lemma_tiled_apart(s: Seq<Piece>, i: int, j: int)
    requires
        tiled(s),
        0 <= i < j < s.len(),
        same_partition(s[i], s[j]),
    ensures
        s[i].end <= s[j].start,
    decreases j - i,
{
    lemma_tiled_together(s, i, j - 1, j);
    lemma_tiled_pieces(s, j);
    lemma_tiled_pieces(s, j - 1);
    if i < j - 1 {
        lemma_tiled_apart(s, i, j - 1);
    }
}

/// No two neighbours of one partition have the same value.
pub open spec fn maximal(s: Seq<Piece>) -> bool {
    forall|i: int|
        0 < i < s.len() && same_partition(s[i - 1], s[i]) ==> !(#[trigger] s[i]).value.same(
            s[i - 1].value,
        )
}

/// Every piece lies in period zero: the series is on the global axis, where a
/// partition is a group in a year.
pub open spec fn flat(s: Seq<Piece>) -> bool {
    forall|i: int| 0 <= i < s.len() ==> (#[trigger] s[i]).period == 0
}

/// Every value of the series is a fraction with a positive denominator.
pub open spec fn values_wf(s: Seq<Piece>) -> bool {
    forall|i: int| 0 <= i < s.len() ==> (#[trigger] s[i]).value.wf()
}

/// Some piece of `s` is of the group `group` in the year `year`.
pub open spec fn has_line(s: Seq<Piece>, group: u64, year: u32) -> bool {
    exists|i: int| 0 <= i < s.len() && (#[trigger] s[i]).group == group && s[i].year == year
}

/// Every group and year of `out` occurs in `source`.
pub open spec fn lines_within(out: Seq<Piece>, source: Seq<Piece>) -> bool {
    forall|i: int|
        0 <= i < out.len() ==> has_line(source, (#[trigger] out[i]).group, out[i].year)
}

} // verus!
