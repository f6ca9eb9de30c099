//! The global time axis: the periods of a group in a year are laid end to end, each
//! period starting where the periods before it end.
use crate::arrange::{arrange, arranged};
use crate::series::{same_line, Piece};
use crate::weighting::Placement;
use vstd::prelude::*;

verus! {

/// The hours of the period `period` of the year `year`: the resolution times the
/// number of timesteps of the representative period that stands for it, of the
/// last one listed where there are several, and zero where there is none.
pub open spec fn duration(places: Seq<Placement>, year: u32, period: u64) -> int
    decreases places.len(),
{
    if places.len() == 0 {
        0
    } else if places.last().year == year && places.last().period as u64 == period {
        places.last().resolution_hours * places.last().timestep_count
    } else {
        duration(places.drop_last(), year, period)
    }
}

/// The hour of the global axis at which the period of the piece at `i` starts: zero
/// for the first period of a group and year, else the start of the period before it
/// plus the hours of that period.
pub open spec fn offset_at(s: Seq<Piece>, i: int, places: Seq<Placement>) -> int
    decreases i,
{
    if i <= 0 || i >= s.len() || !same_line(s[i - 1], s[i]) {
        0
    } else if s[i - 1].period == s[i].period {
        offset_at(s, i - 1, places)
    } else {
        offset_at(s, i - 1, places) + duration(places, s[i - 1].year, s[i - 1].period)
    }
}

/// The first `n` pieces on the global axis: each moved by the start of its period.
/// `None` where a bound does not fit.
pub open spec fn shifted(s: Seq<Piece>, n: int, places: Seq<Placement>) -> Option<Seq<Piece>>
    decreases n,
{
    if n <= 0 || n > s.len() {
        Some(Seq::empty())
    } else {
        match shifted(s, n - 1, places) {
            None => None,
            Some(before) => if s[n - 1].end + offset_at(s, n - 1, places) > u64::MAX || s[n
                - 1].start + offset_at(s, n - 1, places) > u64::MAX {
                None
            } else {
                Some(
                    before.push(
                        Piece {
                            start: (s[n - 1].start + offset_at(s, n - 1, places)) as u64,
                            end: (s[n - 1].end + offset_at(s, n - 1, places)) as u64,
                            ..s[n - 1]
                        },
                    ),
                )
            },
        }
    }
}

/// The series on the global axis: the pieces in the order of group, year, period
/// and start, each moved by the hours of the periods of its group and year that
/// come before its own. The hours of a period are its resolution times its number
/// of timesteps.
pub open spec fn on_global_axis(pieces: Seq<Piece>, places: Seq<Placement>) -> Option<Seq<Piece>> {
    shifted(arranged(pieces), arranged(pieces).len() as int, places)
}

/// No period starts before hour zero.
pub proof fn lemma_offset_not_negative(s: Seq<Piece>, i: int, places: Seq<Placement>)
    ensures
        offset_at(s, i, places) >= 0,
    decreases i,
{
    if !(i <= 0 || i >= s.len() || !same_line(s[i - 1], s[i])) {
        lemma_offset_not_negative(s, i - 1, places);
        lemma_duration(places, s[i - 1].year, s[i - 1].period);
    }
}

/// The hours of a period are not negative and fit in 64 bits.
pub proof fn lemma_duration(places: Seq<Placement>, year: u32, period: u64)
    ensures
        0 <= duration(places, year, period) <= u64::MAX,
    decreases places.len(),
{
    if places.len() > 0 {
        let pl = places.last();
        let (r, t) = (pl.resolution_hours as int, pl.timestep_count as int);
        assert(0 <= r * t <= 0xffff_ffff * 0xffff_ffff) by (nonlinear_arith)
            requires
                0 <= r <= 0xffff_ffff,
                0 <= t <= 0xffff_ffff,
        ;
        lemma_duration(places.drop_last(), year, period);
    }
}

/// Where the first pieces do not fit on the axis, the whole list does not.
pub proof fn lemma_shifted_none(s: Seq<Piece>, n: int, m: int, places: Seq<Placement>)
    requires
        0 <= n <= m <= s.len(),
        shifted(s, n, places) is None,
    ensures
        shifted(s, m, places) is None,
    decreases m - n,
{
    if n < m {
        lemma_shifted_none(s, n, m - 1, places);
    }
}

/// Looks up the hours of a period.
pub fn find_duration(places: &Vec<Placement>, year: u32, period: u64) -> (hours: u64)
    ensures
        hours == duration(places@, year, period),
{
    let mut hours: u64 = 0;
    let mut i: usize = 0;
    while i < places.len()
        invariant
            i <= places.len(),
            hours == duration(places@.take(i as int), year, period),
        decreases places.len() - i,
    {
        let pl: Placement = places[i];
        proof {
            assert(places@.take(i + 1).drop_last() =~= places@.take(i as int));
            assert(places@.take(i + 1).last() == pl);
            lemma_duration(places@.take(i + 1), year, period);
        }
        let wide: u64 = pl.period as u64;
        if pl.year == year && wide == period {
            let r: u64 = pl.resolution_hours as u64;
            let t: u64 = pl.timestep_count as u64;
            assert(r * t <= 0xffff_ffff * 0xffff_ffff) by (nonlinear_arith)
                requires
                    0 <= r <= 0xffff_ffff,
                    0 <= t <= 0xffff_ffff,
            ;
            hours = r * t;
        }
        i += 1;
    }
    assert(places@.take(places.len() as int) =~= places@);
    hours
}

/// Lays the periods of each group and year end to end on one time axis.
pub fn map_to_global_axis(pieces: &Vec<Piece>, places: &Vec<Placement>) -> (out: Option<Vec<Piece>>)
    ensures
        match out {
            Some(series) => on_global_axis(pieces@, places@) == Some(series@),
            None => on_global_axis(pieces@, places@) is None,
        },
{
    let s: Vec<Piece> = arrange(pieces);
    let mut out: Vec<Piece> = Vec::new();
    let mut offset: u64 = 0;
    let mut i: usize = 0;
    while i < s.len()
        invariant
            i <= s.len(),
            s@ == arranged(pieces@),
            shifted(s@, i as int, places@) == Some(out@),
            i > 0 ==> offset == offset_at(s@, i - 1, places@),
        decreases s.len() - i,
    {
        let p: Piece = s[i];
        if i == 0 {
            offset = 0;
        } else {
            let q: Piece = s[i - 1];
            if q.group != p.group || q.year != p.year {
                offset = 0;
            } else if q.period != p.period {
                let hours: u64 = find_duration(places, q.year, q.period);
                match offset.checked_add(hours) {
                    None => {
                        proof {
                            assert(shifted(s@, i + 1, places@) is None);
                            lemma_shifted_none(s@, i + 1, s@.len() as int, places@);
                        }
                        return None;
                    },
                    Some(next) => {
                        offset = next;
                    },
                }
            }
        }
        match (p.start.checked_add(offset), p.end.checked_add(offset)) {
            (Some(start), Some(end)) => {
                out.push(
                    Piece {
                        group: p.group,
                        year: p.year,
                        period: p.period,
                        start,
                        end,
                        value: p.value,
                    },
                );
            },
            _ => {
                proof {
                    assert(shifted(s@, i + 1, places@) is None);
                    lemma_shifted_none(s@, i + 1, s@.len() as int, places@);
                }
                return None;
            },
        }
        i += 1;
    }
    Some(out)
}

} // verus!
