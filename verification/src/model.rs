//! The rows that the engine reads and the segments that it gives back.
use crate::ratio::Ratio;
use crate::series::Piece;
use vstd::prelude::*;

verus! {

/// A value that holds on the native timesteps `block_start..=block_end` of one
/// representative period of one year, for one entity. Timesteps count from one.
#[derive(Clone, Copy, Debug, PartialEq, Eq, Structural)]
pub struct TimeBlockRow {
    pub entity_key: u64,
    pub year: u32,
    pub rep_period: u32,
    pub block_start: u32,
    pub block_end: u32,
    pub value: i64,
}

/// A period of a year stands for `weight` occurrences of a representative period.
#[derive(Clone, Copy, Debug, PartialEq, Eq, Structural)]
pub struct PeriodMapping {
    pub year: u32,
    pub rep_period: u32,
    pub period: u32,
    pub weight: u32,
}

/// A representative period has `timestep_count` native timesteps of
/// `resolution_hours` hours each.
#[derive(Clone, Copy, Debug, PartialEq, Eq, Structural)]
pub struct PeriodLength {
    pub year: u32,
    pub rep_period: u32,
    pub resolution_hours: u32,
    pub timestep_count: u32,
}

/// A node of the category hierarchy. A node without parent is a root.
#[derive(Clone, Debug)]
pub struct CategoryNode {
    pub id: i32,
    pub name: String,
    pub parent_id: Option<i32>,
    pub level: u32,
}

/// An entity hangs at the node `leaf_id` of the hierarchy under the root `root_id`.
#[derive(Clone, Copy, Debug, PartialEq, Eq, Structural)]
pub struct Membership {
    pub entity_key: u64,
    pub root_id: i32,
    pub leaf_id: i32,
}

/// A value that holds for one group in one year on the hours from `global_start`
/// up to, not including, `global_end`.
#[derive(Clone, Copy, Debug, PartialEq, Eq, Structural)]
pub struct OutputSegment {
    pub group_key: u64,
    pub year: u32,
    pub global_start: u64,
    pub global_end: u64,
    pub value: Ratio,
}

/// The piece that a row gives: its entity is the group, its representative period
/// the period, its value a whole number.
pub open spec fn piece_of(row: TimeBlockRow) -> Piece {
    Piece {
        group: row.entity_key,
        year: row.year,
        period: row.rep_period as u64,
        start: row.block_start as u64,
        end: row.block_end as u64,
        value: Ratio { num: row.value, den: 1 },
    }
}

/// The pieces of all rows, in their order.
pub open spec fn pieces_of(rows: Seq<TimeBlockRow>) -> Seq<Piece> {
    Seq::new(rows.len(), |i: int| piece_of(rows[i]))
}

/// The segment that a piece on the global axis gives.
pub open spec fn segment_of(piece: Piece) -> OutputSegment {
    OutputSegment {
        group_key: piece.group,
        year: piece.year,
        global_start: piece.start,
        global_end: piece.end,
        value: piece.value,
    }
}

/// The segments of all pieces, in their order.
pub open spec fn segments_of(pieces: Seq<Piece>) -> Seq<OutputSegment> {
    Seq::new(pieces.len(), |i: int| segment_of(pieces[i]))
}

/// Both segments are of the same group and year.
pub open spec fn alike(a: OutputSegment, b: OutputSegment) -> bool {
    a.group_key == b.group_key && a.year == b.year
}

/// Maximality: no two neighbours of one group and year have the same value.
pub open spec fn segments_maximal(s: Seq<OutputSegment>) -> bool {
    forall|i: int|
        0 < i < s.len() && alike(s[i - 1], s[i]) ==> !(#[trigger] s[i]).value.same(s[i - 1].value)
}

/// The segments come in the order of group, then year, then start.
pub open spec fn segments_ordered(s: Seq<OutputSegment>) -> bool {
    forall|i: int, j: int|
        0 <= i < j < s.len() ==> s[i].group_key < s[j].group_key || (s[i].group_key
            == s[j].group_key && (s[i].year < s[j].year || (s[i].year == s[j].year
            && s[i].global_start <= s[j].global_start)))
}

/// Turns rows into pieces.
pub fn to_pieces(rows: &Vec<TimeBlockRow>) -> (pieces: Vec<Piece>)
    ensures
        pieces@ == pieces_of(rows@),
{
    let mut pieces: Vec<Piece> = Vec::new();
    let mut i: usize = 0;
    while i < rows.len()
        invariant
            i <= rows.len(),
            pieces@.len() == i,
            forall|k: int| 0 <= k < i ==> pieces@[k] == piece_of(rows@[k]),
        decreases rows.len() - i,
    {
        let row: TimeBlockRow = rows[i];
        pieces.push(
            Piece {
                group: row.entity_key,
                year: row.year,
                period: row.rep_period as u64,
                start: row.block_start as u64,
                end: row.block_end as u64,
                value: Ratio::whole(row.value),
            },
        );
        i += 1;
    }
    assert(pieces@ =~= pieces_of(rows@));
    pieces
}

/// Turns pieces on the global axis into segments.
pub fn to_segments(pieces: &Vec<Piece>) -> (segments: Vec<OutputSegment>)
    ensures
        segments@ == segments_of(pieces@),
{
    let mut segments: Vec<OutputSegment> = Vec::new();
    let mut i: usize = 0;
    while i < pieces.len()
        invariant
            i <= pieces.len(),
            segments@.len() == i,
            forall|k: int| 0 <= k < i ==> segments@[k] == segment_of(pieces@[k]),
        decreases pieces.len() - i,
    {
        let piece: Piece = pieces[i];
        segments.push(
            OutputSegment {
                group_key: piece.group,
                year: piece.year,
                global_start: piece.start,
                global_end: piece.end,
                value: piece.value,
            },
        );
        i += 1;
    }
    assert(segments@ =~= segments_of(pieces@));
    segments
}

} // verus!
