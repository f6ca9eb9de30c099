//! The intervals of each period: the native timeline of a period is cut at the end
//! of every block that any group has in it.
use crate::arrange::{
    arrange, arranged, lemma_arranged, lemma_arranged_same_pieces, ordered, precedes,
};
use crate::model::PeriodMapping;
use crate::ratio::Ratio;
use crate::series::{same_partition, Piece};
use vstd::prelude::*;

verus! {

/// The block lies in the representative period that the mapping is about.
pub open spec fn joins(block: Piece, mapping: PeriodMapping) -> bool {
    block.year == mapping.year && block.period == mapping.rep_period
}

/// A boundary of the mapping's period at the native timestep `at`.
pub open spec fn mark(mapping: PeriodMapping, at: u64) -> Piece {
    Piece {
        group: 0,
        year: mapping.year,
        period: mapping.period as u64,
        start: at,
        end: at,
        value: Ratio { num: 0, den: 1 },
    }
}

/// The boundaries that one block gives: for each mapping of its representative
/// period, the start of the mapped period and the block's end.
pub open spec fn marks_of_block(block: Piece, mappings: Seq<PeriodMapping>) -> Seq<Piece>
    decreases mappings.len(),
{
    if mappings.len() == 0 {
        Seq::empty()
    } else {
        let before = marks_of_block(block, mappings.drop_last());
        if joins(block, mappings.last()) {
            before.push(mark(mappings.last(), 0)).push(mark(mappings.last(), block.end))
        } else {
            before
        }
    }
}

/// The boundaries that all blocks give, block after block.
pub open spec fn marks(blocks: Seq<Piece>, mappings: Seq<PeriodMapping>) -> Seq<Piece>
    decreases blocks.len(),
{
    if blocks.len() == 0 {
        Seq::empty()
    } else {
        marks(blocks.drop_last(), mappings) + marks_of_block(blocks.last(), mappings)
    }
}

/// The stretches between neighbours of a list of boundaries: where two neighbours
/// lie in one period and the second lies later, the stretch from the first up to
/// the second.
pub open spec fn paired(bounds: Seq<Piece>) -> Seq<Piece>
    decreases bounds.len(),
{
    if bounds.len() < 2 {
        Seq::empty()
    } else {
        let before = paired(bounds.drop_last());
        let a = bounds[bounds.len() - 2];
        let b = bounds.last();
        if same_partition(a, b) && a.start < b.start {
            before.push(Piece { end: b.start, ..a })
        } else {
            before
        }
    }
}

/// The intervals of all periods: per year and period, the boundaries in increasing
/// order, each distinct one paired with the next. An interval reaches from its
/// start up to, not including, its end, in native timesteps from zero.
pub open spec fn intervals(blocks: Seq<Piece>, mappings: Seq<PeriodMapping>) -> Seq<Piece> {
    paired(arranged(marks(blocks, mappings)))
}

/// The hour `t` is a boundary of the period of `key`: some block lies in a
/// representative period that the period of `key` stands for, and `t` is zero or
/// the end of that block.
pub open spec fn is_boundary(
    blocks: Seq<Piece>,
    mappings: Seq<PeriodMapping>,
    key: Piece,
    t: int,
) -> bool {
    exists|i: int, j: int|
        0 <= i < blocks.len() && 0 <= j < mappings.len() && joins(
            #[trigger] blocks[i],
            #[trigger] mappings[j],
        ) && mappings[j].year == key.year && mappings[j].period == key.period && (t == 0 || t
            == blocks[i].end)
}

/// No boundary of the period of `c` lies strictly inside `c`.
pub open spec fn clear_inside(blocks: Seq<Piece>, mappings: Seq<PeriodMapping>, c: Piece) -> bool {
    forall|t: int| c.start < t < c.end ==> !is_boundary(blocks, mappings, c, t)
}

/// The piece is an interval of its period: it lies in group zero, between two
/// boundaries of the period, the second later than the first, with no boundary
/// between them.
pub open spec fn is_interval(blocks: Seq<Piece>, mappings: Seq<PeriodMapping>, c: Piece) -> bool {
    &&& c.group == 0
    &&& c.start < c.end
    &&& is_boundary(blocks, mappings, c, c.start as int)
    &&& is_boundary(blocks, mappings, c, c.end as int)
    &&& clear_inside(blocks, mappings, c)
}

/// Some interval of the list lies in the period of `key` and ends at `t`.
pub open spec fn ends_interval(cuts: Seq<Piece>, key: Piece, t: int) -> bool {
    exists|k: int|
        0 <= k < cuts.len() && (#[trigger] cuts[k]).year == key.year && cuts[k].period
            == key.period && cuts[k].end == t
}

/// The list holds the intervals of all periods: each of its pieces is an interval
/// of its period, and every boundary of a period but its start ends one of them.
pub open spec fn lists_intervals(
    cuts: Seq<Piece>,
    blocks: Seq<Piece>,
    mappings: Seq<PeriodMapping>,
) -> bool {
    &&& forall|k: int| 0 <= k < cuts.len() ==> is_interval(blocks, mappings, #[trigger] cuts[k])
    &&& forall|key: Piece, t: int|
        t > 0 && #[trigger] is_boundary(blocks, mappings, key, t) ==> ends_interval(cuts, key, t)
}

/// The piece marks a boundary: it lies in group zero, on the empty stretch at a
/// boundary of its period.
pub open spec fn marks_boundary(blocks: Seq<Piece>, mappings: Seq<PeriodMapping>, z: Piece) -> bool {
    &&& z.group == 0
    &&& z.start == z.end
    &&& z.value == (Ratio { num: 0, den: 1 })
    &&& is_boundary(blocks, mappings, z, z.start as int)
}

/// The marks of one block are boundaries, and every boundary that the block gives
/// has its mark.
pub proof fn lemma_marks_of_block(block: Piece, mappings: Seq<PeriodMapping>)
    ensures
        forall|k: int|
            0 <= k < marks_of_block(block, mappings).len() ==> {
                let z = #[trigger] marks_of_block(block, mappings)[k];
                &&& z.group == 0
                &&& z.start == z.end
                &&& z.value == (Ratio { num: 0, den: 1 })
                &&& exists|j: int|
                    0 <= j < mappings.len() && joins(block, #[trigger] mappings[j])
                        && mappings[j].year == z.year && mappings[j].period == z.period && (z.start
                        == 0 || z.start == block.end)
            },
        forall|j: int|
            0 <= j < mappings.len() && joins(block, #[trigger] mappings[j]) ==> marks_of_block(
                block,
                mappings,
            ).contains(mark(mappings[j], 0)) && marks_of_block(block, mappings).contains(
                mark(mappings[j], block.end),
            ),
    decreases mappings.len(),
{
    if mappings.len() > 0 {
        let prev = mappings.drop_last();
        let m = mappings.last();
        lemma_marks_of_block(block, prev);
        let before = marks_of_block(block, prev);
        let all = marks_of_block(block, mappings);
        assert forall|k: int| 0 <= k < all.len() implies {
            let z = #[trigger] all[k];
            &&& z.group == 0
            &&& z.start == z.end
            &&& z.value == (Ratio { num: 0, den: 1 })
            &&& exists|j: int|
                0 <= j < mappings.len() && joins(block, #[trigger] mappings[j]) && mappings[j].year
                    == z.year && mappings[j].period == z.period && (z.start == 0 || z.start
                    == block.end)
        } by {
            if k < before.len() {
                assert(all[k] == before[k]);
                let z = before[k];
                let j = choose|j: int|
                    0 <= j < prev.len() && joins(block, #[trigger] prev[j]) && prev[j].year
                        == z.year && prev[j].period == z.period && (z.start == 0 || z.start
                        == block.end);
                assert(mappings[j] == prev[j]);
            } else {
                assert(mappings[mappings.len() - 1] == m);
            }
        }
        assert forall|j: int|
            0 <= j < mappings.len() && joins(block, #[trigger] mappings[j]) implies all.contains(
            mark(mappings[j], 0),
        ) && all.contains(mark(mappings[j], block.end)) by {
            if j < prev.len() {
                assert(prev[j] == mappings[j]);
                let a = choose|a: int| 0 <= a < before.len() && before[a] == mark(mappings[j], 0);
                let b = choose|b: int|
                    0 <= b < before.len() && before[b] == mark(mappings[j], block.end);
                assert(all[a] == before[a]);
                assert(all[b] == before[b]);
            } else {
                assert(all[all.len() - 2] == mark(m, 0));
                assert(all[all.len() - 1] == mark(m, block.end));
            }
        }
    }
}

/// The marks are exactly the boundaries: every mark marks a boundary, and every
/// boundary has its mark.
pub proof fn lemma_marks(blocks: Seq<Piece>, mappings: Seq<PeriodMapping>)
    ensures
        forall|k: int|
            0 <= k < marks(blocks, mappings).len() ==> marks_boundary(
                blocks,
                mappings,
                #[trigger] marks(blocks, mappings)[k],
            ),
        forall|i: int, j: int|
            0 <= i < blocks.len() && 0 <= j < mappings.len() && joins(
                #[trigger] blocks[i],
                #[trigger] mappings[j],
            ) ==> marks(blocks, mappings).contains(mark(mappings[j], 0)) && marks(
                blocks,
                mappings,
            ).contains(mark(mappings[j], blocks[i].end)),
    decreases blocks.len(),
{
    if blocks.len() > 0 {
        let prev = blocks.drop_last();
        let b = blocks.last();
        lemma_marks(prev, mappings);
        lemma_marks_of_block(b, mappings);
        let head = marks(prev, mappings);
        let tail = marks_of_block(b, mappings);
        let all = marks(blocks, mappings);
        assert forall|k: int| 0 <= k < all.len() implies marks_boundary(
            blocks,
            mappings,
            #[trigger] all[k],
        ) by {
            if k < head.len() {
                assert(all[k] == head[k]);
                let z = head[k];
                let (i, j) = choose|i: int, j: int|
                    0 <= i < prev.len() && 0 <= j < mappings.len() && joins(
                        #[trigger] prev[i],
                        #[trigger] mappings[j],
                    ) && mappings[j].year == z.year && mappings[j].period == z.period && (z.start
                        == 0 || z.start == prev[i].end);
                assert(blocks[i] == prev[i]);
            } else {
                let z = tail[k - head.len()];
                assert(all[k] == z);
                let j = choose|j: int|
                    0 <= j < mappings.len() && joins(b, #[trigger] mappings[j]) && mappings[j].year
                        == z.year && mappings[j].period == z.period && (z.start == 0 || z.start
                        == b.end);
                assert(blocks[blocks.len() - 1] == b);
            }
        }
        assert forall|i: int, j: int|
            0 <= i < blocks.len() && 0 <= j < mappings.len() && joins(
                #[trigger] blocks[i],
                #[trigger] mappings[j],
            ) implies all.contains(mark(mappings[j], 0)) && all.contains(
            mark(mappings[j], blocks[i].end),
        ) by {
            if i < prev.len() {
                assert(prev[i] == blocks[i]);
                let a = choose|a: int| 0 <= a < head.len() && head[a] == mark(mappings[j], 0);
                let c = choose|c: int|
                    0 <= c < head.len() && head[c] == mark(mappings[j], blocks[i].end);
                assert(all[a] == head[a]);
                assert(all[c] == head[c]);
            } else {
                let a = choose|a: int| 0 <= a < tail.len() && tail[a] == mark(mappings[j], 0);
                let c = choose|c: int| 0 <= c < tail.len() && tail[c] == mark(mappings[j], b.end);
                assert(all[head.len() + a] == tail[a]);
                assert(all[head.len() + c] == tail[c]);
            }
        }
    }
}

/// Every stretch between neighbours is that between two neighbours of the list
/// that lie in one period, the second later than the first.
pub proof fn lemma_paired_sound(bounds: Seq<Piece>)
    ensures
        forall|k: int|
            0 <= k < paired(bounds).len() ==> exists|i: int|
                0 < i < bounds.len() && same_partition(bounds[i - 1], bounds[i]) && bounds[i
                    - 1].start < bounds[i].start && #[trigger] paired(bounds)[k] == (Piece {
                    end: (#[trigger] bounds[i]).start,
                    ..bounds[i - 1]
                }),
    decreases bounds.len(),
{
    if bounds.len() >= 2 {
        let prev = bounds.drop_last();
        lemma_paired_sound(prev);
        let before = paired(prev);
        let all = paired(bounds);
        assert forall|k: int| 0 <= k < all.len() implies exists|i: int|
            0 < i < bounds.len() && same_partition(bounds[i - 1], bounds[i]) && bounds[i - 1].start
                < bounds[i].start && #[trigger] all[k] == (Piece {
                end: (#[trigger] bounds[i]).start,
                ..bounds[i - 1]
            }) by {
            if k < before.len() {
                assert(all[k] == before[k]);
                let i = choose|i: int|
                    0 < i < prev.len() && same_partition(prev[i - 1], prev[i]) && prev[i - 1].start
                        < prev[i].start && before[k] == (Piece {
                        end: (#[trigger] prev[i]).start,
                        ..prev[i - 1]
                    });
                assert(bounds[i] == prev[i] && bounds[i - 1] == prev[i - 1]);
            } else {
                let i = bounds.len() - 1;
                assert(all[k] == (Piece { end: bounds[i].start, ..bounds[i - 1] }));
            }
        }
    }
}

/// Two neighbours of the list that lie in one period, the second later than the
/// first, have their stretch among the stretches.
pub proof fn lemma_paired_complete(bounds: Seq<Piece>, i: int)
    requires
        0 < i < bounds.len(),
        same_partition(bounds[i - 1], bounds[i]),
        bounds[i - 1].start < bounds[i].start,
    ensures
        paired(bounds).contains(Piece { end: bounds[i].start, ..bounds[i - 1] }),
    decreases bounds.len(),
{
    let all = paired(bounds);
    if i == bounds.len() - 1 {
        assert(all[all.len() - 1] == (Piece { end: bounds[i].start, ..bounds[i - 1] }));
    } else {
        let prev = bounds.drop_last();
        lemma_paired_complete(prev, i);
        let before = paired(prev);
        let k = choose|k: int|
            0 <= k < before.len() && before[k] == (Piece { end: prev[i].start, ..prev[i - 1] });
        assert(all[k] == before[k]);
    }
}

/// The stretches between the neighbours of an ordered list come in the order of
/// the list, and two of one period do not overlap: the earlier ends where the
/// later starts, or before.
pub proof fn lemma_paired_ordered(bounds: Seq<Piece>, n: int)
    requires
        ordered(bounds),
        0 <= n <= bounds.len(),
    ensures
        ordered(paired(bounds.take(n))),
        forall|k: int, l: int|
            0 <= k < l < paired(bounds.take(n)).len() && same_partition(
                paired(bounds.take(n))[k],
                paired(bounds.take(n))[l],
            ) ==> paired(bounds.take(n))[k].end <= paired(bounds.take(n))[l].start,
    decreases n,
{
    if n >= 2 {
        lemma_paired_ordered(bounds, n - 1);
        let upto = bounds.take(n);
        let prev = bounds.take(n - 1);
        assert(upto.drop_last() =~= prev);
        let before = paired(prev);
        let all = paired(upto);
        lemma_paired_sound(prev);
        let a = upto[n - 2];
        let b = upto[n - 1];
        assert(a == bounds[n - 2] && b == bounds[n - 1]);
        assert forall|k: int, l: int| 0 <= k < l < all.len() implies !precedes(all[l], all[k]) && (
        same_partition(all[k], all[l]) ==> all[k].end <= all[l].start) by {
            if l < before.len() {
                assert(!precedes(before[l], before[k]));
            } else {
                let i = choose|i: int|
                    0 < i < prev.len() && same_partition(prev[i - 1], prev[i]) && prev[i - 1].start
                        < prev[i].start && before[k] == (Piece {
                        end: (#[trigger] prev[i]).start,
                        ..prev[i - 1]
                    });
                assert(prev[i] == bounds[i] && prev[i - 1] == bounds[i - 1]);
                assert(all[l] == (Piece { end: b.start, ..a }));
                if i - 1 < n - 2 {
                    assert(!precedes(bounds[n - 2], bounds[i - 1]));
                }
                if i < n - 2 {
                    assert(!precedes(bounds[n - 2], bounds[i]));
                }
            }
        }
    } else {
        assert(paired(bounds.take(n)) =~= Seq::<Piece>::empty());
    }
}

/// Some place of an ordered list holds the first piece of a partition at a start.
pub proof fn lemma_first_at(s: Seq<Piece>, z: Piece, n: int) -> (k: int)
    requires
        0 <= n < s.len(),
        same_partition(s[n], z) && s[n].start == z.start,
    ensures
        0 <= k <= n,
        same_partition(s[k], z) && s[k].start == z.start,
        forall|a: int| 0 <= a < k ==> !(same_partition(#[trigger] s[a], z) && s[a].start == z.start),
    decreases n,
{
    if exists|a: int| 0 <= a < n && same_partition(#[trigger] s[a], z) && s[a].start == z.start {
        let a = choose|a: int|
            0 <= a < n && same_partition(#[trigger] s[a], z) && s[a].start == z.start;
        lemma_first_at(s, z, a)
    } else {
        n
    }
}

/// What the intervals are. Every interval lies between two boundaries of its
/// period, the second later than the first, with no boundary between them. And
/// every boundary of a period but its start ends an interval of that period.
pub proof fn lemma_intervals(blocks: Seq<Piece>, mappings: Seq<PeriodMapping>)
    ensures
        forall|k: int|
            0 <= k < intervals(blocks, mappings).len() ==> {
                let c = #[trigger] intervals(blocks, mappings)[k];
                &&& c.group == 0
                &&& c.start < c.end
                &&& is_boundary(blocks, mappings, c, c.start as int)
                &&& is_boundary(blocks, mappings, c, c.end as int)
                &&& forall|t: int|
                    c.start < t < c.end ==> !is_boundary(blocks, mappings, c, t)
            },
        forall|key: Piece, t: int|
            t > 0 && #[trigger] is_boundary(blocks, mappings, key, t) ==> exists|k: int|
                0 <= k < intervals(blocks, mappings).len() && (#[trigger] intervals(
                    blocks,
                    mappings,
                )[k]).year == key.year && intervals(blocks, mappings)[k].period == key.period
                    && intervals(blocks, mappings)[k].end == t,
{
    let all = marks(blocks, mappings);
    let m = arranged(all);
    let cuts = intervals(blocks, mappings);
    lemma_marks(blocks, mappings);
    lemma_arranged(all);
    lemma_arranged_same_pieces(all);
    lemma_paired_sound(m);
    assert forall|a: int| 0 <= a < m.len() implies marks_boundary(
        blocks,
        mappings,
        #[trigger] m[a],
    ) by {
        assert(all.contains(m[a]));
        let b = choose|b: int| 0 <= b < all.len() && all[b] == m[a];
        assert(marks_boundary(blocks, mappings, all[b]));
    }
    assert forall|k: int| 0 <= k < cuts.len() implies {
        let c = #[trigger] cuts[k];
        &&& c.group == 0
        &&& c.start < c.end
        &&& is_boundary(blocks, mappings, c, c.start as int)
        &&& is_boundary(blocks, mappings, c, c.end as int)
        &&& forall|t: int| c.start < t < c.end ==> !is_boundary(blocks, mappings, c, t)
    } by {
        let c = cuts[k];
        let i = choose|i: int|
            0 < i < m.len() && same_partition(m[i - 1], m[i]) && m[i - 1].start < m[i].start && c
                == (Piece { end: (#[trigger] m[i]).start, ..m[i - 1] });
        assert(marks_boundary(blocks, mappings, m[i]));
        assert(marks_boundary(blocks, mappings, m[i - 1]));
        lemma_boundary_same_key(blocks, mappings, m[i], c, c.end as int);
        lemma_boundary_same_key(blocks, mappings, m[i - 1], c, c.start as int);
        assert forall|t: int| c.start < t < c.end implies !is_boundary(blocks, mappings, c, t) by {
            if is_boundary(blocks, mappings, c, t) {
                let (bi, mj) = choose|bi: int, mj: int|
                    0 <= bi < blocks.len() && 0 <= mj < mappings.len() && joins(
                        #[trigger] blocks[bi],
                        #[trigger] mappings[mj],
                    ) && mappings[mj].year == c.year && mappings[mj].period == c.period && (t == 0
                        || t == blocks[bi].end);
                let z = mark(mappings[mj], blocks[bi].end);
                assert(all.contains(z));
                let b = choose|b: int| 0 <= b < all.len() && all[b] == z;
                assert(m.contains(all[b]));
                let a = choose|a: int| 0 <= a < m.len() && m[a] == z;
                if a < i {
                    if a < i - 1 {
                        assert(!precedes(m[i - 1], m[a]));
                    }
                } else {
                    if a > i {
                        assert(!precedes(m[a], m[i]));
                    }
                }
            }
        }
    }
    assert forall|key: Piece, t: int|
        t > 0 && #[trigger] is_boundary(blocks, mappings, key, t) implies exists|k: int|
        0 <= k < cuts.len() && (#[trigger] cuts[k]).year == key.year && cuts[k].period == key.period
            && cuts[k].end == t by {
        let (bi, mj) = choose|bi: int, mj: int|
            0 <= bi < blocks.len() && 0 <= mj < mappings.len() && joins(
                #[trigger] blocks[bi],
                #[trigger] mappings[mj],
            ) && mappings[mj].year == key.year && mappings[mj].period == key.period && (t == 0 || t
                == blocks[bi].end);
        let z = mark(mappings[mj], blocks[bi].end);
        let zero = mark(mappings[mj], 0);
        assert(all.contains(z) && all.contains(zero));
        let b = choose|b: int| 0 <= b < all.len() && all[b] == z;
        assert(m.contains(all[b]));
        let n = choose|n: int| 0 <= n < m.len() && m[n] == z;
        let b0 = choose|b0: int| 0 <= b0 < all.len() && all[b0] == zero;
        assert(m.contains(all[b0]));
        let n0 = choose|n0: int| 0 <= n0 < m.len() && m[n0] == zero;
        let first = lemma_first_at(m, z, n);
        if n0 > first {
            assert(!precedes(m[n0], m[first]));
        }
        assert(n0 < first);
        assert(!precedes(m[first], m[first - 1]));
        assert(!precedes(m[first - 1], m[n0]));
        assert(marks_boundary(blocks, mappings, m[first - 1]));
        assert(same_partition(m[first - 1], z));
        lemma_paired_complete(m, first);
        let cut = Piece { end: m[first].start, ..m[first - 1] };
        let k = choose|k: int| 0 <= k < cuts.len() && cuts[k] == cut;
        assert(cuts[k].end == t);
    }
}

/// Whether an hour is a boundary depends on the year and period of the key alone.
pub proof fn lemma_boundary_same_key(
    blocks: Seq<Piece>,
    mappings: Seq<PeriodMapping>,
    a: Piece,
    b: Piece,
    t: int,
)
    requires
        a.year == b.year,
        a.period == b.period,
        is_boundary(blocks, mappings, a, t),
    ensures
        is_boundary(blocks, mappings, b, t),
{
    let (i, j) = choose|i: int, j: int|
        0 <= i < blocks.len() && 0 <= j < mappings.len() && joins(
            #[trigger] blocks[i],
            #[trigger] mappings[j],
        ) && mappings[j].year == a.year && mappings[j].period == a.period && (t == 0 || t
            == blocks[i].end);
    assert(joins(blocks[i], mappings[j]));
}

/// Appends the boundaries of one block.
fn push_marks(out: &mut Vec<Piece>, block: &Piece, mappings: &Vec<PeriodMapping>)
    ensures
        final(out)@ == old(out)@ + marks_of_block(*block, mappings@),
{
    let mut j: usize = 0;
    assert(out@ =~= old(out)@ + marks_of_block(*block, mappings@.take(0)));
    while j < mappings.len()
        invariant
            j <= mappings.len(),
            out@ == old(out)@ + marks_of_block(*block, mappings@.take(j as int)),
        decreases mappings.len() - j,
    {
        let m: PeriodMapping = mappings[j];
        proof {
            assert(mappings@.take(j + 1).drop_last() =~= mappings@.take(j as int));
        }
        let ghost before = out@;
        if block.year == m.year && block.period == m.rep_period as u64 {
            let zero = Ratio::whole(0);
            out.push(
                Piece {
                    group: 0,
                    year: m.year,
                    period: m.period as u64,
                    start: 0,
                    end: 0,
                    value: zero,
                },
            );
            out.push(
                Piece {
                    group: 0,
                    year: m.year,
                    period: m.period as u64,
                    start: block.end,
                    end: block.end,
                    value: zero,
                },
            );
            assert(out@ =~= old(out)@ + marks_of_block(*block, mappings@.take(j + 1)));
        }
        j += 1;
    }
    assert(mappings@.take(mappings.len() as int) =~= mappings@);
}

/// Builds the intervals of each period from the blocks of all groups: per year and
/// period the boundaries, which are the start of the period and the ends of the
/// blocks of all groups in it, in increasing order, each distinct one paired with
/// the next.
pub fn build_intervals(blocks: &Vec<Piece>, mappings: &Vec<PeriodMapping>) -> (out: Vec<Piece>)
    ensures
        out@ == intervals(blocks@, mappings@),
        lists_intervals(out@, blocks@, mappings@),
{
    proof {
        lemma_intervals(blocks@, mappings@);
    }
    let mut bounds: Vec<Piece> = Vec::new();
    let mut i: usize = 0;
    while i < blocks.len()
        invariant
            i <= blocks.len(),
            bounds@ == marks(blocks@.take(i as int), mappings@),
        decreases blocks.len() - i,
    {
        proof {
            assert(blocks@.take(i + 1).drop_last() =~= blocks@.take(i as int));
        }
        push_marks(&mut bounds, &blocks[i], mappings);
        i += 1;
    }
    assert(blocks@.take(blocks.len() as int) =~= blocks@);
    let sorted: Vec<Piece> = arrange(&bounds);
    let mut out: Vec<Piece> = Vec::new();
    let mut k: usize = 1;
    if sorted.len() < 2 {
        return out;
    }
    assert(sorted@.take(1).len() == 1);
    while k < sorted.len()
        invariant
            1 <= k <= sorted.len(),
            out@ == paired(sorted@.take(k as int)),
        decreases sorted.len() - k,
    {
        let a: Piece = sorted[k - 1];
        let b: Piece = sorted[k];
        proof {
            assert(sorted@.take(k + 1).drop_last() =~= sorted@.take(k as int));
            assert(sorted@.take(k + 1)[k - 1] == a);
        }
        if a.group == b.group && a.year == b.year && a.period == b.period && a.start < b.start {
            out.push(
                Piece {
                    group: a.group,
                    year: a.year,
                    period: a.period,
                    start: a.start,
                    end: b.start,
                    value: a.value,
                },
            );
        }
        k += 1;
    }
    assert(sorted@.take(sorted.len() as int) =~= sorted@);
    out
}

} // verus!
