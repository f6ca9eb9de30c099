//! Run-length compaction: neighbours of one partition that have the same value
//! become one piece.
use crate::arrange::{ordered, precedes};
use crate::ratio::lemma_same_symmetric;
use crate::series::{
    flat, has_line, horizon, lines_within, maximal, same_partition, seen, tiled, Piece,
};
use vstd::prelude::*;

verus! {

/// `next` goes on the run that `run` stands for: same partition, same value.
pub open spec fn continues(run: Piece, next: Piece) -> bool {
    same_partition(run, next) && run.value.same(next.value)
}

/// The run `run` grown by `next`: from the smaller start to the larger end.
pub open spec fn extended(run: Piece, next: Piece) -> Piece {
    Piece {
        start: if next.start < run.start {
            next.start
        } else {
            run.start
        },
        end: if next.end > run.end {
            next.end
        } else {
            run.end
        },
        ..run
    }
}

/// One piece per run of rows that follow each other in the list, lie in one
/// partition and have the value of the run's first row. The piece keeps that value
/// and reaches from the smallest start to the largest end of the run.
pub open spec fn compacted(rows: Seq<Piece>) -> Seq<Piece>
    decreases rows.len(),
{
    if rows.len() == 0 {
        Seq::empty()
    } else {
        let before = compacted(rows.drop_last());
        if before.len() > 0 && continues(before.last(), rows.last()) {
            before.drop_last().push(extended(before.last(), rows.last()))
        } else {
            before.push(rows.last())
        }
    }
}

/// Compaction keeps the partitions: a partition has a compacted piece where it
/// has a row, and only there.
pub proof fn lemma_compacted_seen(rows: Seq<Piece>, x: Piece)
    ensures
        seen(compacted(rows), x) <==> seen(rows, x),
        rows.len() > 0 ==> compacted(rows).len() > 0 && same_partition(
            compacted(rows).last(),
            rows.last(),
        ),
    decreases rows.len(),
{
    if rows.len() > 0 {
        let prev = rows.drop_last();
        let r = rows.last();
        let b = compacted(prev);
        let c = compacted(rows);
        lemma_compacted_seen(prev, x);
        if seen(c, x) {
            let i = choose|i: int| 0 <= i < c.len() && same_partition(#[trigger] c[i], x);
            if i < c.len() - 1 {
                assert(same_partition(b[i], x));
                let j = choose|j: int| 0 <= j < prev.len() && same_partition(#[trigger] prev[j], x);
                assert(same_partition(rows[j], x));
            } else {
                assert(same_partition(rows[rows.len() - 1], x));
            }
        }
        if seen(rows, x) {
            let j = choose|j: int| 0 <= j < rows.len() && same_partition(#[trigger] rows[j], x);
            if j < rows.len() - 1 {
                assert(same_partition(prev[j], x));
                let i = choose|i: int| 0 <= i < b.len() && same_partition(#[trigger] b[i], x);
                if i < c.len() - 1 {
                    assert(same_partition(c[i], x));
                } else {
                    assert(same_partition(c[c.len() - 1], x));
                }
            } else {
                assert(same_partition(c[c.len() - 1], x));
            }
        }
    }
}

/// Compaction keeps a tiled list tiled, and its last piece ends where the last
/// row ends.
pub proof fn lemma_compacted_tiled(rows: Seq<Piece>)
    requires
        tiled(rows),
    ensures
        tiled(compacted(rows)),
        rows.len() > 0 ==> compacted(rows).len() > 0 && compacted(rows).last().end
            == rows.last().end,
    decreases rows.len(),
{
    if rows.len() > 0 {
        let prev = rows.drop_last();
        let r = rows.last();
        let b = compacted(prev);
        let c = compacted(rows);
        lemma_compacted_tiled(prev);
        lemma_compacted_seen(prev, r);
        if b.len() > 0 && continues(b.last(), r) {
            assert(c.drop_last() =~= b.drop_last());
            assert(b.drop_last().last() == b[b.len() - 2] || b.len() < 2);
        } else {
            assert(c.drop_last() =~= b);
        }
    }
}

/// Compaction keeps the horizon of every partition.
pub proof fn lemma_compacted_horizon(rows: Seq<Piece>, key: Piece)
    ensures
        horizon(compacted(rows), key) == horizon(rows, key),
    decreases rows.len(),
{
    if rows.len() > 0 {
        let prev = rows.drop_last();
        let r = rows.last();
        let b = compacted(prev);
        let c = compacted(rows);
        lemma_compacted_horizon(prev, key);
        if b.len() > 0 && continues(b.last(), r) {
            assert(c.drop_last() =~= b.drop_last());
        } else {
            assert(c.drop_last() =~= b);
        }
    }
}

/// Compaction keeps a list in order; the last piece keeps the start of the first
/// row of its run.
pub proof fn lemma_compacted_ordered(rows: Seq<Piece>)
    requires
        ordered(rows),
    ensures
        ordered(compacted(rows)),
        rows.len() > 0 ==> compacted(rows).len() > 0 && same_partition(
            compacted(rows).last(),
            rows.last(),
        ) && compacted(rows).last().start <= rows.last().start,
    decreases rows.len(),
{
    if rows.len() > 0 {
        let prev = rows.drop_last();
        let r = rows.last();
        let b = compacted(prev);
        let c = compacted(rows);
        assert(ordered(prev)) by {
            assert forall|i: int, j: int| 0 <= i < j < prev.len() implies !precedes(
                prev[j],
                prev[i],
            ) by {
                assert(!precedes(rows[j], rows[i]));
            }
        }
        lemma_compacted_ordered(prev);
        if prev.len() > 0 {
            assert(!precedes(rows[rows.len() - 1], rows[rows.len() - 2]));
        }
        assert forall|i: int, j: int| 0 <= i < j < c.len() implies !precedes(c[j], c[i]) by {
            if j < c.len() - 1 {
                assert(!precedes(b[j], b[i]));
            } else if b.len() > 0 && continues(b.last(), r) {
                assert(!precedes(b[b.len() - 1], b[i]));
            } else {
                if i < b.len() - 1 {
                    assert(!precedes(b[b.len() - 1], b[i]));
                }
            }
        }
    }
}

/// Compaction keeps a series on the global axis there.
pub proof fn lemma_compacted_flat(rows: Seq<Piece>)
    requires
        flat(rows),
    ensures
        flat(compacted(rows)),
    decreases rows.len(),
{
    if rows.len() > 0 {
        assert(flat(rows.drop_last())) by {
            assert forall|i: int| 0 <= i < rows.drop_last().len() implies (
            #[trigger] rows.drop_last()[i]).period == 0 by {
                assert(rows.drop_last()[i] == rows[i]);
            }
        }
        lemma_compacted_flat(rows.drop_last());
    }
}

/// Compaction brings in no group: every group and year of the compacted list
/// occurs in the rows.
pub proof fn lemma_compacted_lines(rows: Seq<Piece>)
    ensures
        lines_within(compacted(rows), rows),
    decreases rows.len(),
{
    if rows.len() > 0 {
        let prev = rows.drop_last();
        let b = compacted(prev);
        let c = compacted(rows);
        lemma_compacted_lines(prev);
        assert forall|i: int| 0 <= i < c.len() implies has_line(
            rows,
            (#[trigger] c[i]).group,
            c[i].year,
        ) by {
            if i < c.len() - 1 || (b.len() > 0 && continues(b.last(), rows.last())) {
                assert(c[i].group == b[i].group && c[i].year == b[i].year);
                assert(has_line(prev, b[i].group, b[i].year));
                let k = choose|k: int|
                    0 <= k < prev.len() && (#[trigger] prev[k]).group == b[i].group
                        && prev[k].year == b[i].year;
                assert(rows[k] == prev[k]);
            } else {
                assert(rows[rows.len() - 1] == c[i]);
            }
        }
    }
}

/// The piece `run` holds the row `row`: it lies in the row's partition, reaches at
/// least as far on both sides, and has the row's value.
pub open spec fn holds_row(run: Piece, row: Piece) -> bool {
    &&& same_partition(run, row)
    &&& run.start <= row.start
    &&& row.end <= run.end
    &&& run.value.same(row.value)
}

/// Every row lies within some piece of `out` that has its value.
pub open spec fn holds_rows(out: Seq<Piece>, rows: Seq<Piece>) -> bool {
    forall|i: int|
        0 <= i < rows.len() ==> exists|k: int|
            0 <= k < out.len() && holds_row(#[trigger] out[k], #[trigger] rows[i])
}

/// Compaction keeps the values: every row lies within a compacted piece of its
/// partition that has the row's value.
pub proof fn lemma_compacted_holds(rows: Seq<Piece>)
    ensures
        holds_rows(compacted(rows), rows),
    decreases rows.len(),
{
    if rows.len() > 0 {
        let prev = rows.drop_last();
        let r = rows.last();
        let b = compacted(prev);
        let c = compacted(rows);
        lemma_compacted_holds(prev);
        assert forall|i: int| 0 <= i < rows.len() implies exists|k: int|
            0 <= k < c.len() && holds_row(#[trigger] c[k], #[trigger] rows[i]) by {
            if i < prev.len() {
                assert(prev[i] == rows[i]);
                let k = choose|k: int|
                    0 <= k < b.len() && holds_row(#[trigger] b[k], #[trigger] prev[i]);
                if b.len() > 0 && continues(b.last(), r) && k == b.len() - 1 {
                    assert(holds_row(c[k], rows[i]));
                } else {
                    assert(c[k] == b[k]);
                    assert(holds_row(c[k], rows[i]));
                }
            } else {
                if b.len() > 0 && continues(b.last(), r) {
                    assert(holds_row(c[c.len() - 1], rows[i]));
                } else {
                    assert(c[c.len() - 1] == r);
                    assert(holds_row(c[c.len() - 1], rows[i]));
                }
            }
        }
    }
}

/// Compaction is maximal: no two neighbours of one partition are left with the
/// same value.
pub proof fn lemma_compacted_maximal(rows: Seq<Piece>)
    ensures
        maximal(compacted(rows)),
    decreases rows.len(),
{
    if rows.len() > 0 {
        let before = compacted(rows.drop_last());
        let after = compacted(rows);
        lemma_compacted_maximal(rows.drop_last());
        assert forall|i: int| 0 < i < after.len() && same_partition(after[i - 1], after[i])
            implies !(#[trigger] after[i]).value.same(after[i - 1].value) by {
            if before.len() > 0 && continues(before.last(), rows.last()) {
                if i < after.len() - 1 {
                    assert(after[i] == before[i]);
                    assert(after[i - 1] == before[i - 1]);
                } else {
                    assert(after[i - 1] == before[i - 1]);
                    assert(after[i].value == before[i].value);
                    assert(same_partition(before[i - 1], before[i]));
                }
            } else {
                if i < after.len() - 1 {
                    assert(after[i] == before[i]);
                    assert(after[i - 1] == before[i - 1]);
                } else {
                    assert(after[i - 1] == before.last());
                    assert(after[i] == rows.last());
                    if after[i].value.same(after[i - 1].value) {
                        lemma_same_symmetric(after[i].value, after[i - 1].value);
                    }
                }
            }
        }
    }
}

/// Merges each run of neighbouring rows of one partition with the same value into
/// one piece from the smallest start to the largest end of the run. No two
/// neighbours of one partition are left with the same value, and every row lies
/// within a piece that has its value.
pub fn compact(rows: &Vec<Piece>) -> (out: Vec<Piece>)
    ensures
        out@ == compacted(rows@),
        maximal(out@),
        holds_rows(out@, rows@),
{
    let mut out: Vec<Piece> = Vec::new();
    let mut i: usize = 0;
    while i < rows.len()
        invariant
            i <= rows.len(),
            out@ == compacted(rows@.take(i as int)),
        decreases rows.len() - i,
    {
        let next: Piece = rows[i];
        proof {
            assert(rows@.take(i + 1).drop_last() =~= rows@.take(i as int));
            assert(rows@.take(i + 1).last() == next);
        }
        let mut merged: bool = false;
        if out.len() > 0 {
            let run: Piece = out[out.len() - 1];
            if run.group == next.group && run.year == next.year && run.period == next.period
                && run.value.equals(&next.value) {
                let grown = Piece {
                    group: run.group,
                    year: run.year,
                    period: run.period,
                    start: if next.start < run.start {
                        next.start
                    } else {
                        run.start
                    },
                    end: if next.end > run.end {
                        next.end
                    } else {
                        run.end
                    },
                    value: run.value,
                };
                let ghost before = out@;
                out.pop();
                out.push(grown);
                assert(out@ =~= before.drop_last().push(extended(before.last(), next)));
                merged = true;
            }
        }
        if !merged {
            out.push(next);
        }
        i += 1;
    }
    proof {
        assert(rows@.take(rows.len() as int) =~= rows@);
        lemma_compacted_maximal(rows@);
        lemma_compacted_holds(rows@);
    }
    out
}

} // verus!
