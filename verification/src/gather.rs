//! Gathering: pieces that lie on the same stretch of the same partition become one
//! piece with the sum of their values.
use crate::series::{same_place, Piece};
use vstd::prelude::*;

verus! {

/// The place of the first cell on the stretch of `x`, or the number of cells if
/// there is none.
pub open spec fn place_index(cells: Seq<Piece>, x: Piece) -> int
    decreases cells.len(),
{
    if cells.len() == 0 {
        0
    } else {
        let i = place_index(cells.drop_last(), x);
        if i < cells.len() - 1 {
            i
        } else if same_place(cells.last(), x) {
            cells.len() - 1
        } else {
            cells.len() as int
        }
    }
}

/// The cells with `x` added: its value goes to the first cell on its stretch, or
/// `x` becomes a new last cell. `None` where the sum does not fit.
pub open spec fn with_piece(cells: Seq<Piece>, x: Piece) -> Option<Seq<Piece>> {
    let i = place_index(cells, x);
    if i < cells.len() {
        match cells[i].value.plus(x.value) {
            None => None,
            Some(value) => Some(cells.update(i, Piece { value, ..cells[i] })),
        }
    } else {
        Some(cells.push(x))
    }
}

/// One cell per stretch of a partition that holds a piece, in the order in which
/// the stretches first occur, with the sum of the values of its pieces, added in
/// their order. `None` where a sum does not fit.
pub open spec fn gathered(pieces: Seq<Piece>) -> Option<Seq<Piece>>
    decreases pieces.len(),
{
    if pieces.len() == 0 {
        Some(Seq::empty())
    } else {
        match gathered(pieces.drop_last()) {
            None => None,
            Some(cells) => with_piece(cells, pieces.last()),
        }
    }
}

/// The first cell on the stretch of `x`, where there is one, lies on it.
pub proof fn lemma_place_index_place(cells: Seq<Piece>, x: Piece)
    ensures
        0 <= place_index(cells, x) <= cells.len(),
        place_index(cells, x) < cells.len() ==> same_place(cells[place_index(cells, x)], x),
    decreases cells.len(),
{
    if cells.len() > 0 {
        lemma_place_index_place(cells.drop_last(), x);
    }
}

/// Where no cell lies on the stretch of `x`, the place that `place_index` gives is
/// the number of cells; and where it gives that number, no cell lies there.
pub proof fn lemma_place_index_none(cells: Seq<Piece>, x: Piece)
    ensures
        place_index(cells, x) == cells.len() <==> forall|k: int|
            0 <= k < cells.len() ==> !same_place(#[trigger] cells[k], x),
    decreases cells.len(),
{
    lemma_place_index_place(cells, x);
    if cells.len() > 0 {
        lemma_place_index_none(cells.drop_last(), x);
        lemma_place_index_place(cells.drop_last(), x);
        let i = place_index(cells.drop_last(), x);
        if i < cells.len() - 1 {
            assert(cells.drop_last()[i] == cells[i]);
        } else if !same_place(cells.last(), x) {
            assert forall|k: int| 0 <= k < cells.len() implies !same_place(
                #[trigger] cells[k],
                x,
            ) by {
                if k < cells.len() - 1 {
                    assert(cells.drop_last()[k] == cells[k]);
                }
            }
        }
    }
}

/// The cells lie on the stretches of the pieces, one cell per stretch: no two cells
/// lie on the same stretch of a partition, every cell lies where a piece lies,
/// and every piece lies where a cell lies.
pub proof fn lemma_gathered_places(pieces: Seq<Piece>)
    requires
        gathered(pieces) is Some,
    ensures
        forall|i: int, j: int|
            0 <= i < j < gathered(pieces)->Some_0.len() ==> !same_place(
                gathered(pieces)->Some_0[i],
                gathered(pieces)->Some_0[j],
            ),
        forall|k: int|
            0 <= k < gathered(pieces)->Some_0.len() ==> exists|a: int|
                0 <= a < pieces.len() && same_place(
                    #[trigger] gathered(pieces)->Some_0[k],
                    #[trigger] pieces[a],
                ),
        forall|a: int|
            0 <= a < pieces.len() ==> exists|k: int|
                0 <= k < gathered(pieces)->Some_0.len() && same_place(
                    #[trigger] gathered(pieces)->Some_0[k],
                    #[trigger] pieces[a],
                ),
    decreases pieces.len(),
{
    if pieces.len() > 0 {
        let prev = pieces.drop_last();
        let x = pieces.last();
        lemma_gathered_places(prev);
        let cells = gathered(prev)->Some_0;
        let all = gathered(pieces)->Some_0;
        let at = place_index(cells, x);
        lemma_place_index_place(cells, x);
        lemma_place_index_none(cells, x);
        assert(all.len() >= cells.len());
        assert forall|k: int| 0 <= k < cells.len() implies same_place(
            #[trigger] all[k],
            cells[k],
        ) by {}
        assert forall|i: int, j: int| 0 <= i < j < all.len() implies !same_place(
            all[i],
            all[j],
        ) by {
            if j < cells.len() {
                assert(same_place(all[i], cells[i]) && same_place(all[j], cells[j]));
                assert(!same_place(cells[i], cells[j]));
            } else {
                assert(same_place(all[i], cells[i]));
                assert(!same_place(cells[i], x));
            }
        }
        assert forall|k: int| 0 <= k < all.len() implies exists|a: int|
            0 <= a < pieces.len() && same_place(#[trigger] all[k], #[trigger] pieces[a]) by {
            if k < cells.len() {
                assert(same_place(all[k], cells[k]));
                let a = choose|a: int|
                    0 <= a < prev.len() && same_place(#[trigger] cells[k], #[trigger] prev[a]);
                assert(pieces[a] == prev[a]);
                assert(same_place(all[k], pieces[a]));
            } else {
                assert(same_place(all[k], pieces[pieces.len() - 1]));
            }
        }
        assert forall|a: int| 0 <= a < pieces.len() implies exists|k: int|
            0 <= k < all.len() && same_place(#[trigger] all[k], #[trigger] pieces[a]) by {
            if a < prev.len() {
                assert(pieces[a] == prev[a]);
                let k = choose|k: int|
                    0 <= k < cells.len() && same_place(#[trigger] cells[k], #[trigger] prev[a]);
                assert(same_place(all[k], cells[k]));
                assert(same_place(all[k], pieces[a]));
            } else {
                if at < cells.len() {
                    assert(same_place(all[at], cells[at]));
                    assert(same_place(all[at], pieces[a]));
                } else {
                    assert(same_place(all[all.len() - 1], pieces[a]));
                }
            }
        }
    }
}

/// Once a prefix holds a cell on the stretch of `x`, the place of the first such
/// cell is the same in every longer list.
pub proof fn lemma_place_index_found(cells: Seq<Piece>, x: Piece, i: int)
    requires
        0 <= i < cells.len(),
        place_index(cells.take(i), x) == i,
        same_place(cells[i], x),
    ensures
        place_index(cells, x) == i,
    decreases cells.len(),
{
    if cells.len() == i + 1 {
        assert(cells.drop_last() =~= cells.take(i));
    } else {
        assert(cells.drop_last().take(i) =~= cells.take(i));
        lemma_place_index_found(cells.drop_last(), x, i);
    }
}

/// Where the pieces up to some place cannot be gathered, all of them cannot.
pub proof fn lemma_gathered_prefix_none(pieces: Seq<Piece>, n: int)
    requires
        0 <= n <= pieces.len(),
        gathered(pieces.take(n)) is None,
    ensures
        gathered(pieces) is None,
    decreases pieces.len(),
{
    if n < pieces.len() {
        assert(pieces.drop_last().take(n) =~= pieces.take(n));
        lemma_gathered_prefix_none(pieces.drop_last(), n);
    } else {
        assert(pieces.take(n) =~= pieces);
    }
}

/// The place of the first cell on the stretch of `x`, or the number of cells.
fn find_place(cells: &Vec<Piece>, x: &Piece) -> (i: usize)
    ensures
        i == place_index(cells@, *x),
        i <= cells.len(),
{
    let mut i: usize = 0;
    while i < cells.len()
        invariant
            i <= cells.len(),
            place_index(cells@.take(i as int), *x) == i,
        decreases cells.len() - i,
    {
        let c: Piece = cells[i];
        proof {
            assert(cells@.take(i + 1).drop_last() =~= cells@.take(i as int));
        }
        if c.group == x.group && c.year == x.year && c.period == x.period && c.start == x.start
            && c.end == x.end {
            proof {
                lemma_place_index_found(cells@, *x, i as int);
            }
            return i;
        }
        i += 1;
    }
    assert(cells@.take(cells.len() as int) =~= cells@);
    i
}

/// Gathers the pieces on their stretches.
pub fn gather(pieces: &Vec<Piece>) -> (cells: Option<Vec<Piece>>)
    ensures
        match cells {
            Some(c) => gathered(pieces@) == Some(c@),
            None => gathered(pieces@) is None,
        },
{
    let mut cells: Vec<Piece> = Vec::new();
    let mut i: usize = 0;
    while i < pieces.len()
        invariant
            i <= pieces.len(),
            gathered(pieces@.take(i as int)) == Some(cells@),
        decreases pieces.len() - i,
    {
        let x: Piece = pieces[i];
        proof {
            assert(pieces@.take(i + 1).drop_last() =~= pieces@.take(i as int));
        }
        let at: usize = find_place(&cells, &x);
        if at < cells.len() {
            let cell: Piece = cells[at];
            match cell.value.checked_add(&x.value) {
                None => {
                    proof {
                        lemma_gathered_prefix_none(pieces@, i + 1);
                    }
                    return None;
                },
                Some(value) => {
                    cells.set(
                        at,
                        Piece {
                            group: cell.group,
                            year: cell.year,
                            period: cell.period,
                            start: cell.start,
                            end: cell.end,
                            value,
                        },
                    );
                },
            }
        } else {
            cells.push(x);
        }
        i += 1;
    }
    assert(pieces@.take(pieces.len() as int) =~= pieces@);
    Some(cells)
}

} // verus!
