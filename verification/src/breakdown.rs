//! The breakdown: each row goes to the bucket of the first node of the breakdown
//! under which its entity hangs, or to the bucket of all others; the rows of one
//! bucket on one block are summed.
use crate::gather::{gather, gathered, lemma_place_index_place, place_index};
use crate::hierarchy::{hangs_under, is_member_under};
use crate::model::{CategoryNode, Membership};
use crate::series::Piece;
use crate::text::{chars_equal, chars_of, string_of};
use vstd::prelude::*;

verus! {

/// The place, in the list `breakdown`, of the first node under which the entity
/// hangs, or the length of the list if there is none.
pub open spec fn first_match(
    memberships: Seq<Membership>,
    nodes: Seq<CategoryNode>,
    entity: u64,
    breakdown: Seq<i32>,
) -> int
    decreases breakdown.len(),
{
    if breakdown.len() == 0 {
        0
    } else if hangs_under(memberships, nodes, entity, breakdown[0]) {
        0
    } else {
        1 + first_match(memberships, nodes, entity, breakdown.skip(1))
    }
}

/// The first match is a place of the list or its length; it is the first place
/// whose node the entity hangs under.
pub proof fn lemma_first_match(
    memberships: Seq<Membership>,
    nodes: Seq<CategoryNode>,
    entity: u64,
    breakdown: Seq<i32>,
)
    ensures
        0 <= first_match(memberships, nodes, entity, breakdown) <= breakdown.len(),
        first_match(memberships, nodes, entity, breakdown) < breakdown.len() ==> hangs_under(
            memberships,
            nodes,
            entity,
            breakdown[first_match(memberships, nodes, entity, breakdown)],
        ),
        forall|k: int|
            0 <= k < first_match(memberships, nodes, entity, breakdown) ==> !hangs_under(
                memberships,
                nodes,
                entity,
                #[trigger] breakdown[k],
            ),
    decreases breakdown.len(),
{
    if breakdown.len() > 0 && !hangs_under(memberships, nodes, entity, breakdown[0]) {
        let rest = breakdown.skip(1);
        lemma_first_match(memberships, nodes, entity, rest);
        let b = first_match(memberships, nodes, entity, rest);
        assert forall|k: int| 0 <= k < b + 1 implies !hangs_under(
            memberships,
            nodes,
            entity,
            #[trigger] breakdown[k],
        ) by {
            if k > 0 {
                assert(breakdown[k] == rest[k - 1]);
            }
        }
        if b < rest.len() {
            assert(breakdown[b + 1] == rest[b]);
        }
    }
}

/// The name of the first node with the id `id`, if the list has such a node.
pub open spec fn name_of(nodes: Seq<CategoryNode>, id: i32) -> Option<Seq<char>>
    decreases nodes.len(),
{
    if nodes.len() == 0 {
        None
    } else if nodes[0].id == id {
        Some(nodes[0].name@)
    } else {
        name_of(nodes.skip(1), id)
    }
}

/// The name under which the rows of an entity are shown: that of the first node of
/// the breakdown under which the entity hangs, or `Other` where it hangs under
/// none. `None` where that node is not in the hierarchy.
pub open spec fn label_of(
    memberships: Seq<Membership>,
    nodes: Seq<CategoryNode>,
    entity: u64,
    breakdown: Seq<i32>,
) -> Option<Seq<char>> {
    let m = first_match(memberships, nodes, entity, breakdown);
    if m < breakdown.len() {
        name_of(nodes, breakdown[m])
    } else {
        Some("Other"@)
    }
}

/// The first place before `upto` whose node has the name `name`, or `upto` if
/// there is none.
pub open spec fn first_named(
    nodes: Seq<CategoryNode>,
    breakdown: Seq<i32>,
    name: Option<Seq<char>>,
    upto: int,
) -> int
    decreases upto,
{
    if upto <= 0 || upto > breakdown.len() {
        0
    } else {
        let i = first_named(nodes, breakdown, name, upto - 1);
        if i < upto - 1 {
            i
        } else if name_of(nodes, breakdown[upto - 1]) == name {
            upto - 1
        } else {
            upto
        }
    }
}

/// The bucket of an entity: the first place of the breakdown whose node has the
/// name under which the entity is shown, or the length of the list where no node
/// has it. So two entities share a bucket exactly where they are shown under one
/// name, and the entities that hang under no node share the bucket of the name
/// `Other`.
pub open spec fn bucket_of(
    memberships: Seq<Membership>,
    nodes: Seq<CategoryNode>,
    entity: u64,
    breakdown: Seq<i32>,
) -> int {
    first_named(
        nodes,
        breakdown,
        label_of(memberships, nodes, entity, breakdown),
        breakdown.len() as int,
    )
}

/// The name of a bucket: that of its node, or `Other` for the bucket behind the
/// list. `None` where the node of the bucket is not in the hierarchy.
pub open spec fn bucket_name(nodes: Seq<CategoryNode>, breakdown: Seq<i32>, bucket: int) -> Option<
    Seq<char>,
> {
    if 0 <= bucket < breakdown.len() {
        name_of(nodes, breakdown[bucket])
    } else {
        Some("Other"@)
    }
}

/// The place that `first_named` gives is the first whose node has the name.
pub proof fn lemma_first_named(
    nodes: Seq<CategoryNode>,
    breakdown: Seq<i32>,
    name: Option<Seq<char>>,
    upto: int,
)
    requires
        0 <= upto <= breakdown.len(),
    ensures
        0 <= first_named(nodes, breakdown, name, upto) <= upto,
        first_named(nodes, breakdown, name, upto) < upto ==> name_of(
            nodes,
            breakdown[first_named(nodes, breakdown, name, upto)],
        ) == name,
        forall|k: int|
            0 <= k < first_named(nodes, breakdown, name, upto) ==> name_of(
                nodes,
                #[trigger] breakdown[k],
            ) != name,
    decreases upto,
{
    if upto > 0 {
        lemma_first_named(nodes, breakdown, name, upto - 1);
    }
}

/// A bucket stands for a name: the rows of an entity are shown under the name of
/// the entity's bucket, and two entities have the same bucket if and only if they
/// are shown under the same name.
pub proof fn lemma_bucket_names(
    memberships: Seq<Membership>,
    nodes: Seq<CategoryNode>,
    breakdown: Seq<i32>,
    a: u64,
    b: u64,
)
    ensures
        0 <= bucket_of(memberships, nodes, a, breakdown) <= breakdown.len(),
        bucket_name(nodes, breakdown, bucket_of(memberships, nodes, a, breakdown)) == label_of(
            memberships,
            nodes,
            a,
            breakdown,
        ),
        bucket_of(memberships, nodes, a, breakdown) == bucket_of(memberships, nodes, b, breakdown)
            <==> label_of(memberships, nodes, a, breakdown) == label_of(
            memberships,
            nodes,
            b,
            breakdown,
        ),
{
    let n = breakdown.len() as int;
    let la = label_of(memberships, nodes, a, breakdown);
    let lb = label_of(memberships, nodes, b, breakdown);
    lemma_first_named(nodes, breakdown, la, n);
    lemma_first_named(nodes, breakdown, lb, n);
    lemma_first_match(memberships, nodes, a, breakdown);
    lemma_first_match(memberships, nodes, b, breakdown);
    let ma = first_match(memberships, nodes, a, breakdown);
    let mb = first_match(memberships, nodes, b, breakdown);
    let ba = bucket_of(memberships, nodes, a, breakdown);
    let bb = bucket_of(memberships, nodes, b, breakdown);
    // Where the entity hangs under a node, that node has its name, so some place
    // has it.
    if ma < n {
        assert(name_of(nodes, breakdown[ma]) == la);
        assert(ba <= ma);
    }
    if mb < n {
        assert(name_of(nodes, breakdown[mb]) == lb);
        assert(bb <= mb);
    }
}

/// The piece with its bucket in place of its entity.
pub open spec fn in_bucket(
    piece: Piece,
    memberships: Seq<Membership>,
    nodes: Seq<CategoryNode>,
    breakdown: Seq<i32>,
) -> Piece {
    Piece { group: bucket_of(memberships, nodes, piece.group, breakdown) as u64, ..piece }
}

/// All pieces with their buckets in place of their entities.
pub open spec fn classified(
    pieces: Seq<Piece>,
    memberships: Seq<Membership>,
    nodes: Seq<CategoryNode>,
    breakdown: Seq<i32>,
) -> Seq<Piece> {
    Seq::new(pieces.len(), |i: int| in_bucket(pieces[i], memberships, nodes, breakdown))
}

/// The series by buckets: the pieces with their buckets as groups, those of one
/// bucket on one block summed. `None` where a sum does not fit.
pub open spec fn broken_down(
    pieces: Seq<Piece>,
    memberships: Seq<Membership>,
    nodes: Seq<CategoryNode>,
    breakdown: Seq<i32>,
) -> Option<Seq<Piece>> {
    gathered(classified(pieces, memberships, nodes, breakdown))
}

/// The sum of the numerators of the pieces of `s` that lie, in any group, on the
/// block of `at`: in the year, the period and on the stretch of `at`.
pub open spec fn total_on(s: Seq<Piece>, at: Piece) -> int
    decreases s.len(),
{
    if s.len() == 0 {
        0
    } else if on_block(s.last(), at) {
        total_on(s.drop_last(), at) + s.last().value.num
    } else {
        total_on(s.drop_last(), at)
    }
}

/// Both pieces lie on the same block, in whatever group.
pub open spec fn on_block(a: Piece, b: Piece) -> bool {
    a.year == b.year && a.period == b.period && a.start == b.start && a.end == b.end
}

/// Every value is a whole number.
pub open spec fn whole_values(s: Seq<Piece>) -> bool {
    forall|i: int| 0 <= i < s.len() ==> (#[trigger] s[i]).value.den == 1
}

/// Replacing one piece by a piece on the same block changes the total on a block
/// by the difference of the two values.
proof fn lemma_total_on_update(s: Seq<Piece>, i: int, x: Piece, at: Piece)
    requires
        0 <= i < s.len(),
        on_block(x, s[i]),
    ensures
        total_on(s.update(i, x), at) == total_on(s, at) + (if on_block(x, at) {
            x.value.num - s[i].value.num
        } else {
            0
        }),
    decreases s.len(),
{
    if i == s.len() - 1 {
        assert(s.update(i, x).drop_last() =~= s.drop_last());
    } else {
        lemma_total_on_update(s.drop_last(), i, x, at);
        assert(s.update(i, x).drop_last() =~= s.drop_last().update(i, x));
    }
}

/// Gathering whole values keeps, on every block, the total over all groups.
pub proof fn lemma_gathered_total(pieces: Seq<Piece>, at: Piece)
    requires
        whole_values(pieces),
        gathered(pieces) is Some,
    ensures
        whole_values(gathered(pieces)->Some_0),
        total_on(gathered(pieces)->Some_0, at) == total_on(pieces, at),
    decreases pieces.len(),
{
    if pieces.len() > 0 {
        let x = pieces.last();
        assert(whole_values(pieces.drop_last())) by {
            assert forall|i: int| 0 <= i < pieces.drop_last().len() implies (
            #[trigger] pieces.drop_last()[i]).value.den == 1 by {
                assert(pieces.drop_last()[i] == pieces[i]);
            }
        }
        lemma_gathered_total(pieces.drop_last(), at);
        let cells = gathered(pieces.drop_last())->Some_0;
        let i = place_index(cells, x);
        lemma_place_index_place(cells, x);
        if i < cells.len() {
            let value = cells[i].value.plus(x.value)->Some_0;
            let grown = Piece { value, ..cells[i] };
            lemma_total_on_update(cells, i, grown, at);
            assert(cells.update(i, grown).drop_last().len() == cells.len() - 1);
        } else {
            assert(cells.push(x).drop_last() =~= cells);
        }
    }
}

/// Putting the pieces into buckets keeps, on every block, the total over all
/// groups, and keeps the values whole.
pub proof fn lemma_classified_total(
    pieces: Seq<Piece>,
    memberships: Seq<Membership>,
    nodes: Seq<CategoryNode>,
    breakdown: Seq<i32>,
    at: Piece,
)
    ensures
        total_on(classified(pieces, memberships, nodes, breakdown), at) == total_on(pieces, at),
        whole_values(pieces) ==> whole_values(classified(pieces, memberships, nodes, breakdown)),
    decreases pieces.len(),
{
    if pieces.len() > 0 {
        lemma_classified_total(pieces.drop_last(), memberships, nodes, breakdown, at);
        assert(classified(pieces, memberships, nodes, breakdown).drop_last() =~= classified(
            pieces.drop_last(),
            memberships,
            nodes,
            breakdown,
        ));
        if whole_values(pieces) {
            assert forall|i: int| 0 <= i < pieces.len() implies (#[trigger] classified(
                pieces,
                memberships,
                nodes,
                breakdown,
            )[i]).value.den == 1 by {
                assert(pieces[i].value.den == 1);
            }
        }
    }
}

/// Conservation under breakdown: on every block of every period and year, the
/// values of all buckets together, the bucket of the others included, sum to what
/// the values of all entities sum to.
pub proof fn lemma_breakdown_conserves(
    pieces: Seq<Piece>,
    memberships: Seq<Membership>,
    nodes: Seq<CategoryNode>,
    breakdown: Seq<i32>,
    at: Piece,
)
    requires
        whole_values(pieces),
        broken_down(pieces, memberships, nodes, breakdown) is Some,
    ensures
        total_on(broken_down(pieces, memberships, nodes, breakdown)->Some_0, at) == total_on(
            pieces,
            at,
        ),
{
    lemma_classified_total(pieces, memberships, nodes, breakdown, at);
    lemma_gathered_total(classified(pieces, memberships, nodes, breakdown), at);
}

/// The place of the first node under which the entity hangs.
pub fn find_first_match(
    memberships: &Vec<Membership>,
    nodes: &Vec<CategoryNode>,
    entity: u64,
    breakdown: &Vec<i32>,
) -> (place: usize)
    ensures
        place == first_match(memberships@, nodes@, entity, breakdown@),
        place <= breakdown.len(),
{
    let mut i: usize = 0;
    assert(breakdown@.skip(0) =~= breakdown@);
    while i < breakdown.len()
        invariant
            i <= breakdown.len(),
            first_match(memberships@, nodes@, entity, breakdown@) == i + first_match(
                memberships@,
                nodes@,
                entity,
                breakdown@.skip(i as int),
            ),
        decreases breakdown.len() - i,
    {
        proof {
            assert(breakdown@.skip(i as int).skip(1) =~= breakdown@.skip(i + 1));
            assert(breakdown@.skip(i as int)[0] == breakdown@[i as int]);
        }
        if is_member_under(memberships, nodes, entity, breakdown[i]) {
            return i;
        }
        i += 1;
    }
    i
}

/// The name of the node `id`.
pub fn find_name(nodes: &Vec<CategoryNode>, id: i32) -> (name: Option<Vec<char>>)
    ensures
        match name {
            Some(text) => name_of(nodes@, id) == Some(text@),
            None => name_of(nodes@, id) is None,
        },
{
    let mut i: usize = 0;
    assert(nodes@.skip(0) =~= nodes@);
    while i < nodes.len()
        invariant
            i <= nodes.len(),
            name_of(nodes@, id) == name_of(nodes@.skip(i as int), id),
        decreases nodes.len() - i,
    {
        proof {
            assert(nodes@.skip(i as int).skip(1) =~= nodes@.skip(i + 1));
            assert(nodes@.skip(i as int)[0] == nodes@[i as int]);
        }
        if nodes[i].id == id {
            return Some(chars_of(nodes[i].name.as_str()));
        }
        i += 1;
    }
    None
}

/// Whether both names are the same, a missing name being the same as a missing
/// name only.
fn same_name(a: &Option<Vec<char>>, b: &Option<Vec<char>>) -> (same: bool)
    ensures
        same == match (a, b) {
            (Some(x), Some(y)) => x@ == y@,
            (None, None) => true,
            _ => false,
        },
{
    match (a, b) {
        (Some(x), Some(y)) => chars_equal(x, y),
        (None, None) => true,
        _ => false,
    }
}

/// The bucket of an entity.
pub fn find_bucket(
    memberships: &Vec<Membership>,
    nodes: &Vec<CategoryNode>,
    entity: u64,
    breakdown: &Vec<i32>,
) -> (bucket: usize)
    ensures
        bucket == bucket_of(memberships@, nodes@, entity, breakdown@),
        bucket <= breakdown.len(),
{
    let m: usize = find_first_match(memberships, nodes, entity, breakdown);
    let label: Option<Vec<char>> = if m < breakdown.len() {
        find_name(nodes, breakdown[m])
    } else {
        Some(chars_of("Other"))
    };
    let ghost wanted = label_of(memberships@, nodes@, entity, breakdown@);
    assert(match label {
        Some(text) => wanted == Some(text@),
        None => wanted is None,
    });
    let mut j: usize = 0;
    while j < breakdown.len()
        invariant
            j <= breakdown.len(),
            wanted == label_of(memberships@, nodes@, entity, breakdown@),
            first_named(nodes@, breakdown@, wanted, j as int) == j,
            match label {
                Some(text) => wanted == Some(text@),
                None => wanted is None,
            },
        decreases breakdown.len() - j,
    {
        let name: Option<Vec<char>> = find_name(nodes, breakdown[j]);
        if same_name(&name, &label) {
            proof {
                assert(name_of(nodes@, breakdown@[j as int]) == wanted) by {
                    match (name, label) {
                        (Some(x), Some(y)) => {
                            assert(x@ == y@);
                        },
                        _ => {},
                    }
                }
                lemma_first_named_found(nodes@, breakdown@, wanted, j as int, breakdown@.len() as int);
            }
            return j;
        }
        j += 1;
    }
    j
}

/// Once the node at a place has the name and no place before it has, that place is
/// the first with the name up to every later place.
pub proof fn lemma_first_named_found(
    nodes: Seq<CategoryNode>,
    breakdown: Seq<i32>,
    name: Option<Seq<char>>,
    j: int,
    upto: int,
)
    requires
        0 <= j < upto <= breakdown.len(),
        first_named(nodes, breakdown, name, j) == j,
        name_of(nodes, breakdown[j]) == name,
    ensures
        first_named(nodes, breakdown, name, upto) == j,
    decreases upto,
{
    if upto > j + 1 {
        lemma_first_named_found(nodes, breakdown, name, j, upto - 1);
    }
}

/// Breaks a series down by the nodes of `breakdown`: each piece goes to the bucket
/// of the first node under which its entity hangs, or to the bucket of the others,
/// and the pieces of one bucket on one block are summed.
pub fn break_down(
    pieces: &Vec<Piece>,
    memberships: &Vec<Membership>,
    nodes: &Vec<CategoryNode>,
    breakdown: &Vec<i32>,
) -> (out: Option<Vec<Piece>>)
    ensures
        match out {
            Some(series) => broken_down(pieces@, memberships@, nodes@, breakdown@) == Some(
                series@,
            ),
            None => broken_down(pieces@, memberships@, nodes@, breakdown@) is None,
        },
{
    let mut renamed: Vec<Piece> = Vec::new();
    let mut i: usize = 0;
    while i < pieces.len()
        invariant
            i <= pieces.len(),
            renamed@.len() == i,
            forall|k: int|
                0 <= k < i ==> renamed@[k] == in_bucket(
                    pieces@[k],
                    memberships@,
                    nodes@,
                    breakdown@,
                ),
        decreases pieces.len() - i,
    {
        let p: Piece = pieces[i];
        let bucket: usize = find_bucket(memberships, nodes, p.group, breakdown);
        renamed.push(
            Piece {
                group: bucket as u64,
                year: p.year,
                period: p.period,
                start: p.start,
                end: p.end,
                value: p.value,
            },
        );
        i += 1;
    }
    assert(renamed@ =~= classified(pieces@, memberships@, nodes@, breakdown@));
    gather(&renamed)
}

/// The name under which a bucket is shown.
pub fn name_bucket(nodes: &Vec<CategoryNode>, breakdown: &Vec<i32>, bucket: u64) -> (name: Option<
    String,
>)
    ensures
        match name {
            Some(text) => bucket_name(nodes@, breakdown@, bucket as int) == Some(text@),
            None => bucket_name(nodes@, breakdown@, bucket as int) is None,
        },
{
    if bucket >= breakdown.len() as u64 {
        return Some(string_of(&chars_of("Other")));
    }
    match find_name(nodes, breakdown[bucket as usize]) {
        Some(text) => Some(string_of(&text)),
        None => None,
    }
}

} // verus!
