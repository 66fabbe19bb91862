//! The order in which a library prefers its books, and sorting by it.

use crate::copies::{count_of, CopyCount};
use crate::task::{distinct_ids, BookRef};
use vstd::prelude::*;

verus! {

/// What a list of books is ordered by. Every ranking ends with the books'
/// identifiers, so no two different books rank equal.
#[derive(Clone, Copy, Debug, PartialEq, Eq, Structural)]
pub enum Ranking {
    /// Ascending identifier.
    Identifier,
    /// Fewest copies left first.
    Scarcity,
    /// Highest score first; among equal scores, fewest copies left first.
    Value,
}

/// `a` has fewer copies left than `b`, or as many and the smaller identifier.
pub open spec fn scarcer(a: BookRef, b: BookRef, counts: Seq<usize>) -> bool {
    let ca = count_of(counts, a.id as int);
    let cb = count_of(counts, b.id as int);
    ca < cb || (ca == cb && a.id < b.id)
}

/// `a` comes strictly before `b` in the given ranking.
pub open spec fn precedes(a: BookRef, b: BookRef, counts: Seq<usize>, ranking: Ranking) -> bool {
    match ranking {
        Ranking::Identifier => a.id < b.id,
        Ranking::Scarcity => scarcer(a, b, counts),
        Ranking::Value => a.score > b.score || (a.score == b.score && scarcer(a, b, counts)),
    }
}

/// No book of the list comes strictly before a book that stands earlier.
pub open spec fn ranked(books: Seq<BookRef>, counts: Seq<usize>, ranking: Ranking) -> bool {
    forall|i: int, j: int|
        0 <= i < j < books.len() ==> !precedes(books[j], books[i], counts, ranking)
}

/// There is one way only to rank books with different identifiers: two
/// ranked lists of the same books are the same list.
pub proof fn lemma_ranked_unique(
    a: Seq<BookRef>,
    b: Seq<BookRef>,
    counts: Seq<usize>,
    ranking: Ranking,
)
    requires
        ranked(a, counts, ranking),
        ranked(b, counts, ranking),
        a.to_multiset() == b.to_multiset(),
        distinct_ids(a),
    ensures
        a == b,
    decreases a.len(),
{
    broadcast use vstd::seq_lib::group_to_multiset_ensures;

    assert(a.len() == a.to_multiset().len());
    assert(b.len() == b.to_multiset().len());
    if a.len() > 0 {
        assert(a.contains(a[0]));
        assert(b.to_multiset().count(a[0]) > 0);
        assert(b.contains(a[0]));
        let j = choose|j: int| 0 <= j < b.len() && b[j] == a[0];
        assert(b.contains(b[0]));
        assert(a.to_multiset().count(b[0]) > 0);
        assert(a.contains(b[0]));
        let i = choose|i: int| 0 <= i < a.len() && a[i] == b[0];
        if i > 0 {
            assert(!precedes(a[i], a[0], counts, ranking));
        }
        if j > 0 {
            assert(!precedes(b[j], b[0], counts, ranking));
        }
        assert(a[0].id == b[0].id);
        assert(i == 0);
        let rest_a = a.drop_first();
        let rest_b = b.drop_first();
        assert(rest_a == a.remove(0));
        assert(rest_b == b.remove(0));
        assert(rest_a.to_multiset() == rest_b.to_multiset());
        assert forall|x: int, y: int| 0 <= x < y < rest_a.len() implies !precedes(
            rest_a[y],
            rest_a[x],
            counts,
            ranking,
        ) by {
            assert(rest_a[x] == a[x + 1] && rest_a[y] == a[y + 1]);
        }
        assert forall|x: int, y: int| 0 <= x < y < rest_b.len() implies !precedes(
            rest_b[y],
            rest_b[x],
            counts,
            ranking,
        ) by {
            assert(rest_b[x] == b[x + 1] && rest_b[y] == b[y + 1]);
        }
        assert forall|x: int, y: int|
            0 <= x < rest_a.len() && 0 <= y < rest_a.len() && x != y implies rest_a[x].id
            != rest_a[y].id by {
            assert(rest_a[x] == a[x + 1] && rest_a[y] == a[y + 1]);
        }
        lemma_ranked_unique(rest_a, rest_b, counts, ranking);
        assert(a == seq![a[0]] + rest_a);
        assert(b == seq![b[0]] + rest_b);
    }
}

/// Whether `a` comes strictly before `b` in the given ranking.
pub fn comes_before(a: &BookRef, b: &BookRef, copy_count: &CopyCount, ranking: Ranking) -> (r: bool)
    ensures
        r == precedes(*a, *b, copy_count@, ranking),
{
    match ranking {
        Ranking::Identifier => a.id < b.id,
        Ranking::Scarcity => {
            let ca = copy_count.count(a.id);
            let cb = copy_count.count(b.id);
            ca < cb || (ca == cb && a.id < b.id)
        },
        Ranking::Value => {
            if a.score != b.score {
                a.score > b.score
            } else {
                let ca = copy_count.count(a.id);
                let cb = copy_count.count(b.id);
                ca < cb || (ca == cb && a.id < b.id)
            }
        },
    }
}

/// Merges two ranked lists into one.
fn merge(left: &Vec<BookRef>, right: &Vec<BookRef>, copy_count: &CopyCount, ranking: Ranking) -> (out:
    Vec<BookRef>)
    requires
        ranked(left@, copy_count@, ranking),
        ranked(right@, copy_count@, ranking),
    ensures
        ranked(out@, copy_count@, ranking),
        out@.to_multiset() == left@.to_multiset().add(right@.to_multiset()),
{
    broadcast use {vstd::seq_lib::group_to_multiset_ensures, vstd::multiset::group_multiset_axioms};

    let mut out: Vec<BookRef> = Vec::new();
    let mut i: usize = 0;
    let mut j: usize = 0;
    while i < left.len() || j < right.len()
        invariant
            i <= left.len(),
            j <= right.len(),
            ranked(left@, copy_count@, ranking),
            ranked(right@, copy_count@, ranking),
            ranked(out@, copy_count@, ranking),
            out@.to_multiset() == left@.take(i as int).to_multiset().add(
                right@.take(j as int).to_multiset(),
            ),
            forall|k: int|
                0 <= k < out.len() && i < left.len() ==> !precedes(
                    left[i as int],
                    #[trigger] out[k],
                    copy_count@,
                    ranking,
                ),
            forall|k: int|
                0 <= k < out.len() && j < right.len() ==> !precedes(
                    right[j as int],
                    #[trigger] out[k],
                    copy_count@,
                    ranking,
                ),
        decreases left.len() - i + right.len() - j,
    {
        let ghost before = out@;
        let from_left = if i == left.len() {
            false
        } else if j == right.len() {
            true
        } else {
            !comes_before(&right[j], &left[i], copy_count, ranking)
        };
        if from_left {
            let book = left[i];
            out.push(book);
            proof {
                assert(out@ == before.push(book));
                assert(left@.take(i + 1) == left@.take(i as int).push(book));
                vstd::seq_lib::to_multiset_build(before, book);
                vstd::seq_lib::to_multiset_build(left@.take(i as int), book);
                assert(out@.to_multiset() =~= left@.take(i + 1).to_multiset().add(
                    right@.take(j as int).to_multiset(),
                ));
                assert forall|a: int, b: int| 0 <= a < b < out.len() implies !precedes(
                    out[b],
                    out[a],
                    copy_count@,
                    ranking,
                ) by {
                    if b < before.len() {
                        assert(out[a] == before[a] && out[b] == before[b]);
                    } else {
                        assert(out[a] == before[a]);
                    }
                }
                assert forall|k: int| 0 <= k < out.len() && i + 1 < left.len() implies !precedes(
                    left[i + 1],
                    #[trigger] out[k],
                    copy_count@,
                    ranking,
                ) by {
                    assert(!precedes(left[i + 1], left[i as int], copy_count@, ranking));
                    if k < before.len() {
                        assert(out[k] == before[k]);
                    }
                }
            }
            i += 1;
        } else {
            let book = right[j];
            out.push(book);
            proof {
                assert(out@ == before.push(book));
                assert(right@.take(j + 1) == right@.take(j as int).push(book));
                vstd::seq_lib::to_multiset_build(before, book);
                vstd::seq_lib::to_multiset_build(right@.take(j as int), book);
                assert(out@.to_multiset() =~= left@.take(i as int).to_multiset().add(
                    right@.take(j + 1).to_multiset(),
                ));
                assert forall|a: int, b: int| 0 <= a < b < out.len() implies !precedes(
                    out[b],
                    out[a],
                    copy_count@,
                    ranking,
                ) by {
                    if b < before.len() {
                        assert(out[a] == before[a] && out[b] == before[b]);
                    } else {
                        assert(out[a] == before[a]);
                    }
                }
                assert forall|k: int| 0 <= k < out.len() && j + 1 < right.len() implies !precedes(
                    right[j + 1],
                    #[trigger] out[k],
                    copy_count@,
                    ranking,
                ) by {
                    assert(!precedes(right[j + 1], right[j as int], copy_count@, ranking));
                    if k < before.len() {
                        assert(out[k] == before[k]);
                    }
                }
            }
            j += 1;
        }
    }
    assert(left@.take(i as int) == left@);
    assert(right@.take(j as int) == right@);
    out
}

/// A ranked copy of `books[lo..hi]`.
fn sorted_range(
    books: &Vec<BookRef>,
    lo: usize,
    hi: usize,
    copy_count: &CopyCount,
    ranking: Ranking,
) -> (out: Vec<BookRef>)
    requires
        lo <= hi <= books.len(),
    ensures
        ranked(out@, copy_count@, ranking),
        out@.to_multiset() == books@.subrange(lo as int, hi as int).to_multiset(),
    decreases hi - lo,
{
    broadcast use vstd::seq_lib::group_to_multiset_ensures;

    if hi - lo <= 1 {
        let mut out: Vec<BookRef> = Vec::new();
        if lo < hi {
            out.push(books[lo]);
        }
        assert(out@ == books@.subrange(lo as int, hi as int));
        out
    } else {
        let mid = lo + (hi - lo) / 2;
        let left = sorted_range(books, lo, mid, copy_count, ranking);
        let right = sorted_range(books, mid, hi, copy_count, ranking);
        proof {
            let whole = books@.subrange(lo as int, hi as int);
            let first = books@.subrange(lo as int, mid as int);
            let second = books@.subrange(mid as int, hi as int);
            assert(whole == first + second);
            vstd::seq_lib::lemma_multiset_commutative(first, second);
        }
        merge(&left, &right, copy_count, ranking)
    }
}

/// Puts `books` into the order of `ranking`: the same books, each as often
/// as before, and none before a book that it should follow.
pub fn sort_books(books: &mut Vec<BookRef>, copy_count: &CopyCount, ranking: Ranking)
    ensures
        ranked(final(books)@, copy_count@, ranking),
        final(books)@.to_multiset() == old(books)@.to_multiset(),
{
    let sorted = sorted_range(books, 0, books.len(), copy_count, ranking);
    assert(books@.subrange(0, books.len() as int) == books@);
    *books = sorted;
}

} // verus!
