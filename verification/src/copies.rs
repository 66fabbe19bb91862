//! The copy-count index: for each book, the number of libraries that are
//! still waiting to sign up and could still scan it.

use crate::task::{distinct_ids, holds_id, BookRef};
use vstd::prelude::*;

verus! {

/// The count recorded for the book `id`; zero for a book the index does not know.
pub open spec fn count_of(counts: Seq<usize>, id: int) -> nat {
    if 0 <= id < counts.len() {
        counts[id] as nat
    } else {
        0
    }
}

/// The count after one copy has gone, never below zero.
pub open spec fn one_less(count: nat) -> nat {
    if count > 0 {
        (count - 1) as nat
    } else {
        0
    }
}

/// The count after `gone` copies have gone, never below zero.
pub open spec fn less_by(count: nat, gone: nat) -> nat {
    if gone < count {
        (count - gone) as nat
    } else {
        0
    }
}

/// The number of shelves that hold the book `id`.
pub open spec fn holders(shelves: Seq<Seq<BookRef>>, id: int) -> nat
    decreases shelves.len(),
{
    if shelves.len() == 0 {
        0
    } else {
        let rest = holders(shelves.drop_last(), id);
        if holds_id(shelves.last(), id) {
            rest + 1
        } else {
            rest
        }
    }
}

/// One more shelf is one more holder of each book it holds.
pub proof fn lemma_holders_push(shelves: Seq<Seq<BookRef>>, shelf: Seq<BookRef>, id: int)
    ensures
        holders(shelves.push(shelf), id) == holders(shelves, id) + if holds_id(shelf, id) {
            1nat
        } else {
            0nat
        },
{
    assert(shelves.push(shelf).drop_last() == shelves);
}

/// No book has more holders than there are shelves.
pub proof fn lemma_holders_bound(shelves: Seq<Seq<BookRef>>, id: int)
    ensures
        holders(shelves, id) <= shelves.len(),
    decreases shelves.len(),
{
    if shelves.len() > 0 {
        lemma_holders_bound(shelves.drop_last(), id);
    }
}

/// Shelves that hold the same books, one by one, hold a book equally often.
pub proof fn lemma_holders_same(a: Seq<Seq<BookRef>>, b: Seq<Seq<BookRef>>, id: int)
    requires
        a.len() == b.len(),
        forall|j: int| 0 <= j < a.len() ==> (holds_id(a[j], id) <==> holds_id(b[j], id)),
    ensures
        holders(a, id) == holders(b, id),
    decreases a.len(),
{
    if a.len() > 0 {
        lemma_holders_same(a.drop_last(), b.drop_last(), id);
    }
}

/// Taking a shelf away takes one holder from each book that it holds.
pub proof fn lemma_holders_remove(shelves: Seq<Seq<BookRef>>, at: int, id: int)
    requires
        0 <= at < shelves.len(),
    ensures
        holders(shelves, id) == holders(shelves.remove(at), id) + if holds_id(shelves[at], id) {
            1nat
        } else {
            0nat
        },
    decreases shelves.len(),
{
    let last = shelves.len() - 1;
    if at == last {
        assert(shelves.remove(at) == shelves.drop_last());
    } else {
        lemma_holders_remove(shelves.drop_last(), at, id);
        assert(shelves.remove(at).drop_last() == shelves.drop_last().remove(at));
        assert(shelves.remove(at).last() == shelves.last());
    }
}

/// Copy counts, indexed by book identifier.
pub struct CopyCount {
    pub counts: Vec<usize>,
}

impl View for CopyCount {
    type V = Seq<usize>;

    open spec fn view(&self) -> Seq<usize> {
        self.counts@
    }
}

impl CopyCount {
    /// An index that knows the books `0..books` and counts no copy of any.
    pub fn new(books: usize) -> (index: Self)
        ensures
            index@.len() == books,
            forall|id: int| count_of(index@, id) == 0,
    {
        let mut counts: Vec<usize> = Vec::new();
        let mut i: usize = 0;
        while i < books
            invariant
                i <= books,
                counts.len() == i,
                forall|k: int| 0 <= k < i ==> counts[k] == 0,
            decreases books - i,
        {
            counts.push(0);
            i += 1;
        }
        CopyCount { counts }
    }

    /// A copy of the index.
    pub fn duplicate(&self) -> (copy: Self)
        ensures
            copy@ == self@,
    {
        let mut counts: Vec<usize> = Vec::new();
        let mut i: usize = 0;
        while i < self.counts.len()
            invariant
                i <= self.counts.len(),
                counts@ == self.counts@.take(i as int),
            decreases self.counts.len() - i,
        {
            counts.push(self.counts[i]);
            i += 1;
        }
        assert(self.counts@.take(i as int) == self.counts@);
        CopyCount { counts }
    }

    /// The number of copies of `book` that are left.
    pub fn count(&self, book: u32) -> (count: usize)
        ensures
            count == count_of(self@, book as int),
    {
        let i = book as usize;
        if i < self.counts.len() {
            self.counts[i]
        } else {
            0
        }
    }

    /// Records one more copy of `book`. Books that the index does not know
    /// are left out.
    pub fn increment(&mut self, book: u32)
        requires
            count_of(old(self)@, book as int) < usize::MAX,
        ensures
            final(self)@.len() == old(self)@.len(),
            forall|id: int|
                count_of(final(self)@, id) == if id == book && id < old(self)@.len() {
                    count_of(old(self)@, id) + 1
                } else {
                    count_of(old(self)@, id)
                },
    {
        let i = book as usize;
        if i < self.counts.len() {
            let count = self.counts[i];
            self.counts.set(i, count + 1);
        }
    }

    /// Records that one copy of `book` is gone. A count of zero stays zero.
    pub fn decrement(&mut self, book: u32)
        ensures
            final(self)@.len() == old(self)@.len(),
            forall|id: int|
                count_of(final(self)@, id) == if id == book {
                    one_less(count_of(old(self)@, id))
                } else {
                    count_of(old(self)@, id)
                },
    {
        let i = book as usize;
        if i < self.counts.len() {
            let count = self.counts[i];
            if count > 0 {
                self.counts.set(i, count - 1);
            }
        }
    }

    /// Records that one copy of each of `books` is gone.
    pub fn discard(&mut self, books: &Vec<BookRef>)
        requires
            distinct_ids(books@),
        ensures
            final(self)@.len() == old(self)@.len(),
            forall|id: int|
                count_of(final(self)@, id) == if holds_id(books@, id) {
                    one_less(count_of(old(self)@, id))
                } else {
                    count_of(old(self)@, id)
                },
    {
        let mut i: usize = 0;
        while i < books.len()
            invariant
                i <= books.len(),
                distinct_ids(books@),
                self@.len() == old(self)@.len(),
                forall|id: int|
                    count_of(self@, id) == if holds_id(books@.take(i as int), id) {
                        one_less(count_of(old(self)@, id))
                    } else {
                        count_of(old(self)@, id)
                    },
            decreases books.len() - i,
        {
            let ghost before = self@;
            self.decrement(books[i].id());
            proof {
                let head = books@.take(i as int);
                let next = books@.take(i + 1);
                assert forall|id: int|
                    count_of(self@, id) == if holds_id(next, id) {
                        one_less(count_of(old(self)@, id))
                    } else {
                        count_of(old(self)@, id)
                    } by {
                    if holds_id(head, id) {
                        let k = choose|k: int| 0 <= k < head.len() && #[trigger] head[k].id == id;
                        assert(next[k].id == id);
                        assert(books@[k].id != books@[i as int].id);
                    } else if id == books@[i as int].id {
                        assert(next[i as int].id == id);
                    } else if holds_id(next, id) {
                        let k = choose|k: int| 0 <= k < next.len() && #[trigger] next[k].id == id;
                        assert(head[k].id == id);
                    }
                }
            }
            i += 1;
        }
        assert(books@.take(i as int) == books@);
    }
}

} // verus!
