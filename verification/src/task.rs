//! The task model: books, libraries and the task that holds them.

use crate::copies::{count_of, holders, lemma_holders_bound, lemma_holders_push, CopyCount};
use crate::order::{precedes, ranked, sort_books, Ranking};
use vstd::prelude::*;

verus! {

/// The largest score a book of a task can have.
pub const MAX_BOOK_SCORE: u64 = 0xffff_ffff;

/// The largest number of books, and of libraries, that a task can hold.
pub const MAX_ENTRIES: usize = 0xffff_ffff;

/// A book: an identifier and the score gained by scanning it.
///
/// Books are identified by `id`; the books of a task are numbered from zero
/// in the order of the task's book list.
#[derive(Clone, Copy, Debug, PartialEq, Eq, Structural)]
pub struct BookRef {
    pub id: u32,
    pub score: u64,
}

impl BookRef {
    /// The book with this identifier and score.
    pub fn new(id: u32, score: u64) -> (book: Self)
        ensures
            book == (BookRef { id, score }),
    {
        BookRef { id, score }
    }

    pub open spec fn spec_id(&self) -> u32 {
        self.id
    }

    /// The identifier of the book.
    #[verifier::when_used_as_spec(spec_id)]
    pub fn id(&self) -> (id: u32)
        ensures
            id == self.id,
    {
        self.id
    }

    pub open spec fn spec_score(&self) -> u64 {
        self.score
    }

    /// The score gained by scanning the book.
    #[verifier::when_used_as_spec(spec_score)]
    pub fn score(&self) -> (score: u64)
        ensures
            score == self.score,
    {
        self.score
    }
}

/// The identifiers of a list of books, in the same order.
pub open spec fn ids_of(books: Seq<BookRef>) -> Seq<u32> {
    books.map_values(|b: BookRef| b.id)
}

/// The identifiers strictly increase along the list.
pub open spec fn ascending_ids(books: Seq<BookRef>) -> bool {
    forall|i: int, j: int| 0 <= i < j < books.len() ==> books[i].id < books[j].id
}

/// Every book of `books` is a book of the catalog `all`, found at its identifier.
pub open spec fn books_of(books: Seq<BookRef>, all: Seq<BookRef>) -> bool {
    forall|i: int|
        0 <= i < books.len() ==> (#[trigger] books[i]).id < all.len() && all[books[i].id as int]
            == books[i]
}

/// No identifier occurs twice in the list.
pub open spec fn distinct_ids(books: Seq<BookRef>) -> bool {
    forall|i: int, j: int|
        0 <= i < books.len() && 0 <= j < books.len() && i != j ==> books[i].id != books[j].id
}

/// Some book of the list has the identifier `id`.
pub open spec fn holds_id(books: Seq<BookRef>, id: int) -> bool {
    exists|i: int| 0 <= i < books.len() && #[trigger] books[i].id == id
}

/// A list of ascending identifiers below `bound` has no more than `bound`
/// entries.
pub proof fn lemma_ascending_len(books: Seq<BookRef>, bound: nat)
    requires
        ascending_ids(books),
        forall|i: int| 0 <= i < books.len() ==> (#[trigger] books[i]).id < bound,
    ensures
        books.len() <= bound,
        forall|i: int| 0 <= i < books.len() ==> i <= (#[trigger] books[i]).id,
    decreases books.len(),
{
    if books.len() > 0 {
        let front = books.drop_last();
        assert forall|i: int, j: int| 0 <= i < j < front.len() implies front[i].id
            < front[j].id by {
            assert(front[i] == books[i] && front[j] == books[j]);
        }
        assert forall|i: int| 0 <= i < front.len() implies (#[trigger] front[i]).id < bound by {
            assert(front[i] == books[i]);
        }
        lemma_ascending_len(front, bound);
        assert forall|i: int| 0 <= i < books.len() implies i <= (#[trigger] books[i]).id by {
            if i < front.len() {
                assert(front[i] == books[i]);
            } else if i > 0 {
                assert(front[i - 1] == books[i - 1]);
                assert(books[i - 1].id < books[i].id);
            }
        }
        assert(books[books.len() - 1].id < bound);
    }
}

/// A library: the days it takes to sign up, the number of books it scans per
/// day once signed up, and the books it holds, in ascending order of their
/// identifiers and each at most once.
pub struct Library {
    pub id: u32,
    pub signup_days: u64,
    pub scan_rate: u64,
    pub books: Vec<BookRef>,
}

impl Library {
    /// The library's books are books of the catalog `all`, each listed once.
    pub open spec fn wf(&self, all: Seq<BookRef>) -> bool {
        &&& books_of(self.books@, all)
        &&& ascending_ids(self.books@)
    }

    /// Whether the library is well formed for the catalog `all`.
    pub fn is_well_formed(&self, all: &Vec<BookRef>) -> (ok: bool)
        ensures
            ok == self.wf(all@),
    {
        let mut i: usize = 0;
        while i < self.books.len()
            invariant
                i <= self.books.len(),
                books_of(self.books@.take(i as int), all@),
                ascending_ids(self.books@.take(i as int)),
            decreases self.books.len() - i,
        {
            let book = self.books[i];
            let at = book.id as usize;
            if at >= all.len() || all[at].id != book.id || all[at].score != book.score {
                assert(!books_of(self.books@, all@)) by {
                    assert(self.books@[i as int] == book);
                }
                return false;
            }
            if i > 0 && self.books[i - 1].id >= book.id {
                assert(!ascending_ids(self.books@));
                return false;
            }
            proof {
                let head = self.books@.take(i as int);
                let next = self.books@.take(i + 1);
                assert forall|k: int| 0 <= k < next.len() implies (#[trigger] next[k]).id < all@.len()
                    && all@[next[k].id as int] == next[k] by {
                    if k < i {
                        assert(next[k] == head[k]);
                    }
                }
                assert forall|a: int, b: int| 0 <= a < b < next.len() implies next[a].id
                    < next[b].id by {
                    if b < i {
                        assert(next[a] == head[a] && next[b] == head[b]);
                    } else if a < i - 1 {
                        assert(head[a].id < head[i - 1].id);
                    }
                }
            }
            i += 1;
        }
        assert(self.books@.take(i as int) == self.books@);
        true
    }

    /// The library with this identifier, these sign-up days, this rate and
    /// these books.
    pub fn new(id: u32, signup_days: u64, scan_rate: u64, books: Vec<BookRef>) -> (library: Self)
        ensures
            library.id == id,
            library.signup_days == signup_days,
            library.scan_rate == scan_rate,
            library.books == books,
    {
        Library { id, signup_days, scan_rate, books }
    }
}

/// The books of each library.
pub open spec fn catalogs(libraries: Seq<Library>) -> Seq<Seq<BookRef>> {
    libraries.map_values(|l: Library| l.books@)
}

/// The sum of the scores of the books.
pub open spec fn total_score(books: Seq<BookRef>) -> nat
    decreases books.len(),
{
    if books.len() == 0 {
        0
    } else {
        total_score(books.drop_last()) + books.last().score as nat
    }
}

/// The number of books that the libraries hold together, a book counted
/// once for each library that holds it.
pub open spec fn total_copies(libraries: Seq<Library>) -> nat
    decreases libraries.len(),
{
    if libraries.len() == 0 {
        0
    } else {
        total_copies(libraries.drop_last()) + libraries.last().books@.len()
    }
}

/// The lowest score of the list; zero for an empty list.
pub open spec fn lowest_score(books: Seq<BookRef>) -> nat
    decreases books.len(),
{
    if books.len() == 0 {
        0
    } else if books.len() == 1 {
        books[0].score as nat
    } else {
        let rest = lowest_score(books.drop_last());
        if books.last().score < rest {
            books.last().score as nat
        } else {
            rest
        }
    }
}

/// The highest score of the list; zero for an empty list.
pub open spec fn highest_score(books: Seq<BookRef>) -> nat
    decreases books.len(),
{
    if books.len() == 0 {
        0
    } else {
        let rest = highest_score(books.drop_last());
        if books.last().score > rest {
            books.last().score as nat
        } else {
            rest
        }
    }
}

/// All books of the list have the same score.
pub open spec fn same_scores(books: Seq<BookRef>) -> bool {
    forall|i: int, j: int|
        0 <= i < books.len() && 0 <= j < books.len() ==> books[i].score == books[j].score
}

/// Every score lies between the lowest and the highest, and both are
/// scores of the list.
pub proof fn lemma_score_range(books: Seq<BookRef>)
    ensures
        forall|i: int|
            0 <= i < books.len() ==> lowest_score(books) <= (#[trigger] books[i]).score
                <= highest_score(books),
        books.len() > 0 ==> exists|i: int|
            0 <= i < books.len() && (#[trigger] books[i]).score == lowest_score(books),
        books.len() > 0 ==> exists|i: int|
            0 <= i < books.len() && (#[trigger] books[i]).score == highest_score(books),
    decreases books.len(),
{
    if books.len() > 0 {
        let front = books.drop_last();
        let last = books.len() - 1;
        lemma_score_range(front);
        assert forall|i: int| 0 <= i < books.len() implies lowest_score(books) <= (
        #[trigger] books[i]).score <= highest_score(books) by {
            if i < last {
                assert(front[i] == books[i]);
            }
        }
        if front.len() > 0 {
            let lo = choose|i: int|
                0 <= i < front.len() && (#[trigger] front[i]).score == lowest_score(front);
            let hi = choose|i: int|
                0 <= i < front.len() && (#[trigger] front[i]).score == highest_score(front);
            assert(books[lo] == front[lo] && books[hi] == front[hi]);
            assert(books[last].score == lowest_score(books) || books[lo].score == lowest_score(
                books,
            ));
            assert(books[last].score == highest_score(books) || books[hi].score == highest_score(
                books,
            ));
        } else {
            assert(books[last].score == lowest_score(books));
            assert(books[last].score == highest_score(books));
        }
    }
}

/// The scores are all the same exactly when the lowest is the highest.
pub proof fn lemma_same_scores(books: Seq<BookRef>)
    ensures
        same_scores(books) <==> lowest_score(books) == highest_score(books),
{
    lemma_score_range(books);
    if books.len() > 0 && same_scores(books) {
        let lo = choose|i: int|
            0 <= i < books.len() && (#[trigger] books[i]).score == lowest_score(books);
        let hi = choose|i: int|
            0 <= i < books.len() && (#[trigger] books[i]).score == highest_score(books);
        assert(books[lo].score == books[hi].score);
    }
}

/// The scores of a list add up to no more than the highest score a book
/// can have, times their number.
pub proof fn lemma_total_score_bound(books: Seq<BookRef>)
    requires
        forall|i: int| 0 <= i < books.len() ==> (#[trigger] books[i]).score <= MAX_BOOK_SCORE,
    ensures
        total_score(books) <= books.len() * MAX_BOOK_SCORE,
    decreases books.len(),
{
    if books.len() > 0 {
        let front = books.drop_last();
        assert forall|i: int| 0 <= i < front.len() implies (#[trigger] front[i]).score
            <= MAX_BOOK_SCORE by {
            assert(front[i] == books[i]);
        }
        lemma_total_score_bound(front);
        assert(books.last() == books[books.len() - 1]);
    }
}

/// Why a library cannot be added to a task.
#[derive(Clone, Copy, Debug, PartialEq, Eq, Structural)]
pub enum TaskError {
    /// The library lists a book that the task does not have.
    InvalidBookId { book: u32, library: u32 },
}

/// `ids[at]` is the first identifier of the list that is not below `known`.
pub open spec fn first_unknown(ids: Seq<u32>, known: nat, at: int) -> bool {
    &&& 0 <= at < ids.len()
    &&& ids[at] >= known
    &&& forall|k: int| 0 <= k < at ==> ids[k] < known
}

/// `a` has the smaller identifier.
pub open spec fn precedes_by_id(a: BookRef, b: BookRef) -> bool {
    precedes(a, b, Seq::<usize>::empty(), Ranking::Identifier)
}

/// The books of a list ranked by identifier, each kept once.
fn without_repeats(books: &Vec<BookRef>) -> (out: Vec<BookRef>)
    requires
        ranked(books@, Seq::<usize>::empty(), Ranking::Identifier),
    ensures
        ascending_ids(out@),
        forall|i: int| 0 <= i < out.len() ==> books@.contains(#[trigger] out[i]),
        forall|i: int| 0 <= i < books.len() ==> holds_id(out@, (#[trigger] books[i]).id as int),
{
    let mut out: Vec<BookRef> = Vec::new();
    let mut i: usize = 0;
    while i < books.len()
        invariant
            i <= books.len(),
            ranked(books@, Seq::<usize>::empty(), Ranking::Identifier),
            ascending_ids(out@),
            forall|k: int| 0 <= k < out.len() ==> books@.contains(#[trigger] out[k]),
            forall|k: int| 0 <= k < i ==> holds_id(out@, (#[trigger] books[k]).id as int),
            forall|k: int| 0 <= k < out.len() && i < books.len() ==> (#[trigger] out[k]).id
                <= books[i as int].id,
            i > 0 ==> out.len() > 0 && out[out.len() - 1].id == books[i - 1].id,
        decreases books.len() - i,
    {
        let book = books[i];
        let ghost before = out@;
        let fresh = out.len() == 0 || out[out.len() - 1].id != book.id;
        if fresh {
            out.push(book);
        }
        proof {
            assert(books@[i as int] == book);
            assert forall|k: int| 0 <= k < i + 1 implies holds_id(
                out@,
                (#[trigger] books[k]).id as int,
            ) by {
                if k < i {
                    let w = choose|w: int| 0 <= w < before.len() && #[trigger] before[w].id == books[k].id;
                    assert(out@[w].id == books[k].id);
                } else {
                    assert(out@[out.len() - 1].id == book.id);
                }
            }
            assert forall|k: int| 0 <= k < out.len() && i + 1 < books.len() implies (#[trigger] out[k]).id
                <= books[i + 1].id by {
                assert(!precedes_by_id(books[i + 1], books[i as int]));
            }
        }
        i += 1;
    }
    out
}

/// The whole problem: the days available, the books and the libraries.
pub struct ScanningTask {
    pub days: u64,
    pub books: Vec<BookRef>,
    pub libraries: Vec<Library>,
}

impl ScanningTask {
    /// Books and libraries are numbered by their position, no score is
    /// above `MAX_BOOK_SCORE`, and every library holds books of the task.
    pub open spec fn wf(&self) -> bool {
        &&& self.books.len() <= MAX_ENTRIES
        &&& self.libraries.len() <= MAX_ENTRIES
        &&& forall|i: int|
            0 <= i < self.books.len() ==> (#[trigger] self.books[i]).id == i && self.books[i].score
                <= MAX_BOOK_SCORE
        &&& forall|j: int|
            0 <= j < self.libraries.len() ==> (#[trigger] self.libraries[j]).id == j
                && self.libraries[j].wf(self.books@)
    }

    /// Whether the task is well formed.
    pub fn is_well_formed(&self) -> (ok: bool)
        ensures
            ok == self.wf(),
    {
        if self.books.len() > MAX_ENTRIES || self.libraries.len() > MAX_ENTRIES {
            return false;
        }
        let mut i: usize = 0;
        while i < self.books.len()
            invariant
                i <= self.books.len() <= MAX_ENTRIES,
                forall|k: int|
                    0 <= k < i ==> (#[trigger] self.books[k]).id == k && self.books[k].score
                        <= MAX_BOOK_SCORE,
            decreases self.books.len() - i,
        {
            if self.books[i].id as usize != i || self.books[i].score > MAX_BOOK_SCORE {
                return false;
            }
            i += 1;
        }
        let mut j: usize = 0;
        while j < self.libraries.len()
            invariant
                j <= self.libraries.len() <= MAX_ENTRIES,
                forall|k: int|
                    0 <= k < j ==> (#[trigger] self.libraries[k]).id == k && self.libraries[k].wf(
                        self.books@,
                    ),
            decreases self.libraries.len() - j,
        {
            if self.libraries[j].id as usize != j || !self.libraries[j].is_well_formed(&self.books) {
                return false;
            }
            j += 1;
        }
        true
    }

    /// A task without libraries, whose books have the given scores and are
    /// numbered from zero. `num_libraries` says how many libraries are to
    /// come; the task takes them as they are added, however many.
    pub fn new(days: u64, num_libraries: usize, book_scores: Vec<u32>) -> (task: Self)
        requires
            book_scores.len() <= MAX_ENTRIES,
        ensures
            task.wf(),
            task.days == days,
            task.libraries.len() == 0,
            task.books.len() == book_scores.len(),
            forall|i: int|
                0 <= i < book_scores.len() ==> task.books[i] == (BookRef {
                    id: i as u32,
                    score: book_scores[i] as u64,
                }),
    {
        let mut books: Vec<BookRef> = Vec::new();
        let mut i: usize = 0;
        while i < book_scores.len()
            invariant
                i <= book_scores.len() <= MAX_ENTRIES,
                books.len() == i,
                forall|k: int|
                    0 <= k < i ==> books[k] == (BookRef {
                        id: k as u32,
                        score: book_scores[k] as u64,
                    }),
            decreases book_scores.len() - i,
        {
            books.push(BookRef::new(i as u32, book_scores[i] as u64));
            i += 1;
        }
        ScanningTask { days, books, libraries: Vec::new() }
    }

    /// The sum of the scores of all books: no plan can score more.
    pub fn total_book_score(&self) -> (total: u64)
        requires
            self.wf(),
        ensures
            total == total_score(self.books@),
    {
        let mut total: u64 = 0;
        let mut i: usize = 0;
        while i < self.books.len()
            invariant
                self.wf(),
                i <= self.books.len(),
                total == total_score(self.books@.take(i as int)),
            decreases self.books.len() - i,
        {
            proof {
                let next = self.books@.take(i + 1);
                assert(next.drop_last() == self.books@.take(i as int));
                assert(next.last() == self.books[i as int]);
                assert forall|k: int| 0 <= k < next.len() implies (#[trigger] next[k]).score
                    <= MAX_BOOK_SCORE by {
                    assert(next[k] == self.books[k]);
                }
                lemma_total_score_bound(next);
                assert(next.len() * MAX_BOOK_SCORE <= u64::MAX) by (nonlinear_arith)
                    requires
                        0 <= next.len() <= 0xffff_ffff,
                        MAX_BOOK_SCORE == 0xffff_ffff,
                ;
            }
            total += self.books[i].score;
            i += 1;
        }
        assert(self.books@.take(i as int) == self.books@);
        total
    }

    /// The number of books that the libraries hold together, a book
    /// counted once for each library that holds it.
    pub fn total_book_copies(&self) -> (total: u64)
        requires
            self.wf(),
        ensures
            total == total_copies(self.libraries@),
    {
        let mut total: u64 = 0;
        let mut j: usize = 0;
        while j < self.libraries.len()
            invariant
                self.wf(),
                j <= self.libraries.len(),
                total == total_copies(self.libraries@.take(j as int)),
                total <= j * MAX_ENTRIES,
            decreases self.libraries.len() - j,
        {
            proof {
                let next = self.libraries@.take(j + 1);
                assert(next.drop_last() == self.libraries@.take(j as int));
                assert(next.last() == self.libraries[j as int]);
                assert(self.libraries[j as int].wf(self.books@));
                lemma_ascending_len(self.libraries[j as int].books@, self.books@.len());
                assert((j + 1) * MAX_ENTRIES <= u64::MAX) by (nonlinear_arith)
                    requires
                        0 <= j < 0xffff_ffff,
                        MAX_ENTRIES == 0xffff_ffff,
                ;
                assert((j + 1) * MAX_ENTRIES == j * MAX_ENTRIES + MAX_ENTRIES) by (nonlinear_arith);
            }
            total += self.libraries[j].books.len() as u64;
            j += 1;
        }
        assert(self.libraries@.take(j as int) == self.libraries@);
        total
    }

    /// The lowest score of a book; zero if there is no book.
    pub fn min_book_score(&self) -> (score: u64)
        ensures
            score == lowest_score(self.books@),
    {
        if self.books.len() == 0 {
            return 0;
        }
        let mut score = self.books[0].score;
        assert(self.books@.take(1).drop_last() == self.books@.take(0));
        let mut i: usize = 1;
        while i < self.books.len()
            invariant
                1 <= i <= self.books.len(),
                score == lowest_score(self.books@.take(i as int)),
            decreases self.books.len() - i,
        {
            proof {
                let next = self.books@.take(i + 1);
                assert(next.drop_last() == self.books@.take(i as int));
                assert(next.last() == self.books[i as int]);
            }
            if self.books[i].score < score {
                score = self.books[i].score;
            }
            i += 1;
        }
        assert(self.books@.take(i as int) == self.books@);
        score
    }

    /// The highest score of a book; zero if there is no book.
    pub fn max_book_score(&self) -> (score: u64)
        ensures
            score == highest_score(self.books@),
    {
        let mut score: u64 = 0;
        let mut i: usize = 0;
        while i < self.books.len()
            invariant
                i <= self.books.len(),
                score == highest_score(self.books@.take(i as int)),
            decreases self.books.len() - i,
        {
            proof {
                let next = self.books@.take(i + 1);
                assert(next.drop_last() == self.books@.take(i as int));
                assert(next.last() == self.books[i as int]);
            }
            if self.books[i].score > score {
                score = self.books[i].score;
            }
            i += 1;
        }
        assert(self.books@.take(i as int) == self.books@);
        score
    }

    /// For each book, the number of libraries that hold it.
    pub fn count_book_copies(&self) -> (copy_count: CopyCount)
        requires
            self.wf(),
        ensures
            copy_count@.len() == self.books.len(),
            forall|id: int|
                count_of(copy_count@, id) == holders(catalogs(self.libraries@), id),
    {
        let mut copy_count = CopyCount::new(self.books.len());
        let ghost shelves = catalogs(self.libraries@);
        let mut j: usize = 0;
        while j < self.libraries.len()
            invariant
                self.wf(),
                shelves == catalogs(self.libraries@),
                j <= self.libraries.len(),
                copy_count@.len() == self.books.len(),
                forall|id: int| count_of(copy_count@, id) == holders(shelves.take(j as int), id),
            decreases self.libraries.len() - j,
        {
            let library = &self.libraries[j];
            let ghost before = copy_count@;
            let mut k: usize = 0;
            while k < library.books.len()
                invariant
                    self.wf(),
                    shelves == catalogs(self.libraries@),
                    j < self.libraries.len(),
                    library == self.libraries[j as int],
                    k <= library.books.len(),
                    copy_count@.len() == self.books.len(),
                    forall|id: int| count_of(before, id) == holders(shelves.take(j as int), id),
                    forall|id: int|
                        count_of(copy_count@, id) == count_of(before, id) + if holds_id(
                            library.books@.take(k as int),
                            id,
                        ) {
                            1nat
                        } else {
                            0nat
                        },
                decreases library.books.len() - k,
            {
                let book = library.books[k].id;
                let ghost head = library.books@.take(k as int);
                let ghost next = library.books@.take(k + 1);
                proof {
                    assert(library.wf(self.books@));
                    assert(library.books[k as int].id == book);
                    if holds_id(head, book as int) {
                        let w = choose|w: int| 0 <= w < head.len() && #[trigger] head[w].id == book;
                        assert(library.books[w].id < library.books[k as int].id);
                    }
                    lemma_holders_bound(shelves.take(j as int), book as int);
                }
                copy_count.increment(book);
                proof {
                    assert forall|id: int|
                        count_of(copy_count@, id) == count_of(before, id) + if holds_id(next, id) {
                            1nat
                        } else {
                            0nat
                        } by {
                        if id == book {
                            assert(next[k as int].id == id);
                        } else {
                            if holds_id(head, id) {
                                let w = choose|w: int| 0 <= w < head.len() && #[trigger] head[w].id == id;
                                assert(next[w].id == id);
                            }
                            if holds_id(next, id) {
                                let w = choose|w: int| 0 <= w < next.len() && #[trigger] next[w].id == id;
                                assert(head[w].id == id);
                            }
                        }
                    }
                }
                k += 1;
            }
            proof {
                assert(library.books@.take(k as int) == library.books@);
                assert(shelves.take(j + 1) == shelves.take(j as int).push(library.books@));
                assert forall|id: int|
                    count_of(copy_count@, id) == holders(shelves.take(j + 1), id) by {
                    lemma_holders_push(shelves.take(j as int), library.books@, id);
                }
            }
            j += 1;
        }
        assert(shelves.take(j as int) == shelves);
        copy_count
    }

    /// Adds a library that holds the books with the given identifiers and
    /// numbers it after the libraries already there. A book listed twice is
    /// held once. Fails, and changes nothing, when an identifier is not that
    /// of a book of the task; the error names the first such identifier.
    pub fn add_library(&mut self, signup_days: u64, scan_rate: u64, book_ids: Vec<u32>) -> (r: Result<
        (),
        TaskError,
    >)
        requires
            old(self).wf(),
            old(self).libraries.len() < MAX_ENTRIES,
        ensures
            final(self).days == old(self).days,
            final(self).books == old(self).books,
            match r {
                Ok(_) => {
                    let library = final(self).libraries@.last();
                    &&& forall|k: int| 0 <= k < book_ids.len() ==> book_ids[k] < old(self).books.len()
                    &&& final(self).wf()
                    &&& final(self).libraries@.len() == old(self).libraries@.len() + 1
                    &&& final(self).libraries@.drop_last() == old(self).libraries@
                    &&& library.id == old(self).libraries@.len()
                    &&& library.signup_days == signup_days
                    &&& library.scan_rate == scan_rate
                    &&& forall|id: int|
                        holds_id(library.books@, id) <==> exists|k: int|
                            0 <= k < book_ids.len() && #[trigger] book_ids[k] == id
                },
                Err(e) => {
                    &&& final(self).libraries == old(self).libraries
                    &&& exists|at: int|
                        first_unknown(book_ids@, old(self).books@.len(), at) && e == (
                        TaskError::InvalidBookId {
                            book: #[trigger] book_ids[at],
                            library: old(self).libraries@.len() as u32,
                        })
                },
            },
    {
        let id = self.libraries.len() as u32;
        let mut listed: Vec<BookRef> = Vec::new();
        let mut i: usize = 0;
        while i < book_ids.len()
            invariant
                i <= book_ids.len(),
                listed.len() == i,
                *self == *old(self),
                id == old(self).libraries@.len(),
                forall|k: int| 0 <= k < i ==> book_ids[k] < self.books.len(),
                forall|k: int|
                    0 <= k < i ==> #[trigger] listed[k] == self.books[book_ids[k] as int],
            decreases book_ids.len() - i,
        {
            let book_id = book_ids[i];
            if book_id as usize >= self.books.len() {
                let e = TaskError::InvalidBookId { book: book_id, library: id };
                assert(first_unknown(book_ids@, self.books@.len(), i as int) && e == (
                TaskError::InvalidBookId {
                    book: book_ids[i as int],
                    library: old(self).libraries@.len() as u32,
                }));
                return Err(e);
            }
            listed.push(self.books[book_id as usize]);
            i += 1;
        }
        let ghost unsorted = listed@;
        let no_counts = CopyCount::new(0);
        sort_books(&mut listed, &no_counts, Ranking::Identifier);
        assert(no_counts@ == Seq::<usize>::empty());
        let books = without_repeats(&listed);
        proof {
            broadcast use vstd::seq_lib::group_to_multiset_ensures;

            assert forall|k: int| 0 <= k < books.len() implies (#[trigger] books[k]).id
                < self.books.len() && self.books[books[k].id as int] == books[k] && exists|w: int|
                0 <= w < book_ids.len() && #[trigger] book_ids[w] == books[k].id by {
                assert(listed@.contains(books[k]));
                assert(unsorted.to_multiset().count(books[k]) > 0);
                assert(unsorted.contains(books[k]));
                let w = choose|w: int| 0 <= w < unsorted.len() && unsorted[w] == books[k];
                assert(listed@.len() == listed@.to_multiset().len());
                assert(book_ids[w] == books[k].id);
            }
            assert forall|w: int| 0 <= w < book_ids.len() implies holds_id(
                books@,
                #[trigger] book_ids[w] as int,
            ) by {
                assert(unsorted.contains(unsorted[w]));
                assert(listed@.to_multiset().count(unsorted[w]) > 0);
                assert(listed@.contains(unsorted[w]));
                let v = choose|v: int| 0 <= v < listed@.len() && listed@[v] == unsorted[w];
                assert(holds_id(books@, listed@[v].id as int));
            }
        }
        let ghost before = self.libraries@;
        self.libraries.push(Library::new(id, signup_days, scan_rate, books));
        proof {
            assert(self.libraries@.drop_last() == before);
            assert forall|j: int| 0 <= j < self.libraries.len() implies (
            #[trigger] self.libraries[j]).id == j && self.libraries[j].wf(self.books@) by {
                if j < before.len() {
                    assert(self.libraries[j] == before[j]);
                }
            }
        }
        Ok(())
    }
}

} // verus!
