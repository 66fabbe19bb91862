//! A library that waits to sign up: the books it could still scan, the
//! books it would scan if it signed up now, and its priority.

use crate::capacity::{capacity, idle_days, scan_capacity, unused_days};
use crate::copies::{count_of, one_less, CopyCount};
use crate::order::{lemma_ranked_unique, precedes, ranked, sort_books, Ranking};
use crate::task::{ascending_ids, distinct_ids, holds_id, ids_of, BookRef, Library};
use vstd::prelude::*;

verus! {

/// One book of a prospect: its score and the number of copies left of it.
#[derive(Clone, Copy, Debug, PartialEq, Eq, Structural)]
pub struct Pick {
    pub score: u64,
    pub copies: usize,
}

/// What a library offers if it signs up next: all that its priority is
/// computed from.
#[derive(Debug)]
pub struct Prospect {
    /// The run of the planner, counted from zero.
    pub trial: usize,
    /// The sign-up that is being decided in this run, counted from zero.
    pub round: usize,
    /// The library's identifier.
    pub library: u32,
    /// The days left before the deadline.
    pub days_left: u64,
    /// The days the library takes to sign up.
    pub signup_days: u64,
    /// The books the library scans per day.
    pub scan_rate: u64,
    /// Whether all books of the task have the same score.
    pub identical_scores: bool,
    /// The books the library would scan, in the order of its preference.
    pub picks: Vec<Pick>,
    /// The days the library would stand idle after scanning them.
    pub idle_days: u64,
}

/// What a prospect holds, its picks as a sequence.
pub struct ProspectView {
    pub trial: usize,
    pub round: usize,
    pub library: u32,
    pub days_left: u64,
    pub signup_days: u64,
    pub scan_rate: u64,
    pub identical_scores: bool,
    pub picks: Seq<Pick>,
    pub idle_days: u64,
}

impl View for Prospect {
    type V = ProspectView;

    open spec fn view(&self) -> ProspectView {
        ProspectView {
            trial: self.trial,
            round: self.round,
            library: self.library,
            days_left: self.days_left,
            signup_days: self.signup_days,
            scan_rate: self.scan_rate,
            identical_scores: self.identical_scores,
            picks: self.picks@,
            idle_days: self.idle_days,
        }
    }
}

/// The ranking by which a library prefers its books.
pub open spec fn ranking_for(identical_scores: bool) -> Ranking {
    if identical_scores {
        Ranking::Scarcity
    } else {
        Ranking::Value
    }
}

/// The number of books that a library can still scan when `days` days are
/// left and it signs up now; none if the sign-up takes all of them.
pub open spec fn max_scans_of(library: &Library, days: nat) -> nat {
    if days > library.signup_days {
        scan_capacity((days - library.signup_days) as nat, library.scan_rate as nat)
    } else {
        0
    }
}

/// The books, out of `books` in this order, that the library scans if it
/// signs up when `days` days are left: as many from the front as it can.
pub open spec fn selection_of(library: &Library, books: Seq<BookRef>, days: nat) -> Seq<BookRef> {
    if max_scans_of(library, days) < books.len() {
        books.take(max_scans_of(library, days) as int)
    } else {
        books
    }
}

/// A selection that adds nothing to the score: it is empty, or the scores
/// differ between books and every selected book has score zero.
pub open spec fn worthless(selection: Seq<BookRef>, identical_scores: bool) -> bool {
    selection.len() == 0 || (!identical_scores && forall|i: int|
        0 <= i < selection.len() ==> (#[trigger] selection[i]).score == 0)
}

/// The score and the copy count of each selected book.
pub open spec fn picks_of(selection: Seq<BookRef>, counts: Seq<usize>) -> Seq<Pick> {
    selection.map_values(
        |b: BookRef| Pick { score: b.score, copies: count_of(counts, b.id as int) as usize },
    )
}

/// What a library with the remaining books `books`, in this order, offers
/// if it signs up when `days_left` days are left.
pub open spec fn prospect_of(
    library: &Library,
    books: Seq<BookRef>,
    days_left: u64,
    counts: Seq<usize>,
    identical_scores: bool,
    trial: usize,
    round: usize,
) -> ProspectView {
    let selection = selection_of(library, books, days_left as nat);
    ProspectView {
        trial,
        round,
        library: library.id,
        days_left,
        signup_days: library.signup_days,
        scan_rate: library.scan_rate,
        identical_scores,
        picks: picks_of(selection, counts),
        idle_days: idle_days(
            (days_left - library.signup_days) as nat,
            library.scan_rate as nat,
            selection.len(),
        ) as u64,
    }
}

/// The books in the order of the ranking.
pub open spec fn preferred(books: Seq<BookRef>, counts: Seq<usize>, ranking: Ranking) -> Seq<
    BookRef,
> {
    choose|ordered: Seq<BookRef>|
        ranked(ordered, counts, ranking) && ordered.to_multiset() == books.to_multiset()
}

/// The scorer gives the same priority whenever it is shown the same
/// prospect.
pub open spec fn decided<F: Fn(&Prospect) -> u64>(scorer: &F) -> bool {
    forall|p: Prospect, q: Prospect, s: u64, t: u64|
        p@ == q@ && #[trigger] scorer.ensures((&p,), s) && #[trigger] scorer.ensures((&q,), t)
            ==> s == t
}

/// The scorer may answer `score` when it is shown the prospect.
pub open spec fn gives<F: Fn(&Prospect) -> u64>(
    scorer: &F,
    prospect: ProspectView,
    score: u64,
) -> bool {
    exists|p: Prospect| p@ == prospect && #[trigger] scorer.ensures((&p,), score)
}

/// The priority that the scorer gives to a prospect.
pub open spec fn score_by<F: Fn(&Prospect) -> u64>(scorer: &F, prospect: ProspectView) -> u64 {
    choose|score: u64| #[trigger] gives(scorer, prospect, score)
}

/// What a decided scorer answers is the priority that it gives.
pub proof fn lemma_score_by<F: Fn(&Prospect) -> u64>(scorer: &F, p: Prospect, score: u64)
    requires
        decided(scorer),
        scorer.ensures((&p,), score),
    ensures
        score_by(scorer, p@) == score,
{
    assert(gives(scorer, p@, score));
    let found = score_by(scorer, p@);
    let q = choose|q: Prospect| q@ == p@ && #[trigger] scorer.ensures((&q,), found);
    assert(scorer.ensures((&q,), found));
}

/// A pending library as the planner sees it: the identifier of the
/// library, its remaining books, and its priority.
pub struct Shelf {
    pub library: u32,
    pub books: Seq<BookRef>,
    pub score: u64,
}

/// Bringing a pending library up to date may make `after` of `before`: if
/// the library can sign up in the days left, its books are in the order
/// of its preference and its priority is one that the scorer may give to
/// its prospect, or zero if the books it would scan are worthless; else
/// it is as before, with priority zero.
pub open spec fn shelf_may_become<F: Fn(&Prospect) -> u64>(
    before: Shelf,
    after: Shelf,
    library: &Library,
    days_left: u64,
    counts: Seq<usize>,
    identical_scores: bool,
    trial: usize,
    round: usize,
    scorer: &F,
) -> bool {
    &&& after.library == before.library
    &&& if library.signup_days >= days_left {
        after.books == before.books && after.score == 0
    } else {
        &&& after.books == preferred(before.books, counts, ranking_for(identical_scores))
        &&& if worthless(selection_of(library, after.books, days_left as nat), identical_scores) {
            after.score == 0
        } else {
            gives(
                scorer,
                prospect_of(
                    library,
                    after.books,
                    days_left,
                    counts,
                    identical_scores,
                    trial,
                    round,
                ),
                after.score,
            )
        }
    }
}

/// With a decided scorer, a pending library can become one thing only.
pub proof fn lemma_decided_becomes<F: Fn(&Prospect) -> u64>(
    before: Shelf,
    after: Shelf,
    library: &Library,
    days_left: u64,
    counts: Seq<usize>,
    identical_scores: bool,
    trial: usize,
    round: usize,
    scorer: &F,
)
    requires
        decided(scorer),
        shelf_may_become(
            before,
            after,
            library,
            days_left,
            counts,
            identical_scores,
            trial,
            round,
            scorer,
        ),
    ensures
        after == shelf_updated(
            before,
            library,
            days_left,
            counts,
            identical_scores,
            trial,
            round,
            scorer,
        ),
{
    if library.signup_days < days_left && !worthless(
        selection_of(library, after.books, days_left as nat),
        identical_scores,
    ) {
        let prospect = prospect_of(
            library,
            after.books,
            days_left,
            counts,
            identical_scores,
            trial,
            round,
        );
        let p = choose|p: Prospect| p@ == prospect && #[trigger] scorer.ensures((&p,), after.score);
        lemma_score_by(scorer, p, after.score);
    }
}

/// What bringing a pending library up to date makes of it: if the library
/// can sign up in the days left, its books are in the order of its
/// preference and its priority is that of its prospect, or zero if the
/// books it would scan are worthless; else it is as before, with priority
/// zero.
pub open spec fn shelf_updated<F: Fn(&Prospect) -> u64>(
    shelf: Shelf,
    library: &Library,
    days_left: u64,
    counts: Seq<usize>,
    identical_scores: bool,
    trial: usize,
    round: usize,
    scorer: &F,
) -> Shelf {
    if library.signup_days >= days_left {
        Shelf { library: shelf.library, books: shelf.books, score: 0 }
    } else {
        let books = preferred(shelf.books, counts, ranking_for(identical_scores));
        Shelf {
            library: shelf.library,
            books,
            score: if worthless(selection_of(library, books, days_left as nat), identical_scores) {
                0
            } else {
                score_by(
                    scorer,
                    prospect_of(library, books, days_left, counts, identical_scores, trial, round),
                )
            },
        }
    }
}

/// The sum of the scores of the picks.
pub open spec fn picks_total(picks: Seq<Pick>) -> nat
    decreases picks.len(),
{
    if picks.len() == 0 {
        0
    } else {
        picks_total(picks.drop_last()) + picks.last().score as nat
    }
}

/// The scorer gives a priority above zero to every prospect that holds a
/// book with a score above zero.
pub open spec fn eager<F: Fn(&Prospect) -> u64>(scorer: &F) -> bool {
    forall|p: Prospect, score: u64|
        picks_total(p.picks@) > 0 && #[trigger] scorer.ensures((&p,), score) ==> score > 0
}

/// Picks that add up to nothing are picks of books that score nothing.
pub proof fn lemma_picks_total_zero(selection: Seq<BookRef>, counts: Seq<usize>)
    requires
        picks_total(picks_of(selection, counts)) == 0,
    ensures
        forall|i: int| 0 <= i < selection.len() ==> (#[trigger] selection[i]).score == 0,
    decreases selection.len(),
{
    if selection.len() > 0 {
        let picks = picks_of(selection, counts);
        assert(picks.drop_last() == picks_of(selection.drop_last(), counts));
        assert(picks.last().score == selection.last().score);
        lemma_picks_total_zero(selection.drop_last(), counts);
        assert forall|i: int| 0 <= i < selection.len() implies (#[trigger] selection[i]).score
            == 0 by {
            if i < selection.len() - 1 {
                assert(selection.drop_last()[i] == selection[i]);
            }
        }
    }
}

/// The marks hold the book `id`.
pub open spec fn marked(marks: Seq<bool>, id: int) -> bool {
    0 <= id < marks.len() && marks[id]
}

/// Filtering keeps exactly the elements that pass, and repeats none that
/// was not repeated before.
pub proof fn lemma_filter_keeps(books: Seq<BookRef>, keep: spec_fn(BookRef) -> bool)
    ensures
        forall|b: BookRef| books.filter(keep).contains(b) <==> books.contains(b) && keep(b),
        books.no_duplicates() ==> books.filter(keep).no_duplicates(),
    decreases books.len(),
{
    if books.len() == 0 {
        assert(books.filter(keep) == Seq::<BookRef>::empty()) by {
            reveal(Seq::filter);
        }
    } else {
        let front = books.drop_last();
        let last = books.last();
        lemma_filter_keeps(front, keep);
        assert(books == front.push(last));
        front.lemma_filter_push(last, keep);
        let kept = front.filter(keep);
        assert forall|b: BookRef| books.filter(keep).contains(b) <==> books.contains(b) && keep(
            b,
        ) by {
            if books.filter(keep).contains(b) {
                let i = choose|i: int|
                    0 <= i < books.filter(keep).len() && books.filter(keep)[i] == b;
                if i < kept.len() {
                    assert(kept[i] == b);
                    assert(kept.contains(b));
                    assert(front.contains(b));
                    let w = choose|w: int| 0 <= w < front.len() && front[w] == b;
                    assert(books[w] == b);
                } else {
                    assert(b == last);
                    assert(books[books.len() - 1] == b);
                }
            }
            if books.contains(b) && keep(b) {
                let w = choose|w: int| 0 <= w < books.len() && books[w] == b;
                if w < front.len() {
                    assert(front[w] == b);
                    assert(front.contains(b));
                    assert(kept.contains(b));
                    let i = choose|i: int| 0 <= i < kept.len() && kept[i] == b;
                    assert(books.filter(keep)[i] == b);
                } else {
                    assert(books.filter(keep)[kept.len() as int] == b);
                }
            }
        }
        if books.no_duplicates() {
            assert(front.no_duplicates());
            if keep(last) {
                assert forall|i: int, j: int|
                    0 <= i < kept.len() + 1 && 0 <= j < kept.len() + 1 && i != j implies kept.push(
                    last,
                )[i] != kept.push(last)[j] by {
                    if i < kept.len() && j < kept.len() {
                    } else {
                        let other = if i < kept.len() {
                            i
                        } else {
                            j
                        };
                        assert(kept.contains(kept[other]));
                        assert(front.contains(kept[other]));
                        let w = choose|w: int| 0 <= w < front.len() && front[w] == kept[other];
                        assert(books[w] != books[books.len() - 1]);
                    }
                }
            }
        }
    }
}

/// A library that has not signed up yet.
pub struct PendingLibrary<'a> {
    pub library: &'a Library,
    /// The books of the library that no library has scanned so far.
    pub books: Vec<BookRef>,
    /// The priority of signing this library up next; zero if that would
    /// gain nothing.
    pub score: u64,
}

impl<'a> View for PendingLibrary<'a> {
    type V = Shelf;

    open spec fn view(&self) -> Shelf {
        Shelf { library: self.library.id, books: self.books@, score: self.score }
    }
}

impl<'a> PendingLibrary<'a> {
    /// The remaining books are books of the library, each listed once.
    pub open spec fn wf(&self) -> bool {
        &&& ascending_ids(self.library.books@)
        &&& self.books@.no_duplicates()
        &&& forall|i: int|
            0 <= i < self.books.len() ==> self.library.books@.contains(#[trigger] self.books[i])
    }

    /// What `update` makes of a pending library: `after` has the books of
    /// `before` in the order of the library's preference and the priority
    /// that `scorer` gives to its prospect; priority zero, where the
    /// library has none.
    pub open spec fn updated<F: Fn(&Prospect) -> u64>(
        before: Self,
        after: Self,
        days_left: u64,
        counts: Seq<usize>,
        identical_scores: bool,
        trial: usize,
        round: usize,
        scorer: &F,
    ) -> bool {
        &&& after.library == before.library
        &&& before.library.signup_days >= days_left ==> after.score == 0 && after.books
            == before.books
        &&& before.library.signup_days < days_left ==> {
            &&& ranked(after.books@, counts, ranking_for(identical_scores))
            &&& after.books@.to_multiset() == before.books@.to_multiset()
            &&& if worthless(after.selection(days_left as nat), identical_scores) {
                after.score == 0
            } else {
                exists|p: Prospect|
                    #![trigger scorer.ensures((&p,), after.score)]
                    after.offers(p, days_left, counts, identical_scores, trial, round)
                        && scorer.ensures((&p,), after.score)
            }
        }
    }

    /// What `update` makes of a pending library is what the library may
    /// become.
    pub proof fn lemma_may_become<F: Fn(&Prospect) -> u64>(
        before: Self,
        after: Self,
        days_left: u64,
        counts: Seq<usize>,
        identical_scores: bool,
        trial: usize,
        round: usize,
        scorer: &F,
    )
        requires
            before.wf(),
            Self::updated(
                before,
                after,
                days_left,
                counts,
                identical_scores,
                trial,
                round,
                scorer,
            ),
        ensures
            shelf_may_become(
                before@,
                after@,
                before.library,
                days_left,
                counts,
                identical_scores,
                trial,
                round,
                scorer,
            ),
    {
        if before.library.signup_days < days_left {
            let ranking = ranking_for(identical_scores);
            let books = preferred(before.books@, counts, ranking);
            Self::lemma_reordered(before, after);
            after.lemma_distinct_ids();
            assert(ranked(after.books@, counts, ranking) && after.books@.to_multiset()
                == before.books@.to_multiset());
            lemma_ranked_unique(after.books@, books, counts, ranking);
            if !worthless(after.selection(days_left as nat), identical_scores) {
                let p = choose|p: Prospect|
                    #![trigger scorer.ensures((&p,), after.score)]
                    after.offers(p, days_left, counts, identical_scores, trial, round)
                        && scorer.ensures((&p,), after.score);
                assert(gives(scorer, p@, after.score));
            }
        }
    }

    /// A well-formed pending library lists no identifier twice.
    pub proof fn lemma_distinct_ids(&self)
        requires
            self.wf(),
        ensures
            distinct_ids(self.books@),
    {
        let catalog = self.library.books@;
        assert forall|i: int, j: int|
            0 <= i < self.books.len() && 0 <= j < self.books.len() && i != j implies self.books[i].id
            != self.books[j].id by {
            assert(catalog.contains(self.books[i]));
            assert(catalog.contains(self.books[j]));
            let p = choose|p: int| 0 <= p < catalog.len() && catalog[p] == self.books[i];
            let q = choose|q: int| 0 <= q < catalog.len() && catalog[q] == self.books[j];
            if self.books[i].id == self.books[j].id {
                assert(!(p < q) && !(q < p));
                assert(self.books@[i] == self.books@[j]);
            }
        }
    }

    /// Books in another order are the same books.
    pub proof fn lemma_reordered(before: Self, after: Self)
        requires
            before.wf(),
            after.library == before.library,
            after.books@.to_multiset() == before.books@.to_multiset(),
        ensures
            after.wf(),
            after.books@.len() == before.books@.len(),
            forall|b: BookRef| after.books@.contains(b) <==> before.books@.contains(b),
            forall|id: int| holds_id(after.books@, id) <==> holds_id(before.books@, id),
    {
        broadcast use vstd::seq_lib::group_to_multiset_ensures;

        let a = after.books@;
        let b = before.books@;
        assert(a.len() == a.to_multiset().len());
        assert(b.len() == b.to_multiset().len());
        assert forall|x: BookRef| a.contains(x) <==> b.contains(x) by {
            assert(a.contains(x) <==> a.to_multiset().count(x) > 0);
            assert(b.contains(x) <==> b.to_multiset().count(x) > 0);
        }
        b.lemma_multiset_has_no_duplicates();
        a.lemma_multiset_has_no_duplicates_conv();
        assert forall|i: int| 0 <= i < a.len() implies after.library.books@.contains(
            #[trigger] a[i],
        ) by {
            assert(a.contains(a[i]));
            let w = choose|w: int| 0 <= w < b.len() && b[w] == a[i];
            assert(before.library.books@.contains(before.books[w]));
        }
        assert forall|id: int| holds_id(a, id) <==> holds_id(b, id) by {
            if holds_id(a, id) {
                let i = choose|i: int| 0 <= i < a.len() && #[trigger] a[i].id == id;
                assert(a.contains(a[i]));
                let w = choose|w: int| 0 <= w < b.len() && b[w] == a[i];
                assert(b[w].id == id);
            }
            if holds_id(b, id) {
                let i = choose|i: int| 0 <= i < b.len() && #[trigger] b[i].id == id;
                assert(b.contains(b[i]));
                let w = choose|w: int| 0 <= w < a.len() && a[w] == b[i];
                assert(a[w].id == id);
            }
        }
    }

    /// Some of the books, in their order, are still books of the library,
    /// each listed once.
    pub proof fn lemma_filtered(before: Self, after: Self, keep: spec_fn(BookRef) -> bool)
        requires
            before.wf(),
            after.library == before.library,
            after.books@ == before.books@.filter(keep),
        ensures
            after.wf(),
            forall|b: BookRef| after.books@.contains(b) <==> before.books@.contains(b) && keep(b),
    {
        lemma_filter_keeps(before.books@, keep);
        let a = after.books@;
        let b = before.books@;
        assert forall|i: int| 0 <= i < after.books.len() implies after.library.books@.contains(
            #[trigger] after.books[i],
        ) by {
            assert(a[i] == after.books[i]);
            assert(a.contains(a[i]));
            assert(b.contains(a[i]));
            let w = choose|w: int| 0 <= w < b.len() && b[w] == a[i];
            assert(before.library.books@.contains(before.books[w]));
        }
    }

    /// The books that the library would scan if it signed up when `days`
    /// days are left.
    pub open spec fn selection(&self, days: nat) -> Seq<BookRef> {
        selection_of(self.library, self.books@, days)
    }

    /// `p` is the prospect of this library in the given situation.
    pub open spec fn offers(
        &self,
        p: Prospect,
        days_left: u64,
        counts: Seq<usize>,
        identical_scores: bool,
        trial: usize,
        round: usize,
    ) -> bool {
        p@ == prospect_of(
            self.library,
            self.books@,
            days_left,
            counts,
            identical_scores,
            trial,
            round,
        )
    }

    /// A pending library with all the books of `library` and priority zero.
    pub fn new(library: &'a Library) -> (pending: Self)
        ensures
            pending.library == library,
            pending.books@ == library.books@,
            pending.score == 0,
    {
        let mut books: Vec<BookRef> = Vec::new();
        let mut i: usize = 0;
        while i < library.books.len()
            invariant
                i <= library.books.len(),
                books@ == library.books@.take(i as int),
            decreases library.books.len() - i,
        {
            books.push(library.books[i]);
            i += 1;
        }
        assert(library.books@.take(i as int) == library.books@);
        PendingLibrary { library, books, score: 0 }
    }

    /// The number of books that the library can still scan when `days` days
    /// are left and it signs up now.
    pub fn max_scans(&self, days: u64) -> (scans: u128)
        ensures
            scans == max_scans_of(self.library, days as nat),
    {
        if days > self.library.signup_days {
            capacity(days - self.library.signup_days, self.library.scan_rate)
        } else {
            0
        }
    }

    /// The number of books that the library would scan if it signed up
    /// when `days` days are left.
    pub fn selection_len(&self, days: u64) -> (len: usize)
        ensures
            len == self.selection(days as nat).len(),
            len <= self.books.len(),
    {
        let scans = self.max_scans(days);
        if scans < self.books.len() as u128 {
            scans as usize
        } else {
            self.books.len()
        }
    }

    /// Takes one copy of each remaining book out of the copy counts: the
    /// library leaves without scanning them.
    pub fn discard_books(&self, copy_count: &mut CopyCount)
        requires
            distinct_ids(self.books@),
        ensures
            final(copy_count)@.len() == old(copy_count)@.len(),
            forall|id: int|
                count_of(final(copy_count)@, id) == if holds_id(self.books@, id) {
                    one_less(count_of(old(copy_count)@, id))
                } else {
                    count_of(old(copy_count)@, id)
                },
    {
        copy_count.discard(&self.books);
    }

    /// Puts the remaining books in the order of the library's preference
    /// and says what the library offers if it signs up now. There is no
    /// prospect, and the books stay as they are, if the sign-up would take
    /// all the days that are left; there is none either if the books that
    /// the library would scan are worthless.
    pub fn prospect(
        &mut self,
        days_left: u64,
        copy_count: &CopyCount,
        identical_scores: bool,
        trial: usize,
        round: usize,
    ) -> (p: Option<Prospect>)
        ensures
            final(self).library == old(self).library,
            final(self).score == old(self).score,
            old(self).library.signup_days >= days_left ==> p is None && final(self).books == old(self).books,
            old(self).library.signup_days < days_left ==> {
                &&& ranked(final(self).books@, copy_count@, ranking_for(identical_scores))
                &&& final(self).books@.to_multiset() == old(self).books@.to_multiset()
                &&& match p {
                    None => worthless(final(self).selection(days_left as nat), identical_scores),
                    Some(p) => !worthless(final(self).selection(days_left as nat), identical_scores)
                        && final(self).offers(
                        p,
                        days_left,
                        copy_count@,
                        identical_scores,
                        trial,
                        round,
                    ),
                }
            },
    {
        if self.library.signup_days >= days_left {
            return None;
        }
        let ranking = if identical_scores {
            Ranking::Scarcity
        } else {
            Ranking::Value
        };
        sort_books(&mut self.books, copy_count, ranking);
        let keep = self.selection_len(days_left);
        let ghost selection = self.selection(days_left as nat);
        if keep == 0 {
            return None;
        }
        if !identical_scores && self.books[0].score == 0 {
            proof {
                assert forall|i: int| 0 <= i < selection.len() implies (#[trigger] selection[i]).score
                    == 0 by {
                    assert(!precedes(self.books[i], self.books[0], copy_count@, ranking));
                }
            }
            return None;
        }
        assert(selection[0] == self.books[0]);
        let mut picks: Vec<Pick> = Vec::new();
        let mut i: usize = 0;
        while i < keep
            invariant
                i <= keep <= self.books.len(),
                selection == self.books@.take(keep as int),
                picks@ == picks_of(selection.take(i as int), copy_count@),
            decreases keep - i,
        {
            let book = self.books[i];
            picks.push(Pick { score: book.score, copies: copy_count.count(book.id) });
            proof {
                assert(selection.take(i + 1) == selection.take(i as int).push(book));
                assert(picks@ == picks_of(selection.take(i + 1), copy_count@));
            }
            i += 1;
        }
        assert(selection.take(i as int) == selection);
        let idle = unused_days(
            days_left - self.library.signup_days,
            self.library.scan_rate,
            keep,
        );
        Some(
            Prospect {
                trial,
                round,
                library: self.library.id,
                days_left,
                signup_days: self.library.signup_days,
                scan_rate: self.library.scan_rate,
                identical_scores,
                picks,
                idle_days: idle,
            },
        )
    }

    /// Brings the library's priority up to date. The priority is zero if
    /// the library cannot sign up in time or would scan only worthless
    /// books; else it is what `scorer` makes of the library's prospect.
    pub fn update<F: Fn(&Prospect) -> u64>(
        &mut self,
        days_left: u64,
        copy_count: &CopyCount,
        identical_scores: bool,
        trial: usize,
        round: usize,
        scorer: &F,
    )
        requires
            forall|p: Prospect| scorer.requires((&p,)),
        ensures
            Self::updated(
                *old(self),
                *final(self),
                days_left,
                copy_count@,
                identical_scores,
                trial,
                round,
                scorer,
            ),
    {
        match self.prospect(days_left, copy_count, identical_scores, trial, round) {
            None => {
                self.score = 0;
            },
            Some(p) => {
                let score = scorer(&p);
                self.score = score;
                assert(self.offers(p, days_left, copy_count@, identical_scores, trial, round)
                    && scorer.ensures((&p,), self.score));
            },
        }
    }

    /// Signs the library up when `days_left` days are left: the books that
    /// it can scan in time are its scan set, the others leave the copy
    /// counts, and no book remains. Returns the identifiers of the scan
    /// set, in the order of the library's preference.
    pub fn scan_books(&mut self, days_left: u64, copy_count: &mut CopyCount) -> (scanned: Vec<u32>)
        requires
            distinct_ids(old(self).books@),
        ensures
            final(self).library == old(self).library,
            final(self).score == old(self).score,
            final(self).books@.len() == 0,
            scanned@ == ids_of(old(self).selection(days_left as nat)),
            final(copy_count)@.len() == old(copy_count)@.len(),
            forall|id: int|
                count_of(final(copy_count)@, id) == if holds_id(
                    old(self).books@.skip(old(self).selection(days_left as nat).len() as int),
                    id,
                ) {
                    one_less(count_of(old(copy_count)@, id))
                } else {
                    count_of(old(copy_count)@, id)
                },
    {
        let keep = self.selection_len(days_left);
        let ghost selection = self.selection(days_left as nat);
        let dropped = self.books.split_off(keep);
        assert(dropped@ == old(self).books@.skip(keep as int));
        assert(self.books@ == selection);
        copy_count.discard(&dropped);
        let mut scanned: Vec<u32> = Vec::new();
        let mut i: usize = 0;
        while i < self.books.len()
            invariant
                i <= self.books.len(),
                self.books@ == selection,
                scanned@ == ids_of(selection.take(i as int)),
            decreases self.books.len() - i,
        {
            scanned.push(self.books[i].id);
            proof {
                assert(selection.take(i + 1) == selection.take(i as int).push(selection[i as int]));
                assert(scanned@ == ids_of(selection.take(i + 1)));
            }
            i += 1;
        }
        assert(selection.take(i as int) == selection);
        self.books = Vec::new();
        scanned
    }

    /// Strips the marked books from the remaining books; the others keep
    /// their order.
    pub fn remove_books(&mut self, scanned_books: &Vec<bool>)
        ensures
            final(self).library == old(self).library,
            final(self).score == old(self).score,
            final(self).books@ == old(self).books@.filter(
                |b: BookRef| !marked(scanned_books@, b.id as int),
            ),
    {
        let ghost keep = |b: BookRef| !marked(scanned_books@, b.id as int);
        let mut kept: Vec<BookRef> = Vec::new();
        let mut i: usize = 0;
        while i < self.books.len()
            invariant
                i <= self.books.len(),
                *self == *old(self),
                keep == |b: BookRef| !marked(scanned_books@, b.id as int),
                kept@ == self.books@.take(i as int).filter(keep),
            decreases self.books.len() - i,
        {
            let book = self.books[i];
            let at = book.id as usize;
            proof {
                assert(self.books@.take(i + 1) == self.books@.take(i as int).push(book));
                self.books@.take(i as int).lemma_filter_push(book, keep);
            }
            if !(at < scanned_books.len() && scanned_books[at]) {
                kept.push(book);
            }
            i += 1;
        }
        assert(self.books@.take(i as int) == self.books@);
        self.books = kept;
    }
}

} // verus!
