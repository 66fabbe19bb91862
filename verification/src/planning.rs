//! One run of the planner, step by step: the priorities are brought up to
//! date, the libraries that can gain nothing go, and the library with the
//! highest priority signs up.

use crate::copies::{
    count_of, holders, lemma_holders_push, lemma_holders_remove, lemma_holders_same, less_by,
    one_less, CopyCount,
};
use crate::model::{
    choice, entries, initial, is_choice, lemma_choice_unique, lemma_decided_update, shelf_books,
    state_decided, state_evicted, state_may_step, state_may_update, state_signed, state_stepped,
    state_updated, State,
};
use crate::order::{precedes, ranked};
use crate::pending::{
    decided, eager, lemma_filter_keeps, lemma_picks_total_zero, marked, ranking_for,
    shelf_may_become, worthless, PendingLibrary, Prospect, Shelf,
};
use crate::plan::{
    elapsed, lemma_plan_push, lemma_scanned_push, lemma_spent_stays, no_book_twice,
    no_library_twice, scanned_set, signs_up, spent, unmarked, ScanningPlan, Signup,
};
use crate::task::{catalogs, holds_id, ids_of, same_scores, BookRef, ScanningTask};
use vstd::prelude::*;

verus! {

/// A pending library belongs to the task, is well formed, and its
/// remaining books are those of its books that are not marked as scanned.
pub open spec fn candidate_ok(task: &ScanningTask, marks: Seq<bool>, c: PendingLibrary) -> bool {
    &&& c.library.id < task.libraries.len()
    &&& task.libraries[c.library.id as int] == *c.library
    &&& c.wf()
    &&& forall|i: int| 0 <= i < c.books.len() ==> !marked(marks, (#[trigger] c.books[i]).id as int)
    &&& forall|i: int|
        0 <= i < c.library.books.len() ==> marked(marks, (#[trigger] c.library.books[i]).id as int)
            || c.books@.contains(c.library.books[i])
}

/// The pending libraries are candidates of the task, in ascending order of
/// their identifiers.
pub open spec fn pending_ok(task: &ScanningTask, marks: Seq<bool>, pending: Seq<PendingLibrary>) -> bool {
    &&& forall|j: int| 0 <= j < pending.len() ==> candidate_ok(task, marks, #[trigger] pending[j])
    &&& forall|i: int, j: int|
        0 <= i < j < pending.len() ==> (#[trigger] pending[i]).library.id < (
        #[trigger] pending[j]).library.id
}

/// No library of the plan is still pending.
pub open spec fn apart(queue: Seq<Signup>, pending: Seq<PendingLibrary>) -> bool {
    forall|k: int, j: int|
        0 <= k < queue.len() && 0 <= j < pending.len() ==> (#[trigger] queue[k]).library != (
        #[trigger] pending[j]).library.id
}

/// The marks say which books the plan scans.
pub open spec fn marks_scanned(marks: Seq<bool>, queue: Seq<Signup>) -> bool {
    forall|id: int| 0 <= id < marks.len() ==> (marks[id] <==> scanned_set(queue).contains(id))
}

/// The remaining books of each pending library.
pub open spec fn shelves(pending: Seq<PendingLibrary>) -> Seq<Seq<BookRef>> {
    pending.map_values(|c: PendingLibrary| c.books@)
}

/// Sets the mark of each of the books `ids`.
pub fn mark_all(marks: &mut Vec<bool>, ids: &Vec<u32>)
    requires
        forall|b: int| 0 <= b < ids.len() ==> ids[b] < old(marks).len(),
    ensures
        final(marks).len() == old(marks).len(),
        forall|id: int|
            0 <= id < old(marks).len() ==> (final(marks)[id] <==> old(marks)[id] || exists|b: int|
                0 <= b < ids.len() && #[trigger] ids[b] == id),
{
    let mut i: usize = 0;
    while i < ids.len()
        invariant
            i <= ids.len(),
            marks.len() == old(marks).len(),
            forall|b: int| 0 <= b < ids.len() ==> ids[b] < marks.len(),
            forall|id: int|
                0 <= id < marks.len() ==> (marks[id] <==> old(marks)[id] || exists|b: int|
                    0 <= b < i && #[trigger] ids[b] == id),
        decreases ids.len() - i,
    {
        let ghost before = marks@;
        marks.set(ids[i] as usize, true);
        proof {
            assert forall|id: int| 0 <= id < marks.len() implies (marks[id] <==> old(marks)[id]
                || exists|b: int| 0 <= b < i + 1 && #[trigger] ids[b] == id) by {
                if id == ids[i as int] {
                    assert(ids[i as int] == id);
                } else if before[id] && !old(marks)[id] {
                    let b = choose|b: int| 0 <= b < i && #[trigger] ids[b] == id;
                    assert(ids[b] == id);
                }
            }
        }
        i += 1;
    }
}

/// The copy count of every book that a pending library still holds is the
/// number of pending libraries that still hold it.
pub open spec fn counts_true(counts: Seq<usize>, pending: Seq<PendingLibrary>) -> bool {
    forall|id: int|
        holders(shelves(pending), id) > 0 ==> count_of(counts, id) == #[trigger] holders(
            shelves(pending),
            id,
        )
}

/// The pending libraries with a priority above zero and those with
/// priority zero hold, together, what all of them hold.
pub proof fn lemma_holders_evict(pending: Seq<PendingLibrary>, id: int)
    ensures
        holders(shelves(pending), id) == holders(
            shelves(pending.filter(|c: PendingLibrary| c.score > 0)),
            id,
        ) + holders(shelves(pending.filter(|c: PendingLibrary| c.score == 0)), id),
    decreases pending.len(),
{
    let stays = |c: PendingLibrary| c.score > 0;
    let goes = |c: PendingLibrary| c.score == 0;
    if pending.len() == 0 {
        assert(pending.filter(stays) == Seq::<PendingLibrary>::empty() && pending.filter(goes)
            == Seq::<PendingLibrary>::empty()) by {
            reveal(Seq::filter);
        }
    } else {
        let front = pending.drop_last();
        let last = pending.last();
        lemma_holders_evict(front, id);
        assert(pending == front.push(last));
        front.lemma_filter_push(last, stays);
        front.lemma_filter_push(last, goes);
        assert(shelves(pending).drop_last() == shelves(front));
        if last.score > 0 {
            assert(shelves(front.filter(stays).push(last)) == shelves(front.filter(stays)).push(
                last.books@,
            ));
            lemma_holders_push(shelves(front.filter(stays)), last.books@, id);
        } else {
            assert(shelves(front.filter(goes).push(last)) == shelves(front.filter(goes)).push(
                last.books@,
            ));
            lemma_holders_push(shelves(front.filter(goes)), last.books@, id);
        }
    }
}

/// The library is pending.
pub open spec fn waits(pending: Seq<PendingLibrary>, library: int) -> bool {
    exists|i: int| 0 <= i < pending.len() && (#[trigger] pending[i]).library.id == library
}

/// A pending library that can sign up in the days left, and whose books to
/// scan all score nothing, is spent: its other books score no more.
pub proof fn lemma_barren_spent(
    task: &ScanningTask,
    marks: Seq<bool>,
    queue: Seq<Signup>,
    c: PendingLibrary,
    counts: Seq<usize>,
    identical_scores: bool,
    days_left: u64,
)
    requires
        task.wf(),
        marks.len() == task.books.len(),
        marks_scanned(marks, queue),
        candidate_ok(task, marks, c),
        identical_scores == same_scores(task.books@),
        ranked(c.books@, counts, ranking_for(identical_scores)),
        c.library.signup_days < days_left,
        forall|i: int|
            0 <= i < c.selection(days_left as nat).len() ==> (#[trigger] c.selection(
                days_left as nat,
            )[i]).score == 0,
    ensures
        spent(task, c.library.id as int, scanned_set(queue), days_left as int),
{
    let library = task.libraries[c.library.id as int];
    let selection = c.selection(days_left as nat);
    assert(library.wf(task.books@));
    if library.scan_rate > 0 {
        let days = (days_left - library.signup_days) as nat;
        let rate = library.scan_rate as nat;
        assert(days * rate >= 1) by (nonlinear_arith)
            requires
                days >= 1,
                rate >= 1,
        ;
        if c.books@.len() > 0 {
            assert(selection.len() > 0);
            assert(selection[0] == c.books@[0]);
            assert forall|i: int| 0 <= i < c.books@.len() implies (#[trigger] c.books@[i]).score
                == 0 by {
                if identical_scores {
                    assert(library.books@.contains(c.books[i]));
                    assert(library.books@.contains(c.books[0]));
                    let a = c.books@[i].id as int;
                    let b = c.books@[0].id as int;
                    assert(task.books@[a].score == task.books@[b].score);
                } else if i > 0 {
                    assert(!precedes(c.books@[i], c.books@[0], counts, ranking_for(identical_scores)));
                }
            }
        }
        assert forall|i: int| 0 <= i < library.books.len() implies scanned_set(queue).contains(
            (#[trigger] library.books[i]).id as int,
        ) || library.books[i].score == 0 by {
            let book = library.books[i];
            if marked(marks, book.id as int) {
            } else {
                assert(c.books@.contains(book));
                let w = choose|w: int| 0 <= w < c.books@.len() && c.books@[w] == book;
                assert(c.books@[w].score == 0);
            }
        }
    }
}

/// The state of one run of the planner.
pub struct Planning<'a> {
    pub task: &'a ScanningTask,
    /// Whether all books of the task have the same score.
    pub identical_scores: bool,
    /// The number of this run, handed on to the scorer.
    pub trial: usize,
    /// The days that are left for further sign-ups and for scanning.
    pub days_left: u64,
    /// For each book, the number of pending libraries that still hold it.
    pub copy_count: CopyCount,
    /// The libraries that have not signed up, in ascending order of their
    /// identifiers.
    pub pending: Vec<PendingLibrary<'a>>,
    /// For each book, whether the plan scans it.
    pub scanned: Vec<bool>,
    /// The sign-ups decided so far.
    pub plan: ScanningPlan<'a>,
}

/// What the pending libraries look like to the planner.
pub open spec fn shelves_of(pending: Seq<PendingLibrary>) -> Seq<Shelf> {
    pending.map_values(|c: PendingLibrary| c@)
}

impl<'a> View for Planning<'a> {
    type V = State;

    open spec fn view(&self) -> State {
        State {
            days_left: self.days_left,
            counts: self.copy_count@,
            pending: shelves_of(self.pending@),
            marks: self.scanned@,
            queue: entries(self.plan.queue@),
        }
    }
}

impl<'a> Planning<'a> {
    /// The plan made so far can be carried out in the days that have gone,
    /// scans no book twice, and is kept apart from what is still pending.
    pub open spec fn wf(&self) -> bool {
        &&& self.task.wf()
        &&& self.plan.task == self.task
        &&& self.identical_scores == same_scores(self.task.books@)
        &&& self.copy_count@.len() == self.task.books.len()
        &&& self.scanned@.len() == self.task.books.len()
        &&& pending_ok(self.task, self.scanned@, self.pending@)
        &&& counts_true(self.copy_count@, self.pending@)
        &&& apart(self.plan.queue@, self.pending@)
        &&& marks_scanned(self.scanned@, self.plan.queue@)
        &&& self.plan.valid()
        &&& self.plan.distinct()
        &&& self.plan.orderly()
        &&& elapsed(self.task, self.plan.queue@, self.plan.queue@.len() as int) + self.days_left
            == self.task.days
    }

    /// Every library of the task is in the plan, or pending, or spent.
    pub open spec fn settled(&self) -> bool {
        forall|j: int|
            0 <= j < self.task.libraries.len() ==> signs_up(self.plan.queue@, j) || waits(
                self.pending@,
                j,
            ) || #[trigger] spent(
                self.task,
                j,
                scanned_set(self.plan.queue@),
                self.days_left as int,
            )
    }

    /// Every pending library with priority zero is spent.
    pub open spec fn idle_spent(&self) -> bool {
        forall|i: int|
            0 <= i < self.pending.len() && (#[trigger] self.pending[i]).score == 0 ==> spent(
                self.task,
                self.pending[i].library.id as int,
                scanned_set(self.plan.queue@),
                self.days_left as int,
            )
    }

    /// Every pending library with a priority above zero can sign up in the
    /// days that are left and would then scan at least one book.
    pub open spec fn fresh(&self) -> bool {
        forall|j: int|
            0 <= j < self.pending.len() && (#[trigger] self.pending[j]).score > 0
                ==> self.pending[j].library.signup_days < self.days_left
                && self.pending[j].selection(self.days_left as nat).len() > 0
    }

    /// The number of the sign-up that is decided next, counted from zero.
    pub open spec fn round(&self) -> usize {
        self.plan.queue.len()
    }

    /// The start of a run: every library is pending with all its books,
    /// all the days are left, and the plan is empty.
    pub fn new(
        task: &'a ScanningTask,
        copy_count: CopyCount,
        identical_scores: bool,
        trial: usize,
    ) -> (state: Self)
        requires
            task.wf(),
            copy_count@.len() == task.books.len(),
            forall|id: int| count_of(copy_count@, id) == holders(catalogs(task.libraries@), id),
            identical_scores == same_scores(task.books@),
        ensures
            state.wf(),
            state.settled(),
            state@ == initial(task),
            state.task == task,
            state.identical_scores == identical_scores,
            state.trial == trial,
            state.days_left == task.days,
            state.copy_count == copy_count,
            state.plan.queue@.len() == 0,
            state.pending@.len() == task.libraries.len(),
            forall|j: int|
                0 <= j < task.libraries.len() ==> *(#[trigger] state.pending[j]).library
                    == task.libraries[j] && state.pending[j].books@ == task.libraries[j].books@
                    && state.pending[j].score == 0,
    {
        let scanned = unmarked(task.books.len());
        let mut pending: Vec<PendingLibrary<'a>> = Vec::new();
        let mut j: usize = 0;
        while j < task.libraries.len()
            invariant
                task.wf(),
                j <= task.libraries.len(),
                pending.len() == j,
                scanned.len() == task.books.len(),
                forall|i: int| 0 <= i < scanned.len() ==> !scanned[i],
                forall|k: int|
                    0 <= k < j ==> *(#[trigger] pending[k]).library == task.libraries[k]
                        && pending[k].books@ == task.libraries[k].books@ && pending[k].score == 0,
                pending_ok(task, scanned@, pending@),
            decreases task.libraries.len() - j,
        {
            let candidate = PendingLibrary::new(&task.libraries[j]);
            proof {
                assert(task.libraries[j as int].wf(task.books@));
                assert(candidate.books@.no_duplicates());
                assert forall|i: int| 0 <= i < candidate.books.len() implies candidate.library.books@.contains(
                    #[trigger] candidate.books[i],
                ) by {
                    assert(candidate.library.books@[i] == candidate.books[i]);
                }
                assert(candidate_ok(task, scanned@, candidate));
            }
            let ghost before = pending@;
            pending.push(candidate);
            proof {
                assert forall|k: int| 0 <= k < pending.len() implies candidate_ok(
                    task,
                    scanned@,
                    #[trigger] pending[k],
                ) by {
                    if k < before.len() {
                        assert(pending[k] == before[k]);
                    }
                }
            }
            j += 1;
        }
        let plan = ScanningPlan::new(task);
        let state = Planning {
            task,
            identical_scores,
            trial,
            days_left: task.days,
            copy_count,
            pending,
            scanned,
            plan,
        };
        proof {
            assert(no_book_twice(state.plan.queue@));
            assert(no_library_twice(state.plan.queue@));
            assert forall|id: int| 0 <= id < state.scanned@.len() implies (state.scanned@[id]
                <==> scanned_set(state.plan.queue@).contains(id)) by {}
            assert(shelves(state.pending@) == catalogs(task.libraries@));
            assert forall|j: int| 0 <= j < task.libraries.len() implies waits(state.pending@, j) by {
                assert(state.pending[j].library.id == j);
            }
            assert(state@.counts =~= initial(task).counts) by {
                assert forall|id: int| 0 <= id < state@.counts.len() implies state@.counts[id]
                    == initial(task).counts[id] by {
                    assert(count_of(copy_count@, id) == holders(catalogs(task.libraries@), id));
                }
            }
            assert(state@.pending =~= initial(task).pending);
            assert(state@.marks =~= initial(task).marks);
            assert(state@.queue =~= initial(task).queue);
        }
        state
    }

    /// Brings the priority of every pending library up to date.
    pub fn update_all<F: Fn(&Prospect) -> u64>(&mut self, scorer: &F)
        requires
            old(self).wf(),
            forall|p: Prospect| scorer.requires((&p,)),
        ensures
            final(self).wf(),
            final(self).fresh(),
            eager(scorer) ==> final(self).idle_spent(),
            old(self).settled() ==> final(self).settled(),
            state_may_update(
                old(self).task,
                old(self).identical_scores,
                old(self).trial,
                scorer,
                old(self)@,
                final(self)@,
            ),
            decided(scorer) ==> final(self)@ == state_updated(
                old(self).task,
                old(self).identical_scores,
                old(self).trial,
                scorer,
                old(self)@,
            ),
            final(self).task == old(self).task,
            final(self).identical_scores == old(self).identical_scores,
            final(self).trial == old(self).trial,
            final(self).days_left == old(self).days_left,
            final(self).copy_count == old(self).copy_count,
            final(self).scanned == old(self).scanned,
            final(self).plan == old(self).plan,
            final(self).pending.len() == old(self).pending.len(),
            forall|j: int|
                0 <= j < old(self).pending.len() ==> PendingLibrary::updated(
                    old(self).pending[j],
                    #[trigger] final(self).pending[j],
                    old(self).days_left,
                    old(self).copy_count@,
                    old(self).identical_scores,
                    old(self).trial,
                    old(self).round(),
                    scorer,
                ),
    {
        let round = self.plan.queue.len();
        let mut j: usize = 0;
        while j < self.pending.len()
            invariant
                old(self).wf(),
                forall|p: Prospect| scorer.requires((&p,)),
                round == old(self).round(),
                j <= self.pending.len(),
                self.task == old(self).task,
                self.identical_scores == old(self).identical_scores,
                self.trial == old(self).trial,
                self.days_left == old(self).days_left,
                self.copy_count == old(self).copy_count,
                self.scanned == old(self).scanned,
                self.plan == old(self).plan,
                self.pending.len() == old(self).pending.len(),
                forall|k: int|
                    0 <= k < self.pending.len() ==> (#[trigger] self.pending[k]).library == old(self).pending[k].library,
                forall|k: int|
                    0 <= k < self.pending.len() ==> candidate_ok(
                        self.task,
                        self.scanned@,
                        #[trigger] self.pending[k],
                    ),
                forall|k: int| j <= k < self.pending.len() ==> self.pending[k] == old(self).pending[k],
                forall|k: int|
                    0 <= k < j ==> PendingLibrary::updated(
                        old(self).pending[k],
                        #[trigger] self.pending[k],
                        self.days_left,
                        self.copy_count@,
                        self.identical_scores,
                        self.trial,
                        round,
                        scorer,
                    ),
                forall|k: int|
                    0 <= k < j && (#[trigger] self.pending[k]).score > 0
                        ==> self.pending[k].library.signup_days < self.days_left
                        && self.pending[k].selection(self.days_left as nat).len() > 0,
                eager(scorer) ==> forall|k: int|
                    0 <= k < j && (#[trigger] self.pending[k]).score == 0 ==> spent(
                        self.task,
                        self.pending[k].library.id as int,
                        scanned_set(self.plan.queue@),
                        self.days_left as int,
                    ),
            decreases self.pending.len() - j,
        {
            let ghost before = self.pending@;
            self.pending[j].update(
                self.days_left,
                &self.copy_count,
                self.identical_scores,
                self.trial,
                round,
                scorer,
            );
            proof {
                let was = before[j as int];
                let now = self.pending[j as int];
                assert(was == old(self).pending[j as int]);
                if was.library.signup_days < self.days_left {
                    PendingLibrary::lemma_reordered(was, now);
                    assert forall|i: int| 0 <= i < now.books.len() implies !marked(
                        self.scanned@,
                        (#[trigger] now.books[i]).id as int,
                    ) by {
                        assert(now.books@.contains(now.books@[i]));
                        let w = choose|w: int| 0 <= w < was.books@.len() && was.books@[w] == now.books@[i];
                        assert(!marked(self.scanned@, was.books[w].id as int));
                    }
                }
                assert(candidate_ok(self.task, self.scanned@, now));
                assert forall|k: int| 0 <= k < self.pending.len() implies candidate_ok(
                    self.task,
                    self.scanned@,
                    #[trigger] self.pending[k],
                ) && self.pending[k].library == old(self).pending[k].library by {
                    if k != j {
                        assert(self.pending[k] == before[k]);
                    }
                }
                assert forall|k: int| 0 <= k < j + 1 implies PendingLibrary::updated(
                    old(self).pending[k],
                    #[trigger] self.pending[k],
                    self.days_left,
                    self.copy_count@,
                    self.identical_scores,
                    self.trial,
                    round,
                    scorer,
                ) by {
                    if k != j {
                        assert(self.pending[k] == before[k]);
                    }
                }
                assert forall|k: int|
                    0 <= k < j + 1 && (#[trigger] self.pending[k]).score > 0
                        implies self.pending[k].library.signup_days < self.days_left
                    && self.pending[k].selection(self.days_left as nat).len() > 0 by {
                    if k != j {
                        assert(self.pending[k] == before[k]);
                    }
                }
                if eager(scorer) {
                    if now.score == 0 && now.library.signup_days < self.days_left {
                        let selection = now.selection(self.days_left as nat);
                        if !worthless(selection, self.identical_scores) {
                            let p = choose|p: Prospect|
                                #![trigger scorer.ensures((&p,), now.score)]
                                now.offers(
                                    p,
                                    self.days_left,
                                    self.copy_count@,
                                    self.identical_scores,
                                    self.trial,
                                    round,
                                ) && scorer.ensures((&p,), now.score);
                            lemma_picks_total_zero(selection, self.copy_count@);
                        }
                        lemma_barren_spent(
                            self.task,
                            self.scanned@,
                            self.plan.queue@,
                            now,
                            self.copy_count@,
                            self.identical_scores,
                            self.days_left,
                        );
                    }
                    assert forall|k: int|
                        0 <= k < j + 1 && (#[trigger] self.pending[k]).score == 0 implies spent(
                        self.task,
                        self.pending[k].library.id as int,
                        scanned_set(self.plan.queue@),
                        self.days_left as int,
                    ) by {
                        if k != j {
                            assert(self.pending[k] == before[k]);
                        }
                    }
                }
            }
            j += 1;
        }
        proof {
            assert forall|k1: int, k2: int|
                0 <= k1 < k2 < self.pending.len() implies (#[trigger] self.pending[k1]).library.id < (
            #[trigger] self.pending[k2]).library.id by {
                assert(old(self).pending[k1].library.id < old(self).pending[k2].library.id);
            }
            assert forall|k: int, i: int|
                0 <= k < self.plan.queue.len() && 0 <= i < self.pending.len() implies (
            #[trigger] self.plan.queue[k]).library != (#[trigger] self.pending[i]).library.id by {
                assert(old(self).plan.queue[k].library != old(self).pending[i].library.id);
            }
            if old(self).settled() {
                assert forall|l: int| 0 <= l < self.task.libraries.len() implies signs_up(
                    self.plan.queue@,
                    l,
                ) || waits(self.pending@, l) || #[trigger] spent(
                    self.task,
                    l,
                    scanned_set(self.plan.queue@),
                    self.days_left as int,
                ) by {
                    if waits(old(self).pending@, l) {
                        let i = choose|i: int|
                            0 <= i < old(self).pending.len() && (
                            #[trigger] old(self).pending[i]).library.id == l;
                        assert(self.pending[i].library == old(self).pending[i].library);
                    }
                }
            }
            assert forall|k: int| 0 <= k < old(self)@.pending.len() implies shelf_may_become(
                old(self)@.pending[k],
                #[trigger] self@.pending[k],
                &self.task.libraries@[old(self)@.pending[k].library as int],
                self.days_left,
                self.copy_count@,
                self.identical_scores,
                self.trial,
                old(self)@.queue.len() as usize,
                scorer,
            ) by {
                let was = old(self).pending[k];
                let now = self.pending[k];
                assert(candidate_ok(old(self).task, old(self).scanned@, was));
                assert(PendingLibrary::updated(
                    was,
                    now,
                    self.days_left,
                    self.copy_count@,
                    self.identical_scores,
                    self.trial,
                    round,
                    scorer,
                ));
                PendingLibrary::lemma_may_become(
                    was,
                    now,
                    self.days_left,
                    self.copy_count@,
                    self.identical_scores,
                    self.trial,
                    round,
                    scorer,
                );
                assert(old(self)@.pending[k] == was@);
                assert(self@.pending[k] == now@);
            }
            if decided(scorer) {
                lemma_decided_update(
                    self.task,
                    self.identical_scores,
                    self.trial,
                    scorer,
                    old(self)@,
                    self@,
                );
            }
            assert forall|id: int|
                holders(shelves(self.pending@), id) == holders(shelves(old(self).pending@), id) by {
                assert forall|k: int| 0 <= k < self.pending.len() implies (holds_id(
                    shelves(self.pending@)[k],
                    id,
                ) <==> holds_id(shelves(old(self).pending@)[k], id)) by {
                    let was = old(self).pending[k];
                    let now = self.pending[k];
                    assert(PendingLibrary::updated(
                        was,
                        now,
                        self.days_left,
                        self.copy_count@,
                        self.identical_scores,
                        self.trial,
                        round,
                        scorer,
                    ));
                    assert(candidate_ok(old(self).task, old(self).scanned@, was));
                    if was.library.signup_days < self.days_left {
                        PendingLibrary::lemma_reordered(was, now);
                    }
                }
                lemma_holders_same(shelves(self.pending@), shelves(old(self).pending@), id);
            }
        }
    }

    /// Drops every pending library whose priority is zero and takes its
    /// remaining books out of the copy counts. The others stay, in their
    /// order.
    pub fn evict(&mut self)
        requires
            old(self).wf(),
        ensures
            final(self).wf(),
            final(self)@ == state_evicted(old(self)@),
            old(self).fresh() ==> final(self).fresh(),
            old(self).settled() && old(self).idle_spent() ==> final(self).settled(),
            final(self).task == old(self).task,
            final(self).identical_scores == old(self).identical_scores,
            final(self).trial == old(self).trial,
            final(self).days_left == old(self).days_left,
            final(self).scanned == old(self).scanned,
            final(self).plan == old(self).plan,
            final(self).pending@ == old(self).pending@.filter(|c: PendingLibrary| c.score > 0),
            forall|id: int|
                count_of(final(self).copy_count@, id) == less_by(
                    count_of(old(self).copy_count@, id),
                    holders(
                        shelves(old(self).pending@.filter(|c: PendingLibrary| c.score == 0)),
                        id,
                    ),
                ),
    {
        let ghost stays = |c: PendingLibrary| c.score > 0;
        let ghost goes = |c: PendingLibrary| c.score == 0;
        let ghost all = self.pending@;
        let mut candidates: Vec<PendingLibrary<'a>> = Vec::new();
        std::mem::swap(&mut self.pending, &mut candidates);
        assert(all.take(0).filter(stays) == Seq::<PendingLibrary>::empty()
            && all.take(0).filter(goes) == Seq::<PendingLibrary>::empty()) by {
            reveal(Seq::filter);
        }
        for candidate in it: candidates
            invariant
                old(self).wf(),
                stays == |c: PendingLibrary| c.score > 0,
                goes == |c: PendingLibrary| c.score == 0,
                all == old(self).pending@,
                it.seq() == all,
                self.task == old(self).task,
                self.identical_scores == old(self).identical_scores,
                self.trial == old(self).trial,
                self.days_left == old(self).days_left,
                self.scanned == old(self).scanned,
                self.plan == old(self).plan,
                self.copy_count@.len() == old(self).copy_count@.len(),
                self.pending@ == all.take(it.index() as int).filter(stays),
                forall|k: int|
                    0 <= k < self.pending.len() ==> all.contains(#[trigger] self.pending[k]),
                forall|k: int, m: int|
                    0 <= k < self.pending.len() && it.index() <= m < all.len() ==> (
                    #[trigger] self.pending[k]).library.id < (#[trigger] all[m]).library.id,
                forall|k1: int, k2: int|
                    0 <= k1 < k2 < self.pending.len() ==> (#[trigger] self.pending[k1]).library.id < (
                    #[trigger] self.pending[k2]).library.id,
                forall|id: int|
                    count_of(self.copy_count@, id) == less_by(
                        count_of(old(self).copy_count@, id),
                        holders(shelves(all.take(it.index() as int).filter(goes)), id),
                    ),
        {
            let ghost i = it.index() as int;
            let ghost kept = self.pending@;
            let ghost gone = all.take(i).filter(goes);
            proof {
                assert(all[i] == candidate);
                assert(all.take(i + 1) == all.take(i).push(candidate));
                all.take(i).lemma_filter_push(candidate, stays);
                all.take(i).lemma_filter_push(candidate, goes);
                assert(candidate_ok(self.task, self.scanned@, all[i]));
                candidate.lemma_distinct_ids();
            }
            if candidate.score > 0 {
                self.pending.push(candidate);
                proof {
                    assert forall|k: int| 0 <= k < self.pending.len() implies all.contains(
                        #[trigger] self.pending[k],
                    ) by {
                        if k < kept.len() {
                            assert(self.pending[k] == kept[k]);
                        }
                    }
                    assert forall|k: int, m: int|
                        0 <= k < self.pending.len() && i + 1 <= m < all.len() implies (
                    #[trigger] self.pending[k]).library.id < (#[trigger] all[m]).library.id by {
                        if k < kept.len() {
                            assert(self.pending[k] == kept[k]);
                        } else {
                            assert(all[i].library.id < all[m].library.id);
                        }
                    }
                    assert forall|k1: int, k2: int|
                        0 <= k1 < k2 < self.pending.len() implies (
                    #[trigger] self.pending[k1]).library.id < (
                    #[trigger] self.pending[k2]).library.id by {
                        assert(self.pending[k1] == kept[k1]);
                        if k2 < kept.len() {
                            assert(self.pending[k2] == kept[k2]);
                        }
                    }
                }
            } else {
                candidate.discard_books(&mut self.copy_count);
                proof {
                    assert(shelves(gone.push(candidate)) == shelves(gone).push(candidate.books@));
                    assert forall|id: int|
                        count_of(self.copy_count@, id) == less_by(
                            count_of(old(self).copy_count@, id),
                            holders(shelves(gone.push(candidate)), id),
                        ) by {
                        lemma_holders_push(shelves(gone), candidate.books@, id);
                    }
                }
            }
        }
        proof {
            assert(all.take(all.len() as int) == all);
            assert forall|j: int| 0 <= j < self.pending.len() implies candidate_ok(
                self.task,
                self.scanned@,
                #[trigger] self.pending[j],
            ) by {
                assert(all.contains(self.pending[j]));
                let w = choose|w: int| 0 <= w < all.len() && all[w] == self.pending[j];
                assert(candidate_ok(self.task, self.scanned@, all[w]));
            }
            assert forall|k: int, j: int|
                0 <= k < self.plan.queue.len() && 0 <= j < self.pending.len() implies (
            #[trigger] self.plan.queue[k]).library != (#[trigger] self.pending[j]).library.id by {
                assert(all.contains(self.pending[j]));
                let w = choose|w: int| 0 <= w < all.len() && all[w] == self.pending[j];
                assert(self.plan.queue[k].library != all[w].library.id);
            }
            if old(self).fresh() {
                assert forall|j: int|
                    0 <= j < self.pending.len() && (#[trigger] self.pending[j]).score > 0
                        implies self.pending[j].library.signup_days < self.days_left
                    && self.pending[j].selection(self.days_left as nat).len() > 0 by {
                    assert(all.contains(self.pending[j]));
                    let w = choose|w: int| 0 <= w < all.len() && all[w] == self.pending[j];
                    assert(old(self).pending[w].score > 0);
                }
            }
            assert forall|id: int| holders(shelves(self.pending@), id) > 0 implies count_of(
                self.copy_count@,
                id,
            ) == #[trigger] holders(shelves(self.pending@), id) by {
                lemma_holders_evict(all, id);
            }
            let target = state_evicted(old(self)@);
            vstd::seq_lib::lemma_filter_view_commute(
                all,
                stays,
                |shelf: Shelf| shelf.score > 0,
            );
            vstd::seq_lib::lemma_filter_view_commute(
                all,
                goes,
                |shelf: Shelf| shelf.score == 0,
            );
            assert(self@.pending == target.pending);
            assert(shelves(all.filter(goes)) =~= shelf_books(shelves_of(all.filter(goes))));
            assert forall|id: int| 0 <= id < self@.counts.len() implies self@.counts[id]
                == target.counts[id] by {
                assert(count_of(self.copy_count@, id) == less_by(
                    count_of(old(self).copy_count@, id),
                    holders(shelves(all.filter(goes)), id),
                ));
            }
            assert(self@.counts =~= target.counts);
            if old(self).settled() && old(self).idle_spent() {
                assert forall|l: int| 0 <= l < self.task.libraries.len() implies signs_up(
                    self.plan.queue@,
                    l,
                ) || waits(self.pending@, l) || #[trigger] spent(
                    self.task,
                    l,
                    scanned_set(self.plan.queue@),
                    self.days_left as int,
                ) by {
                    if waits(all, l) {
                        let i = choose|i: int|
                            0 <= i < all.len() && (#[trigger] all[i]).library.id == l;
                        if all[i].score > 0 {
                            all.lemma_filter_contains(stays, i);
                            let w = choose|w: int|
                                0 <= w < self.pending@.len() && self.pending@[w] == all[i];
                            assert(self.pending[w].library.id == l);
                        } else {
                            assert(old(self).pending[i].score == 0);
                        }
                    }
                }
            }
        }
    }

    /// The pending library that signs up next: the one with the highest
    /// priority and, among those, the one with the lowest identifier. None
    /// if no library is pending.
    pub fn select(&self) -> (next: Option<usize>)
        ensures
            match next {
                None => self.pending.len() == 0,
                Some(at) => {
                    &&& at < self.pending.len()
                    &&& forall|j: int|
                        0 <= j < self.pending.len() ==> (#[trigger] self.pending[j]).score
                            <= self.pending[at as int].score
                    &&& forall|j: int|
                        0 <= j < at ==> (#[trigger] self.pending[j]).score < self.pending[at as int].score
                    &&& choice(self@.pending) == at
                },
            },
    {
        if self.pending.len() == 0 {
            return None;
        }
        let mut at: usize = 0;
        let mut j: usize = 1;
        while j < self.pending.len()
            invariant
                at < j <= self.pending.len(),
                forall|k: int|
                    0 <= k < j ==> (#[trigger] self.pending[k]).score <= self.pending[at as int].score,
                forall|k: int|
                    0 <= k < at ==> (#[trigger] self.pending[k]).score < self.pending[at as int].score,
            decreases self.pending.len() - j,
        {
            if self.pending[j].score > self.pending[at].score {
                at = j;
            }
            j += 1;
        }
        proof {
            assert(is_choice(self@.pending, at as int));
            lemma_choice_unique(self@.pending, at as int);
        }
        Some(at)
    }

    /// Signs up the pending library at `index`: it scans as many of its
    /// remaining books, in the order of its preference, as it has time
    /// for after its sign-up; the books it cannot scan leave the copy
    /// counts; the books it scans are taken from every other pending
    /// library; and the plan grows by this library and its books.
    pub fn sign_up(&mut self, index: usize)
        requires
            old(self).wf(),
            index < old(self).pending.len(),
            old(self).pending[index as int].library.signup_days < old(self).days_left,
            old(self).pending[index as int].selection(old(self).days_left as nat).len() > 0,
        ensures
            final(self).wf(),
            final(self)@ == state_signed(old(self).task, old(self)@, index as int),
            old(self).settled() ==> final(self).settled(),
            final(self).task == old(self).task,
            final(self).identical_scores == old(self).identical_scores,
            final(self).trial == old(self).trial,
            final(self).days_left == old(self).days_left - old(self).pending[index as int].library.signup_days,
            final(self).plan.queue@.len() == old(self).plan.queue@.len() + 1,
            final(self).plan.queue@.drop_last() == old(self).plan.queue@,
            final(self).plan.queue@.last().library == old(self).pending[index as int].library.id,
            final(self).plan.queue@.last().books@ == ids_of(
                old(self).pending[index as int].selection(old(self).days_left as nat),
            ),
            forall|id: int|
                marked(final(self).scanned@, id) <==> marked(old(self).scanned@, id) || holds_id(
                    old(self).pending[index as int].selection(old(self).days_left as nat),
                    id,
                ),
            forall|id: int|
                count_of(final(self).copy_count@, id) == if holds_id(
                    old(self).pending[index as int].books@.skip(
                        old(self).pending[index as int].selection(
                            old(self).days_left as nat,
                        ).len() as int,
                    ),
                    id,
                ) {
                    one_less(count_of(old(self).copy_count@, id))
                } else {
                    count_of(old(self).copy_count@, id)
                },
            final(self).pending.len() == old(self).pending.len() - 1,
            forall|j: int|
                0 <= j < final(self).pending.len() ==> {
                    let was = old(self).pending@.remove(index as int)[j];
                    let now = #[trigger] final(self).pending[j];
                    &&& now.library == was.library
                    &&& now.score == was.score
                    &&& now.books@ == was.books@.filter(
                        |b: BookRef| !marked(final(self).scanned@, b.id as int),
                    )
                },
    {
        let ghost others = self.pending@.remove(index as int);
        let ghost chosen = self.pending[index as int];
        let ghost selection = chosen.selection(self.days_left as nat);
        let ghost old_marks = self.scanned@;
        let ghost old_queue = self.plan.queue@;
        let mut candidate = self.pending.remove(index);
        proof {
            assert(candidate_ok(self.task, self.scanned@, chosen));
            chosen.lemma_distinct_ids();
            assert(self.task.libraries[chosen.library.id as int].wf(self.task.books@));
        }
        let books = candidate.scan_books(self.days_left, &mut self.copy_count);
        self.days_left -= candidate.library.signup_days;
        proof {
            assert forall|b: int| 0 <= b < books.len() implies (#[trigger] books[b])
                < self.task.books.len() && !marked(old_marks, books[b] as int) && holds_id(
                chosen.library.books@,
                books[b] as int,
            ) && selection[b].id == books[b] by {
                assert(selection[b] == chosen.books[b]);
                assert(chosen.library.books@.contains(chosen.books[b]));
                let w = choose|w: int|
                    0 <= w < chosen.library.books@.len() && chosen.library.books@[w]
                        == chosen.books[b];
                assert(chosen.library.books@[w].id == books[b]);
            }
        }
        mark_all(&mut self.scanned, &books);
        let ghost new_marks = self.scanned@;
        proof {
            assert forall|id: int|
                marked(new_marks, id) <==> marked(old_marks, id) || holds_id(selection, id) by {
                if 0 <= id < old_marks.len() {
                    if holds_id(selection, id) {
                        let b = choose|b: int| 0 <= b < selection.len() && #[trigger] selection[b].id == id;
                        assert(books[b] == id);
                    }
                    if exists|b: int| 0 <= b < books.len() && #[trigger] books[b] == id {
                        let b = choose|b: int| 0 <= b < books.len() && #[trigger] books[b] == id;
                        assert(selection[b].id == id);
                    }
                } else if holds_id(selection, id) {
                    let b = choose|b: int| 0 <= b < selection.len() && #[trigger] selection[b].id == id;
                    assert(books[b] == id);
                }
            }
        }
        let ghost keep = |b: BookRef| !marked(new_marks, b.id as int);
        let ghost new_counts = self.copy_count;
        let ghost new_days = self.days_left;
        let mut j: usize = 0;
        while j < self.pending.len()
            invariant
                j <= self.pending.len(),
                self.pending.len() == others.len(),
                self.scanned@ == new_marks,
                self.copy_count == new_counts,
                self.days_left == new_days,
                self.task == old(self).task,
                self.identical_scores == old(self).identical_scores,
                self.trial == old(self).trial,
                self.plan == old(self).plan,
                keep == |b: BookRef| !marked(new_marks, b.id as int),
                forall|k: int| j <= k < self.pending.len() ==> self.pending[k] == others[k],
                forall|k: int|
                    0 <= k < j ==> (#[trigger] self.pending[k]).library == others[k].library
                        && self.pending[k].score == others[k].score && self.pending[k].books@
                        == others[k].books@.filter(keep),
            decreases self.pending.len() - j,
        {
            let ghost before = self.pending@;
            self.pending[j].remove_books(&self.scanned);
            proof {
                assert forall|k: int| 0 <= k < self.pending.len() && k != j implies self.pending[k]
                    == before[k] by {}
            }
            j += 1;
        }
        let ghost entry = Signup { library: candidate.library.id, books };
        self.plan.add_library(candidate.library.id, books);
        proof {
            assert(self.plan.queue@ == old_queue.push(entry));
            assert(self.plan.queue@.drop_last() == old_queue);
            assert forall|b: int| 0 <= b < entry.books.len() implies !scanned_set(old_queue).contains(
                #[trigger] entry.books[b] as int,
            ) by {}
            assert forall|b1: int, b2: int| 0 <= b1 < b2 < entry.books.len() implies entry.books[b1]
                != entry.books[b2] by {
                assert(selection[b1].id == entry.books[b1]);
                assert(selection[b2].id == entry.books[b2]);
            }
            assert forall|k: int| 0 <= k < old_queue.len() implies (#[trigger] old_queue[k]).library
                != entry.library by {
                assert(old(self).pending[index as int].library.id != old_queue[k].library);
            }
            lemma_plan_push(self.task, old_queue, entry, old(self).days_left as nat);
            lemma_scanned_push(old_queue, entry);
            assert forall|id: int| 0 <= id < new_marks.len() implies (new_marks[id] <==> scanned_set(
                self.plan.queue@,
            ).contains(id)) by {
                if holds_id(selection, id) {
                    let b = choose|b: int| 0 <= b < selection.len() && #[trigger] selection[b].id == id;
                    assert(entry.books[b] == id);
                }
                if exists|b: int| 0 <= b < entry.books.len() && #[trigger] entry.books[b] == id {
                    let b = choose|b: int| 0 <= b < entry.books.len() && #[trigger] entry.books[b] == id;
                    assert(selection[b].id == id);
                }
            }
            assert forall|k: int| 0 <= k < self.pending.len() implies candidate_ok(
                self.task,
                new_marks,
                #[trigger] self.pending[k],
            ) by {
                let was = others[k];
                let from = if k < index {
                    k
                } else {
                    k + 1
                };
                assert(was == old(self).pending[from]);
                assert(candidate_ok(self.task, old_marks, was));
                let now = self.pending[k];
                PendingLibrary::lemma_filtered(was, now, keep);
                assert forall|i: int| 0 <= i < now.books.len() implies !marked(
                    new_marks,
                    (#[trigger] now.books[i]).id as int,
                ) by {
                    assert(now.books@.contains(now.books@[i]));
                }
            }
            assert forall|k1: int, k2: int|
                0 <= k1 < k2 < self.pending.len() implies (#[trigger] self.pending[k1]).library.id < (
            #[trigger] self.pending[k2]).library.id by {
                let f1 = if k1 < index {
                    k1
                } else {
                    k1 + 1
                };
                let f2 = if k2 < index {
                    k2
                } else {
                    k2 + 1
                };
                assert(others[k1] == old(self).pending[f1]);
                assert(others[k2] == old(self).pending[f2]);
            }
            assert forall|k: int, i: int|
                0 <= k < self.plan.queue.len() && 0 <= i < self.pending.len() implies (
            #[trigger] self.plan.queue[k]).library != (#[trigger] self.pending[i]).library.id by {
                let from = if i < index {
                    i
                } else {
                    i + 1
                };
                assert(others[i] == old(self).pending[from]);
                if k < old_queue.len() {
                    assert(self.plan.queue[k] == old_queue[k]);
                } else {
                    assert(old(self).pending[from].library.id != old(self).pending[index as int].library.id);
                }
            }
            assert forall|id: int| holders(shelves(self.pending@), id) > 0 implies count_of(
                self.copy_count@,
                id,
            ) == #[trigger] holders(shelves(self.pending@), id) by {
                assert(selection == chosen.books@.take(selection.len() as int));
                Self::lemma_signed_up_holders(
                    old(self).pending@,
                    index as int,
                    self.pending@,
                    new_marks,
                    selection,
                    id,
                );
            }
            let target = state_signed(self.task, old(self)@, index as int);
            assert(old(self)@.pending[index as int] == chosen@);
            assert(self@.marks =~= target.marks) by {
                assert forall|id: int| 0 <= id < new_marks.len() implies new_marks[id]
                    == target.marks[id] by {
                    assert(marked(new_marks, id) <==> marked(old_marks, id) || holds_id(selection, id));
                }
            }
            assert(self@.counts =~= target.counts) by {
                let left_out = chosen.books@.skip(selection.len() as int);
                assert forall|id: int| 0 <= id < self@.counts.len() implies self@.counts[id]
                    == target.counts[id] by {
                    assert(count_of(self.copy_count@, id) == if holds_id(left_out, id) {
                        one_less(count_of(old(self).copy_count@, id))
                    } else {
                        count_of(old(self).copy_count@, id)
                    });
                }
            }
            assert(self@.pending =~= target.pending) by {
                assert(shelves_of(old(self).pending@).remove(index as int) =~= shelves_of(others));
                assert forall|k: int| 0 <= k < self.pending.len() implies self@.pending[k]
                    == target.pending[k] by {
                    assert(self.pending[k].books@ == others[k].books@.filter(keep));
                }
            }
            assert(self@.queue =~= target.queue) by {
                assert(entries(old_queue.push(entry)) =~= entries(old_queue).push(entry@));
            }
            if old(self).settled() {
                assert(scanned_set(old_queue).subset_of(scanned_set(self.plan.queue@)));
                assert forall|l: int| 0 <= l < self.task.libraries.len() implies signs_up(
                    self.plan.queue@,
                    l,
                ) || waits(self.pending@, l) || #[trigger] spent(
                    self.task,
                    l,
                    scanned_set(self.plan.queue@),
                    self.days_left as int,
                ) by {
                    if signs_up(old_queue, l) {
                        let k = choose|k: int|
                            0 <= k < old_queue.len() && (#[trigger] old_queue[k]).library == l;
                        assert(self.plan.queue@[k].library == l);
                    } else if waits(old(self).pending@, l) {
                        let i = choose|i: int|
                            0 <= i < old(self).pending.len() && (
                            #[trigger] old(self).pending[i]).library.id == l;
                        if i == index {
                            assert(self.plan.queue@[old_queue.len() as int].library == l);
                        } else {
                            let k = if i < index {
                                i
                            } else {
                                i - 1
                            };
                            assert(others[k] == old(self).pending[i]);
                            assert(self.pending[k].library.id == l);
                        }
                    } else {
                        lemma_spent_stays(
                            self.task,
                            l,
                            scanned_set(old_queue),
                            old(self).days_left as int,
                            scanned_set(self.plan.queue@),
                            self.days_left as int,
                        );
                    }
                }
            }
        }
    }

    /// Decides one sign-up: brings the priorities up to date, drops the
    /// libraries with priority zero, and signs up the best of the others.
    /// Returns whether a library signed up; if none did, none is pending
    /// any more. The state is then one that `state_may_step` describes;
    /// if the scorer is decided, the one that `state_stepped` describes.
    pub fn step<F: Fn(&Prospect) -> u64>(&mut self, scorer: &F) -> (signed: bool)
        requires
            old(self).wf(),
            forall|p: Prospect| scorer.requires((&p,)),
        ensures
            final(self).wf(),
            eager(scorer) && old(self).settled() ==> final(self).settled(),
            state_may_step(
                old(self).task,
                old(self).identical_scores,
                old(self).trial,
                scorer,
                old(self)@,
                final(self)@,
            ),
            decided(scorer) ==> final(self)@ == state_stepped(
                old(self).task,
                old(self).identical_scores,
                old(self).trial,
                scorer,
                old(self)@,
            ),
            final(self).task == old(self).task,
            final(self).identical_scores == old(self).identical_scores,
            final(self).trial == old(self).trial,
            signed ==> {
                &&& final(self).plan.queue@.len() == old(self).plan.queue@.len() + 1
                &&& final(self).plan.queue@.drop_last() == old(self).plan.queue@
                &&& final(self).pending.len() < old(self).pending.len()
                &&& 0 < final(self).days_left <= old(self).days_left
            },
            !signed ==> {
                &&& final(self).plan == old(self).plan
                &&& final(self).days_left == old(self).days_left
                &&& final(self).pending.len() == 0
            },
    {
        self.update_all(scorer);
        let ghost updated = self.pending@;
        let ghost up_to_date = self@;
        self.evict();
        proof {
            updated.lemma_filter_len(|c: PendingLibrary| c.score > 0);
        }
        match self.select() {
            None => {
                assert(self@ == state_decided(self.task, up_to_date));
                false
            },
            Some(at) => {
                proof {
                    let stays = |c: PendingLibrary| c.score > 0;
                    updated.lemma_filter_pred(stays, at as int);
                    assert(self.pending[at as int].score > 0);
                }
                self.sign_up(at);
                assert(self@ == state_decided(self.task, up_to_date));
                true
            },
        }
    }

    /// After a sign-up, a book that a pending library still holds has the
    /// holders it had before, less the library that signed up if that
    /// library held it and did not scan it.
    proof fn lemma_signed_up_holders(
        before: Seq<PendingLibrary>,
        index: int,
        after: Seq<PendingLibrary>,
        marks: Seq<bool>,
        selection: Seq<BookRef>,
        id: int,
    )
        requires
            0 <= index < before.len(),
            after.len() == before.len() - 1,
            selection.len() <= before[index].books@.len(),
            selection == before[index].books@.take(selection.len() as int),
            forall|b: int| 0 <= b < selection.len() ==> marked(marks, (#[trigger] selection[b]).id as int),
            forall|k: int, b: int|
                0 <= k < before.len() && k != index && 0 <= b < before[k].books@.len() && !holds_id(
                    selection,
                    (#[trigger] before[k].books@[b]).id as int,
                ) ==> !marked(marks, before[k].books@[b].id as int),
            forall|k: int|
                0 <= k < after.len() ==> (#[trigger] after[k]).books@ == before.remove(index)[k].books@.filter(
                    |b: BookRef| !marked(marks, b.id as int),
                ),
            holders(shelves(after), id) > 0,
        ensures
            !holds_id(selection, id),
            holders(shelves(before), id) == holders(shelves(after), id) + if holds_id(
                before[index].books@.skip(selection.len() as int),
                id,
            ) {
                1nat
            } else {
                0nat
            },
    {
        let keep = |b: BookRef| !marked(marks, b.id as int);
        let others = before.remove(index);
        let chosen = before[index].books@;
        let tail = chosen.skip(selection.len() as int);
        // some pending library still holds the book, so it is not marked
        Self::lemma_some_holder(shelves(after), id);
        let h = choose|h: int| 0 <= h < shelves(after).len() && holds_id(shelves(after)[h], id);
        let hb = choose|hb: int| 0 <= hb < after[h].books@.len() && #[trigger] after[h].books@[hb].id == id;
        lemma_filter_keeps(others[h].books@, keep);
        assert(after[h].books@ == others[h].books@.filter(keep));
        assert(after[h].books@.contains(after[h].books@[hb]));
        assert(!marked(marks, id));
        if holds_id(selection, id) {
            let b = choose|b: int| 0 <= b < selection.len() && #[trigger] selection[b].id == id;
            assert(marked(marks, selection[b].id as int));
        }
        assert forall|k: int| 0 <= k < after.len() implies (holds_id(shelves(after)[k], id)
            <==> holds_id(shelves(others)[k], id)) by {
            let now = after[k].books@;
            let was = others[k].books@;
            lemma_filter_keeps(was, keep);
            assert(now == was.filter(keep));
            assert(shelves(after)[k] == now);
            assert(shelves(others)[k] == was);
            if holds_id(now, id) {
                let b = choose|b: int| 0 <= b < now.len() && #[trigger] now[b].id == id;
                let x = now[b];
                assert(now.contains(x));
                assert(was.contains(x));
                let w = choose|w: int| 0 <= w < was.len() && was[w] == x;
                assert(was[w].id == id);
            }
            if holds_id(was, id) {
                let b = choose|b: int| 0 <= b < was.len() && #[trigger] was[b].id == id;
                let x = was[b];
                assert(was.contains(x));
                assert(keep(x));
                assert(now.contains(x));
                let w = choose|w: int| 0 <= w < now.len() && now[w] == x;
                assert(now[w].id == id);
            }
        }
        lemma_holders_same(shelves(after), shelves(others), id);
        assert(shelves(others) == shelves(before).remove(index));
        lemma_holders_remove(shelves(before), index, id);
        assert(holds_id(chosen, id) <==> holds_id(tail, id)) by {
            if holds_id(chosen, id) {
                let b = choose|b: int| 0 <= b < chosen.len() && #[trigger] chosen[b].id == id;
                if b < selection.len() {
                    assert(selection[b].id == id);
                } else {
                    assert(tail[b - selection.len()].id == id);
                }
            }
            if holds_id(tail, id) {
                let b = choose|b: int| 0 <= b < tail.len() && #[trigger] tail[b].id == id;
                assert(chosen[b + selection.len()].id == id);
            }
        }
    }

    /// A book with a holder is on some shelf.
    proof fn lemma_some_holder(shelves: Seq<Seq<BookRef>>, id: int)
        requires
            holders(shelves, id) > 0,
        ensures
            exists|h: int| 0 <= h < shelves.len() && holds_id(#[trigger] shelves[h], id),
        decreases shelves.len(),
    {
        if shelves.len() > 0 {
            if holds_id(shelves.last(), id) {
                assert(holds_id(shelves[shelves.len() - 1], id));
            } else {
                Self::lemma_some_holder(shelves.drop_last(), id);
                let h = choose|h: int|
                    0 <= h < shelves.drop_last().len() && holds_id(
                        #[trigger] shelves.drop_last()[h],
                        id,
                    );
                assert(holds_id(shelves[h], id));
            }
        }
    }
}

} // verus!
