//! What a run of the planner arrives at, step by step: the states that it
//! may reach with the priorities that a scorer may give, and the one state
//! that it reaches when the scorer is decided.

use crate::copies::{count_of, holders, less_by, one_less};
use crate::pending::{
    decided, lemma_decided_becomes, marked, selection_of, shelf_may_become, shelf_updated,
    Prospect, Shelf,
};
use crate::plan::{scanned_set, value_of, Signup};
use crate::task::{catalogs, holds_id, ids_of, BookRef, Library, ScanningTask};
use vstd::prelude::*;

verus! {

/// One entry of a plan: a library and the books that it scans.
pub struct Entry {
    pub library: u32,
    pub books: Seq<u32>,
}

impl View for Signup {
    type V = Entry;

    open spec fn view(&self) -> Entry {
        Entry { library: self.library, books: self.books@ }
    }
}

/// The entries of a queue.
pub open spec fn entries(queue: Seq<Signup>) -> Seq<Entry> {
    queue.map_values(|e: Signup| e@)
}

/// The state of a run: the days left, the copy counts, the libraries that
/// have not signed up, the marks of the scanned books, and the sign-ups
/// decided so far.
pub struct State {
    pub days_left: u64,
    pub counts: Seq<usize>,
    pub pending: Seq<Shelf>,
    pub marks: Seq<bool>,
    pub queue: Seq<Entry>,
}

/// The remaining books of each pending library.
pub open spec fn shelf_books(pending: Seq<Shelf>) -> Seq<Seq<BookRef>> {
    pending.map_values(|shelf: Shelf| shelf.books)
}

/// The state at the start of a run: all days are left, every library is
/// pending with all its books, and nothing is scanned.
pub open spec fn initial(task: &ScanningTask) -> State {
    State {
        days_left: task.days,
        counts: Seq::new(
            task.books@.len(),
            |id: int| holders(catalogs(task.libraries@), id) as usize,
        ),
        pending: task.libraries@.map_values(
            |l: Library| Shelf { library: l.id, books: l.books@, score: 0 },
        ),
        marks: Seq::new(task.books@.len(), |id: int| false),
        queue: Seq::empty(),
    }
}

/// The state after every pending library is brought up to date.
pub open spec fn state_updated<F: Fn(&Prospect) -> u64>(
    task: &ScanningTask,
    identical_scores: bool,
    trial: usize,
    scorer: &F,
    s: State,
) -> State {
    State {
        days_left: s.days_left,
        counts: s.counts,
        pending: s.pending.map_values(
            |shelf: Shelf|
                shelf_updated(
                    shelf,
                    &task.libraries@[shelf.library as int],
                    s.days_left,
                    s.counts,
                    identical_scores,
                    trial,
                    s.queue.len() as usize,
                    scorer,
                ),
        ),
        marks: s.marks,
        queue: s.queue,
    }
}

/// Bringing every pending library up to date may make `after` of `s`:
/// each pending library is what it may become, and nothing else changes.
pub open spec fn state_may_update<F: Fn(&Prospect) -> u64>(
    task: &ScanningTask,
    identical_scores: bool,
    trial: usize,
    scorer: &F,
    s: State,
    after: State,
) -> bool {
    &&& after.days_left == s.days_left
    &&& after.counts == s.counts
    &&& after.marks == s.marks
    &&& after.queue == s.queue
    &&& after.pending.len() == s.pending.len()
    &&& forall|k: int|
        0 <= k < s.pending.len() ==> shelf_may_become(
            s.pending[k],
            #[trigger] after.pending[k],
            &task.libraries@[s.pending[k].library as int],
            s.days_left,
            s.counts,
            identical_scores,
            trial,
            s.queue.len() as usize,
            scorer,
        )
}

/// With a decided scorer, bringing the pending libraries up to date can
/// make one state only.
pub proof fn lemma_decided_update<F: Fn(&Prospect) -> u64>(
    task: &ScanningTask,
    identical_scores: bool,
    trial: usize,
    scorer: &F,
    s: State,
    after: State,
)
    requires
        decided(scorer),
        state_may_update(task, identical_scores, trial, scorer, s, after),
    ensures
        after == state_updated(task, identical_scores, trial, scorer, s),
{
    let target = state_updated(task, identical_scores, trial, scorer, s);
    assert forall|k: int| 0 <= k < s.pending.len() implies after.pending[k]
        == target.pending[k] by {
        lemma_decided_becomes(
            s.pending[k],
            after.pending[k],
            &task.libraries@[s.pending[k].library as int],
            s.days_left,
            s.counts,
            identical_scores,
            trial,
            s.queue.len() as usize,
            scorer,
        );
    }
    assert(after.pending =~= target.pending);
}

/// The state after the pending libraries with priority zero have gone.
/// Each takes one copy of each of its remaining books out of the counts.
pub open spec fn state_evicted(s: State) -> State {
    let gone = s.pending.filter(|shelf: Shelf| shelf.score == 0);
    State {
        days_left: s.days_left,
        counts: Seq::new(
            s.counts.len(),
            |id: int| less_by(count_of(s.counts, id), holders(shelf_books(gone), id)) as usize,
        ),
        pending: s.pending.filter(|shelf: Shelf| shelf.score > 0),
        marks: s.marks,
        queue: s.queue,
    }
}

/// The pending library at `at` has the highest priority, and none before
/// it has the same.
pub open spec fn is_choice(pending: Seq<Shelf>, at: int) -> bool {
    &&& 0 <= at < pending.len()
    &&& forall|j: int| 0 <= j < pending.len() ==> (#[trigger] pending[j]).score <= pending[at].score
    &&& forall|j: int| 0 <= j < at ==> (#[trigger] pending[j]).score < pending[at].score
}

/// The place of the pending library that signs up next.
pub open spec fn choice(pending: Seq<Shelf>) -> int {
    choose|at: int| is_choice(pending, at)
}

/// Where libraries are pending, one of them is the choice.
pub proof fn lemma_choice_exists(pending: Seq<Shelf>)
    requires
        pending.len() > 0,
    ensures
        is_choice(pending, choice(pending)),
    decreases pending.len(),
{
    if pending.len() == 1 {
        assert(is_choice(pending, 0));
    } else {
        let front = pending.drop_last();
        lemma_choice_exists(front);
        let at = choice(front);
        let last = pending.len() - 1;
        assert(front[at] == pending[at]);
        if pending[last].score > pending[at].score {
            assert forall|j: int| 0 <= j < pending.len() implies (#[trigger] pending[j]).score
                <= pending[last].score by {
                if j < last {
                    assert(front[j] == pending[j]);
                }
            }
            assert forall|j: int| 0 <= j < last implies (#[trigger] pending[j]).score
                < pending[last].score by {
                assert(front[j] == pending[j]);
            }
            assert(is_choice(pending, last));
        } else {
            assert forall|j: int| 0 <= j < pending.len() implies (#[trigger] pending[j]).score
                <= pending[at].score by {
                if j < last {
                    assert(front[j] == pending[j]);
                }
            }
            assert forall|j: int| 0 <= j < at implies (#[trigger] pending[j]).score
                < pending[at].score by {
                assert(front[j] == pending[j]);
            }
            assert(is_choice(pending, at));
        }
    }
}

/// There is one choice only.
pub proof fn lemma_choice_unique(pending: Seq<Shelf>, at: int)
    requires
        is_choice(pending, at),
    ensures
        choice(pending) == at,
{
    let other = choice(pending);
    assert(is_choice(pending, other));
    if other < at {
        assert(pending[other].score < pending[at].score);
    } else if at < other {
        assert(pending[at].score < pending[other].score);
    }
}

/// The state after the pending library at `at` has signed up: it scans as
/// many of its books, from the front, as it can after its sign-up; its
/// other books leave the copy counts; what it scans is marked and taken
/// from the other pending libraries; and the queue grows by its entry.
pub open spec fn state_signed(task: &ScanningTask, s: State, at: int) -> State {
    let shelf = s.pending[at];
    let library = task.libraries@[shelf.library as int];
    let selection = selection_of(&library, shelf.books, s.days_left as nat);
    let left_out = shelf.books.skip(selection.len() as int);
    let marks = Seq::new(s.marks.len(), |id: int| s.marks[id] || holds_id(selection, id));
    State {
        days_left: (s.days_left - library.signup_days) as u64,
        counts: Seq::new(
            s.counts.len(),
            |id: int|
                if holds_id(left_out, id) {
                    one_less(count_of(s.counts, id)) as usize
                } else {
                    s.counts[id]
                },
        ),
        pending: s.pending.remove(at).map_values(
            |other: Shelf|
                Shelf {
                    library: other.library,
                    books: other.books.filter(|b: BookRef| !marked(marks, b.id as int)),
                    score: other.score,
                },
        ),
        marks,
        queue: s.queue.push(Entry { library: shelf.library, books: ids_of(selection) }),
    }
}

/// The state after a sign-up is decided on priorities that are up to
/// date: the libraries with priority zero go, and the choice among the
/// others signs up. If no library is left, none signs up.
pub open spec fn state_decided(task: &ScanningTask, s: State) -> State {
    let ready = state_evicted(s);
    if ready.pending.len() == 0 {
        ready
    } else {
        state_signed(task, ready, choice(ready.pending))
    }
}

/// The state after one sign-up is decided: the priorities are brought up
/// to date, and the sign-up is decided on them.
pub open spec fn state_stepped<F: Fn(&Prospect) -> u64>(
    task: &ScanningTask,
    identical_scores: bool,
    trial: usize,
    scorer: &F,
    s: State,
) -> State {
    state_decided(task, state_updated(task, identical_scores, trial, scorer, s))
}

/// Deciding one sign-up may make `after` of `s`.
pub open spec fn state_may_step<F: Fn(&Prospect) -> u64>(
    task: &ScanningTask,
    identical_scores: bool,
    trial: usize,
    scorer: &F,
    s: State,
    after: State,
) -> bool {
    exists|updated: State|
        #[trigger] state_may_update(task, identical_scores, trial, scorer, s, updated) && after
            == state_decided(task, updated)
}

/// Deciding a sign-up leaves fewer libraries pending than there were.
pub proof fn lemma_decided_shrinks(task: &ScanningTask, s: State)
    requires
        s.pending.len() > 0,
    ensures
        state_decided(task, s).pending.len() < s.pending.len(),
{
    let ready = state_evicted(s);
    s.pending.lemma_filter_len(|shelf: Shelf| shelf.score > 0);
    if ready.pending.len() > 0 {
        lemma_choice_exists(ready.pending);
    }
}

/// The state at the end of a run that is in state `s`: sign-ups are
/// decided as long as days are left and libraries are pending.
pub open spec fn state_run<F: Fn(&Prospect) -> u64>(
    task: &ScanningTask,
    identical_scores: bool,
    trial: usize,
    scorer: &F,
    s: State,
) -> State
    decreases s.pending.len(),
{
    if s.days_left == 0 || s.pending.len() == 0 {
        s
    } else {
        proof {
            lemma_decided_shrinks(
                task,
                state_updated(task, identical_scores, trial, scorer, s),
            );
        }
        state_run(
            task,
            identical_scores,
            trial,
            scorer,
            state_stepped(task, identical_scores, trial, scorer, s),
        )
    }
}

/// The plan that a run with a decided scorer makes of a task.
pub open spec fn planned<F: Fn(&Prospect) -> u64>(
    task: &ScanningTask,
    identical_scores: bool,
    trial: usize,
    scorer: &F,
) -> Seq<Entry> {
    state_run(task, identical_scores, trial, scorer, initial(task)).queue
}

/// A run that is in state `s` may end in state `end`: sign-ups are decided
/// as long as days are left and libraries are pending, each on priorities
/// that the scorer may give.
pub open spec fn may_reach<F: Fn(&Prospect) -> u64>(
    task: &ScanningTask,
    identical_scores: bool,
    trial: usize,
    scorer: &F,
    s: State,
    end: State,
) -> bool
    decreases s.pending.len(),
{
    if s.days_left == 0 || s.pending.len() == 0 {
        end == s
    } else {
        exists|next: State|
            #[trigger] state_may_step(task, identical_scores, trial, scorer, s, next)
                && next.pending.len() < s.pending.len() && may_reach(
                task,
                identical_scores,
                trial,
                scorer,
                next,
                end,
            )
    }
}

/// A run may make the plan `queue` of a task.
pub open spec fn may_plan<F: Fn(&Prospect) -> u64>(
    task: &ScanningTask,
    identical_scores: bool,
    trial: usize,
    scorer: &F,
    queue: Seq<Entry>,
) -> bool {
    exists|end: State|
        #[trigger] may_reach(task, identical_scores, trial, scorer, initial(task), end)
            && end.queue == queue
}

/// With a decided scorer, a run can end in one state only.
pub proof fn lemma_decided_run<F: Fn(&Prospect) -> u64>(
    task: &ScanningTask,
    identical_scores: bool,
    trial: usize,
    scorer: &F,
    s: State,
    end: State,
)
    requires
        decided(scorer),
        may_reach(task, identical_scores, trial, scorer, s, end),
    ensures
        end == state_run(task, identical_scores, trial, scorer, s),
    decreases s.pending.len(),
{
    if !(s.days_left == 0 || s.pending.len() == 0) {
        let next = choose|next: State|
            #[trigger] state_may_step(task, identical_scores, trial, scorer, s, next)
                && next.pending.len() < s.pending.len() && may_reach(
                task,
                identical_scores,
                trial,
                scorer,
                next,
                end,
            );
        let updated = choose|updated: State|
            #[trigger] state_may_update(task, identical_scores, trial, scorer, s, updated) && next
                == state_decided(task, updated);
        lemma_decided_update(task, identical_scores, trial, scorer, s, updated);
        lemma_decided_run(task, identical_scores, trial, scorer, next, end);
    }
}

/// The identifiers of the books that the entries scan.
pub open spec fn covered(queue: Seq<Entry>) -> Set<int> {
    Set::new(
        |id: int|
            exists|e: int, b: int|
                0 <= e < queue.len() && 0 <= b < queue[e].books.len() && #[trigger] queue[e].books[b]
                    == id,
    )
}

/// The score of the entries: the sum of the scores of the books that they
/// scan, each counted once.
pub open spec fn entries_value(task: &ScanningTask, queue: Seq<Entry>) -> nat {
    value_of(task.books@, covered(queue), task.books@.len() as int)
}

/// The entries of a queue scan what the queue scans.
pub proof fn lemma_covered(queue: Seq<Signup>)
    ensures
        covered(entries(queue)) == scanned_set(queue),
{
    let views = entries(queue);
    assert forall|id: int| covered(views).contains(id) <==> scanned_set(queue).contains(id) by {
        if covered(views).contains(id) {
            let (e, b) = choose|e: int, b: int|
                0 <= e < views.len() && 0 <= b < views[e].books.len() && #[trigger] views[e].books[b]
                    == id;
            assert(queue[e].books[b] == id);
        }
        if scanned_set(queue).contains(id) {
            let (e, b) = choose|e: int, b: int|
                0 <= e < queue.len() && 0 <= b < queue[e].books.len() && #[trigger] queue[e].books[b]
                    == id;
            assert(views[e].books[b] == id);
        }
    }
    assert(covered(views) =~= scanned_set(queue));
}

/// The best of the plans of the first `trials` runs: the first of those
/// that score highest, or the empty plan if none scores above zero.
pub open spec fn best_planned<F: Fn(&Prospect) -> u64>(
    task: &ScanningTask,
    identical_scores: bool,
    scorer: &F,
    trials: nat,
) -> Seq<Entry>
    decreases trials,
{
    if trials == 0 {
        Seq::empty()
    } else {
        let best = best_planned(task, identical_scores, scorer, (trials - 1) as nat);
        let next = planned(task, identical_scores, (trials - 1) as usize, scorer);
        if entries_value(task, next) > entries_value(task, best) {
            next
        } else {
            best
        }
    }
}

} // verus!
