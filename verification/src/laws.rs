//! What holds of every plan that can be carried out, and of the best score
//! that a task allows.

use crate::capacity::scan_capacity;
use crate::plan::{
    all_clear, elapsed, fault_at, lemma_value_of_agree, lemma_value_of_bound,
    lemma_value_of_insert, lemma_value_of_none, no_book_twice, scanned_before, scanned_set,
    sensible, sensible_at, unknown_book, value_of, PlanError, ScanningPlan, Signup,
};
use crate::task::{ScanningTask, MAX_BOOK_SCORE};
use vstd::prelude::*;

verus! {

/// In a plan that scans no book twice, no book is among the books of two
/// entries.
pub proof fn lemma_entries_share_no_book(queue: Seq<Signup>, one: int, other: int)
    requires
        no_book_twice(queue),
        0 <= one < queue.len(),
        0 <= other < queue.len(),
        one != other,
    ensures
        forall|id: u32| !(queue[one].books@.contains(id) && queue[other].books@.contains(id)),
{
    assert forall|id: u32|
        !(queue[one].books@.contains(id) && queue[other].books@.contains(id)) by {
        if queue[one].books@.contains(id) && queue[other].books@.contains(id) {
            let a = choose|a: int| 0 <= a < queue[one].books@.len() && queue[one].books@[a] == id;
            let b = choose|b: int|
                0 <= b < queue[other].books@.len() && queue[other].books@[b] == id;
            assert(queue[one].books[a] != queue[other].books[b]);
        }
    }
}

/// In a plan without fault, every entry names a library of the task, the
/// sign-ups up to and including its own take no more days than the task
/// has, it scans no more books than its library can in the days left after
/// its sign-up, and all its books are books of the task.
pub proof fn lemma_clear_entry(task: &ScanningTask, queue: Seq<Signup>, k: int)
    requires
        all_clear(task, queue),
        0 <= k < queue.len(),
    ensures
        queue[k].library < task.libraries.len(),
        elapsed(task, queue, k + 1) <= task.days,
        queue[k].books@.len() <= scan_capacity(
            (task.days - elapsed(task, queue, k + 1)) as nat,
            task.libraries[queue[k].library as int].scan_rate as nat,
        ),
        forall|b: int| 0 <= b < queue[k].books@.len() ==> queue[k].books@[b] < task.books@.len(),
{
    assert(fault_at(task, queue, k) is None);
    assert(unknown_book(queue[k].books@, task.books@.len()) is None);
}

/// The empty plan can be carried out and scores nothing.
pub proof fn lemma_empty_plan(plan: ScanningPlan)
    requires
        plan.queue@.len() == 0,
    ensures
        plan.valid(),
        plan.value() == 0,
        plan.verdict() == Ok::<(u64, u64, u128), PlanError>((0, 0, 0)),
{
    lemma_value_of_none(plan.task.books@, scanned_set(plan.queue@), plan.task.books@.len() as int);
}

/// In a sensible plan, every library signs up in fewer days than the task
/// has: a library that takes as many days as the task has, or more, is in
/// no such plan.
pub proof fn lemma_sensible_entry(task: &ScanningTask, queue: Seq<Signup>, k: int)
    requires
        sensible(task, queue),
        0 <= k < queue.len(),
    ensures
        queue[k].library < task.libraries.len(),
        task.libraries[queue[k].library as int].signup_days < task.days,
        queue[k].books@.len() > 0,
{
    assert(sensible_at(task, queue, k));
}

/// The score of a plan depends on the set of the books it scans alone:
/// not on their order, on the libraries that scan them, or on how often
/// the plan names a book.
pub proof fn lemma_value_ignores_order(task: &ScanningTask, one: Seq<Signup>, other: Seq<Signup>)
    requires
        scanned_set(one) =~= scanned_set(other),
    ensures
        value_of(task.books@, scanned_set(one), task.books@.len() as int) == value_of(
            task.books@,
            scanned_set(other),
            task.books@.len() as int,
        ),
{
    lemma_value_of_agree(
        task.books@,
        scanned_set(one),
        scanned_set(other),
        task.books@.len() as int,
    );
}

/// The sum of the scores of the first `i` of the books `ids`.
pub open spec fn listed_score(task: &ScanningTask, ids: Seq<u32>, i: int) -> nat
    decreases i,
{
    if i <= 0 || i > ids.len() {
        0
    } else {
        listed_score(task, ids, i - 1) + task.books@[ids[i - 1] as int].score as nat
    }
}

/// The sum of the scores of the books of the first `k` entries, book by
/// book.
pub open spec fn queue_score(task: &ScanningTask, queue: Seq<Signup>, k: int) -> nat
    decreases k,
{
    if k <= 0 || k > queue.len() {
        0
    } else {
        queue_score(task, queue, k - 1) + listed_score(
            task,
            queue[k - 1].books@,
            queue[k - 1].books@.len() as int,
        )
    }
}

/// In a plan that names books of the task and none of them twice, what
/// the first `k` entries and the first `i` books of the next scan is
/// worth the sum of their scores.
pub proof fn lemma_score_so_far(task: &ScanningTask, queue: Seq<Signup>, k: int, i: int)
    requires
        no_book_twice(queue),
        forall|e: int, b: int|
            0 <= e < queue.len() && 0 <= b < queue[e].books@.len() ==> #[trigger] queue[e].books@[b]
                < task.books@.len(),
        0 <= k <= queue.len(),
        k < queue.len() ==> 0 <= i <= queue[k].books@.len(),
        k == queue.len() ==> i == 0,
    ensures
        value_of(task.books@, scanned_before(queue, k, i), task.books@.len() as int) == queue_score(
            task,
            queue,
            k,
        ) + if k < queue.len() {
            listed_score(task, queue[k].books@, i)
        } else {
            0
        },
    decreases k, i,
{
    let n = task.books@.len() as int;
    if i > 0 {
        lemma_score_so_far(task, queue, k, i - 1);
        let before = scanned_before(queue, k, i - 1);
        let id = queue[k].books@[i - 1] as int;
        assert(!before.contains(id)) by {
            if before.contains(id) {
                let (e, b) = choose|e: int, b: int|
                    0 <= e < queue.len() && 0 <= b < queue[e].books.len() && (e < k || (e == k && b
                        < i - 1)) && #[trigger] queue[e].books[b] == id;
                assert(queue[e].books[b] != queue[k].books[i - 1]);
            }
        }
        assert(scanned_before(queue, k, i) =~= before.insert(id)) by {
            assert(queue[k].books[i - 1] == id);
        }
        lemma_value_of_insert(task.books@, before, id, n);
    } else if k > 0 {
        let last = queue[k - 1].books@.len() as int;
        lemma_score_so_far(task, queue, k - 1, last);
        assert(scanned_before(queue, k, 0) =~= scanned_before(queue, k - 1, last));
    } else {
        lemma_value_of_none(task.books@, scanned_before(queue, 0, 0), n);
    }
}

/// The score of a plan that names books of the task and none of them
/// twice is the sum of the scores of the books of its entries.
pub proof fn lemma_value_is_sum(task: &ScanningTask, queue: Seq<Signup>)
    requires
        no_book_twice(queue),
        forall|e: int, b: int|
            0 <= e < queue.len() && 0 <= b < queue[e].books@.len() ==> #[trigger] queue[e].books@[b]
                < task.books@.len(),
    ensures
        value_of(task.books@, scanned_set(queue), task.books@.len() as int) == queue_score(
            task,
            queue,
            queue.len() as int,
        ),
{
    lemma_score_so_far(task, queue, queue.len() as int, 0);
}

/// `faster` is `task` with libraries that scan at least as many books a
/// day, and is the same in all else.
pub open spec fn scans_faster(task: &ScanningTask, faster: &ScanningTask) -> bool {
    &&& faster.days == task.days
    &&& faster.books@ == task.books@
    &&& faster.libraries@.len() == task.libraries@.len()
    &&& forall|j: int|
        0 <= j < task.libraries@.len() ==> {
            let slow = #[trigger] task.libraries@[j];
            let fast = faster.libraries@[j];
            &&& fast.id == slow.id
            &&& fast.signup_days == slow.signup_days
            &&& fast.books@ == slow.books@
            &&& fast.scan_rate >= slow.scan_rate
        }
}

/// Some plan for `task` can be carried out and scores `score`.
pub open spec fn achievable(task: &ScanningTask, score: nat) -> bool {
    exists|queue: Seq<Signup>|
        all_clear(task, queue) && #[trigger] value_of(
            task.books@,
            scanned_set(queue),
            task.books@.len() as int,
        ) == score
}

/// `score` is the highest score that a plan for `task` can reach.
pub open spec fn best_score(task: &ScanningTask, score: nat) -> bool {
    &&& achievable(task, score)
    &&& forall|other: nat| achievable(task, other) ==> other <= score
}

/// Where some score can be reached and none above `bound`, one of the
/// scores that can be reached is the best.
pub proof fn lemma_best_score_below(task: &ScanningTask, bound: nat)
    requires
        exists|score: nat| achievable(task, score),
        forall|score: nat| achievable(task, score) ==> score <= bound,
    ensures
        exists|best: nat| best_score(task, best),
    decreases bound,
{
    if achievable(task, bound) {
        assert(best_score(task, bound));
    } else {
        let some = choose|score: nat| achievable(task, score);
        assert(some < bound);
        assert forall|score: nat| achievable(task, score) implies score <= (bound - 1) as nat by {
            assert(score <= bound);
        }
        lemma_best_score_below(task, (bound - 1) as nat);
    }
}

/// Every well-formed task has a best score: the empty plan can be carried
/// out, and no plan scores more than all books together.
pub proof fn lemma_best_score_exists(task: &ScanningTask)
    requires
        task.wf(),
    ensures
        exists|best: nat| best_score(task, best),
{
    let n = task.books@.len();
    let none = Seq::<Signup>::empty();
    lemma_value_of_none(task.books@, scanned_set(none), n as int);
    assert(all_clear(task, none));
    assert(achievable(task, 0));
    assert forall|score: nat| achievable(task, score) implies score <= n * MAX_BOOK_SCORE by {
        let queue = choose|queue: Seq<Signup>|
            all_clear(task, queue) && #[trigger] value_of(
                task.books@,
                scanned_set(queue),
                task.books@.len() as int,
            ) == score;
        lemma_value_of_bound(task.books@, scanned_set(queue), n as int);
    }
    lemma_best_score_below(task, n * MAX_BOOK_SCORE as nat);
}

/// The sign-ups of a plan take the same days in a task whose libraries
/// only scan faster.
pub proof fn lemma_elapsed_faster(
    task: &ScanningTask,
    faster: &ScanningTask,
    queue: Seq<Signup>,
    k: int,
)
    requires
        scans_faster(task, faster),
    ensures
        elapsed(faster, queue, k) == elapsed(task, queue, k),
    decreases k,
{
    if 0 < k <= queue.len() {
        lemma_elapsed_faster(task, faster, queue, k - 1);
        let library = queue[k - 1].library as int;
        if library < task.libraries.len() {
            assert(faster.libraries@[library].signup_days == task.libraries@[library].signup_days);
        }
    }
}

/// A plan that can be carried out can still be carried out, with the same
/// score, when libraries scan faster.
pub proof fn lemma_plan_survives_faster(
    task: &ScanningTask,
    faster: &ScanningTask,
    queue: Seq<Signup>,
)
    requires
        scans_faster(task, faster),
        all_clear(task, queue),
    ensures
        all_clear(faster, queue),
        value_of(faster.books@, scanned_set(queue), faster.books@.len() as int) == value_of(
            task.books@,
            scanned_set(queue),
            task.books@.len() as int,
        ),
{
    assert forall|k: int| 0 <= k < queue.len() implies fault_at(faster, queue, k) is None by {
        lemma_clear_entry(task, queue, k);
        lemma_elapsed_faster(task, faster, queue, k + 1);
        let slow = task.libraries@[queue[k].library as int];
        let fast = faster.libraries@[queue[k].library as int];
        let days = (task.days - elapsed(task, queue, k + 1)) as nat;
        assert(days * slow.scan_rate <= days * fast.scan_rate) by (nonlinear_arith)
            requires
                slow.scan_rate <= fast.scan_rate,
                days >= 0,
        ;
    }
}

/// Monotonicity: when libraries scan faster and all else stays the same,
/// every score that could be reached can still be reached, so the best
/// score that can be reached does not go down.
pub proof fn lemma_faster_is_no_worse(
    task: &ScanningTask,
    faster: &ScanningTask,
    before: nat,
    after: nat,
)
    requires
        scans_faster(task, faster),
        best_score(task, before),
        best_score(faster, after),
    ensures
        before <= after,
{
    let queue = choose|queue: Seq<Signup>|
        all_clear(task, queue) && #[trigger] value_of(
            task.books@,
            scanned_set(queue),
            task.books@.len() as int,
        ) == before;
    lemma_plan_survives_faster(task, faster, queue);
    assert(achievable(faster, before));
}

} // verus!
