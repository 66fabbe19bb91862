//! A scanning plan: the libraries in the order in which they sign up, each
//! with the books it scans, and the validation and scoring of such a plan.

use crate::capacity::{capacity, idle_days, scan_capacity, unused_days};
use crate::task::{first_unknown, holds_id, BookRef, ScanningTask, MAX_BOOK_SCORE};
use vstd::prelude::*;

verus! {

/// One entry of a plan: a library, by its identifier, and the identifiers
/// of the books that it scans.
pub struct Signup {
    pub library: u32,
    pub books: Vec<u32>,
}

/// Why a plan cannot be carried out.
#[derive(Clone, Copy, Debug, PartialEq, Eq, Structural)]
pub enum PlanError {
    /// The plan names a library that the task does not have.
    UnknownLibrary { library: u32 },
    /// The library cannot finish signing up within the days that are left.
    SignupImpossible { library: u32 },
    /// The library is to scan more books than it can in the days left
    /// after its sign-up.
    TooManyBooks { library: u32, books: usize },
    /// The plan names a book that the task does not have.
    UnknownBook { library: u32, book: u32 },
}

/// The first identifier of the list that is not below `known`, if there is one.
pub open spec fn unknown_book(ids: Seq<u32>, known: nat) -> Option<u32> {
    if forall|b: int| 0 <= b < ids.len() ==> ids[b] < known {
        None
    } else {
        Some(ids[choose|at: int| first_unknown(ids, known, at)])
    }
}

/// The days that the sign-ups of the first `k` entries take together. An
/// entry whose library the task does not have takes none.
pub open spec fn elapsed(task: &ScanningTask, queue: Seq<Signup>, k: int) -> nat
    decreases k,
{
    if k <= 0 || k > queue.len() {
        0
    } else {
        let library = queue[k - 1].library as int;
        let days: nat = if library < task.libraries.len() {
            task.libraries[library].signup_days as nat
        } else {
            0
        };
        elapsed(task, queue, k - 1) + days
    }
}

/// What is wrong with entry `k`, given the entries before it, if anything.
pub open spec fn fault_at(task: &ScanningTask, queue: Seq<Signup>, k: int) -> Option<PlanError> {
    let entry = queue[k];
    if entry.library >= task.libraries.len() {
        Some(PlanError::UnknownLibrary { library: entry.library })
    } else {
        let library = task.libraries[entry.library as int];
        let used = elapsed(task, queue, k + 1);
        if used > task.days {
            Some(PlanError::SignupImpossible { library: entry.library })
        } else if entry.books.len() > scan_capacity(
            (task.days - used) as nat,
            library.scan_rate as nat,
        ) {
            Some(PlanError::TooManyBooks { library: entry.library, books: entry.books.len() })
        } else {
            match unknown_book(entry.books@, task.books@.len()) {
                Some(book) => Some(PlanError::UnknownBook { library: entry.library, book }),
                None => None,
            }
        }
    }
}

/// No entry has a fault.
pub open spec fn all_clear(task: &ScanningTask, queue: Seq<Signup>) -> bool {
    forall|k: int| 0 <= k < queue.len() ==> fault_at(task, queue, k) is None
}

/// Entry `k` is the first entry with a fault.
pub open spec fn first_fault(task: &ScanningTask, queue: Seq<Signup>, k: int) -> bool {
    &&& 0 <= k < queue.len()
    &&& fault_at(task, queue, k) is Some
    &&& forall|j: int| 0 <= j < k ==> fault_at(task, queue, j) is None
}

/// The identifiers of the books that some entry among the first `k`, or
/// entry `k` among its first `i` books, scans.
pub open spec fn scanned_before(queue: Seq<Signup>, k: int, i: int) -> Set<int> {
    Set::new(
        |id: int|
            exists|e: int, b: int|
                0 <= e < queue.len() && 0 <= b < queue[e].books.len() && (e < k || (e == k && b
                    < i)) && #[trigger] queue[e].books[b] == id,
    )
}

/// The identifiers of all books that the plan scans.
pub open spec fn scanned_set(queue: Seq<Signup>) -> Set<int> {
    scanned_before(queue, queue.len() as int, 0)
}

/// The sum of the scores of those among the first `upto` books of the
/// catalog whose identifier is in `chosen`: each book counts once.
pub open spec fn value_of(books: Seq<BookRef>, chosen: Set<int>, upto: int) -> nat
    decreases upto,
{
    if upto <= 0 || upto > books.len() {
        0
    } else {
        let rest = value_of(books, chosen, upto - 1);
        if chosen.contains(upto - 1) {
            rest + books[upto - 1].score as nat
        } else {
            rest
        }
    }
}

/// The number of books that the first `k` entries name together, a book
/// counted as often as it is named.
pub open spec fn books_named(queue: Seq<Signup>, k: int) -> nat
    decreases k,
{
    if k <= 0 || k > queue.len() {
        0
    } else {
        books_named(queue, k - 1) + queue[k - 1].books@.len()
    }
}

/// The days that the library of entry `k` stands idle before the deadline.
pub open spec fn idle_at(task: &ScanningTask, queue: Seq<Signup>, k: int) -> nat {
    let entry = queue[k];
    let library = task.libraries[entry.library as int];
    idle_days(
        (task.days - elapsed(task, queue, k + 1)) as nat,
        library.scan_rate as nat,
        entry.books.len() as nat,
    )
}

/// The number of entries among the first `k` whose library stands idle for
/// a day or more.
pub open spec fn idle_libraries(task: &ScanningTask, queue: Seq<Signup>, k: int) -> nat
    decreases k,
{
    if k <= 0 || k > queue.len() {
        0
    } else {
        let rest = idle_libraries(task, queue, k - 1);
        if idle_at(task, queue, k - 1) > 0 {
            rest + 1
        } else {
            rest
        }
    }
}

/// The idle days of the first `k` entries together.
pub open spec fn idle_slots(task: &ScanningTask, queue: Seq<Signup>, k: int) -> nat
    decreases k,
{
    if k <= 0 || k > queue.len() {
        0
    } else {
        idle_slots(task, queue, k - 1) + idle_at(task, queue, k - 1)
    }
}

/// No book is scanned twice: not by two libraries, and not twice by one.
pub open spec fn no_book_twice(queue: Seq<Signup>) -> bool {
    forall|e1: int, b1: int, e2: int, b2: int|
        0 <= e1 < queue.len() && 0 <= b1 < queue[e1].books.len() && 0 <= e2 < queue.len() && 0
            <= b2 < queue[e2].books.len() && (e1 != e2 || b1 != b2) ==> #[trigger] queue[e1].books[b1]
            != #[trigger] queue[e2].books[b2]
}

/// No library signs up twice.
pub open spec fn no_library_twice(queue: Seq<Signup>) -> bool {
    forall|k1: int, k2: int|
        0 <= k1 < k2 < queue.len() ==> (#[trigger] queue[k1]).library != (#[trigger] queue[k2]).library
}

/// Entry `k` names a library of the task that signs up in fewer days than
/// the task has, and has it scan at least one book, all of them books that
/// the library holds.
pub open spec fn sensible_at(task: &ScanningTask, queue: Seq<Signup>, k: int) -> bool {
    let entry = queue[k];
    let library = task.libraries[entry.library as int];
    &&& entry.library < task.libraries.len()
    &&& library.signup_days < task.days
    &&& entry.books.len() > 0
    &&& forall|b: int|
        0 <= b < entry.books.len() ==> holds_id(library.books@, #[trigger] entry.books[b] as int)
}

/// Every entry is sensible.
pub open spec fn sensible(task: &ScanningTask, queue: Seq<Signup>) -> bool {
    forall|k: int| 0 <= k < queue.len() ==> sensible_at(task, queue, k)
}

/// The library signs up in the plan.
pub open spec fn signs_up(queue: Seq<Signup>, library: int) -> bool {
    exists|k: int| 0 <= k < queue.len() && (#[trigger] queue[k]).library == library
}

/// The library can add nothing to a plan that scans the books `covered`
/// and leaves `days_left` days: it cannot sign up in fewer days than are
/// left, or it scans no book a day, or each of its books is scanned
/// already or scores nothing.
pub open spec fn spent(task: &ScanningTask, library: int, covered: Set<int>, days_left: int) -> bool {
    let l = task.libraries[library];
    ||| l.signup_days >= days_left
    ||| l.scan_rate == 0
    ||| forall|i: int|
        0 <= i < l.books.len() ==> covered.contains((#[trigger] l.books[i]).id as int)
            || l.books[i].score == 0
}

/// What is spent stays spent when more books are scanned and fewer days
/// are left.
pub proof fn lemma_spent_stays(
    task: &ScanningTask,
    library: int,
    covered: Set<int>,
    days_left: int,
    more: Set<int>,
    fewer: int,
)
    requires
        spent(task, library, covered, days_left),
        covered.subset_of(more),
        fewer <= days_left,
    ensures
        spent(task, library, more, fewer),
{
}

/// The first `k` entries of a queue take the same days whatever follows them.
pub proof fn lemma_elapsed_push(task: &ScanningTask, queue: Seq<Signup>, entry: Signup, k: int)
    requires
        0 <= k <= queue.len(),
    ensures
        elapsed(task, queue.push(entry), k) == elapsed(task, queue, k),
    decreases k,
{
    if k > 0 {
        lemma_elapsed_push(task, queue, entry, k - 1);
        assert(queue.push(entry)[k - 1] == queue[k - 1]);
    }
}

/// An entry has the same fault, or none, whatever follows it.
pub proof fn lemma_fault_push(task: &ScanningTask, queue: Seq<Signup>, entry: Signup, k: int)
    requires
        0 <= k < queue.len(),
    ensures
        fault_at(task, queue.push(entry), k) == fault_at(task, queue, k),
{
    lemma_elapsed_push(task, queue, entry, k + 1);
    assert(queue.push(entry)[k] == queue[k]);
}

/// A further entry adds its books to the scanned books.
pub proof fn lemma_scanned_push(queue: Seq<Signup>, entry: Signup)
    ensures
        forall|id: int|
            scanned_set(queue.push(entry)).contains(id) <==> scanned_set(queue).contains(id) || exists|
                b: int,
            | 0 <= b < entry.books.len() && #[trigger] entry.books[b] == id,
{
    let longer = queue.push(entry);
    assert forall|id: int|
        scanned_set(longer).contains(id) <==> scanned_set(queue).contains(id) || exists|b: int|
            0 <= b < entry.books.len() && #[trigger] entry.books[b] == id by {
        if scanned_set(longer).contains(id) {
            let (e, b) = choose|e: int, b: int|
                0 <= e < longer.len() && 0 <= b < longer[e].books.len() && #[trigger] longer[e].books[b]
                    == id;
            if e < queue.len() {
                assert(queue[e].books[b] == id);
            } else {
                assert(entry.books[b] == id);
            }
        }
        if scanned_set(queue).contains(id) {
            let (e, b) = choose|e: int, b: int|
                0 <= e < queue.len() && 0 <= b < queue[e].books.len() && #[trigger] queue[e].books[b]
                    == id;
            assert(longer[e].books[b] == id);
        }
        if exists|b: int| 0 <= b < entry.books.len() && #[trigger] entry.books[b] == id {
            let b = choose|b: int| 0 <= b < entry.books.len() && #[trigger] entry.books[b] == id;
            assert(longer[queue.len() as int].books[b] == id);
        }
    }
}

/// A plan stays feasible, orderly and free of repeats when a library that
/// is not in it signs up next in the days that are left and scans books of
/// its own that the plan does not scan yet, no more than it has time for.
pub proof fn lemma_plan_push(task: &ScanningTask, queue: Seq<Signup>, entry: Signup, days_left: nat)
    requires
        task.wf(),
        all_clear(task, queue),
        no_book_twice(queue),
        no_library_twice(queue),
        sensible(task, queue),
        elapsed(task, queue, queue.len() as int) + days_left == task.days,
        entry.library < task.libraries.len(),
        task.libraries[entry.library as int].signup_days < days_left,
        0 < entry.books.len() <= scan_capacity(
            (days_left - task.libraries[entry.library as int].signup_days) as nat,
            task.libraries[entry.library as int].scan_rate as nat,
        ),
        forall|b: int|
            0 <= b < entry.books.len() ==> (#[trigger] entry.books[b]) < task.books.len()
                && !scanned_set(queue).contains(entry.books[b] as int) && holds_id(
                task.libraries[entry.library as int].books@,
                entry.books[b] as int,
            ),
        forall|b1: int, b2: int|
            0 <= b1 < b2 < entry.books.len() ==> entry.books[b1] != entry.books[b2],
        forall|k: int| 0 <= k < queue.len() ==> (#[trigger] queue[k]).library != entry.library,
    ensures
        all_clear(task, queue.push(entry)),
        no_book_twice(queue.push(entry)),
        no_library_twice(queue.push(entry)),
        sensible(task, queue.push(entry)),
        elapsed(task, queue.push(entry), queue.len() as int + 1) == elapsed(
            task,
            queue,
            queue.len() as int,
        ) + task.libraries[entry.library as int].signup_days,
{
    let longer = queue.push(entry);
    let last = queue.len() as int;
    lemma_elapsed_push(task, queue, entry, last);
    assert(longer[last] == entry);
    assert forall|k: int| 0 <= k < longer.len() implies fault_at(task, longer, k) is None by {
        if k < last {
            lemma_fault_push(task, queue, entry, k);
        }
    }
    assert forall|k: int| 0 <= k < longer.len() implies sensible_at(task, longer, k) by {
        if k < last {
            assert(longer[k] == queue[k]);
            assert(sensible_at(task, queue, k));
        }
    }
    assert forall|k1: int, k2: int| 0 <= k1 < k2 < longer.len() implies (
    #[trigger] longer[k1]).library != (#[trigger] longer[k2]).library by {
        assert(longer[k1] == queue[k1]);
        if k2 < last {
            assert(longer[k2] == queue[k2]);
        }
    }
    assert forall|e1: int, b1: int, e2: int, b2: int|
        0 <= e1 < longer.len() && 0 <= b1 < longer[e1].books.len() && 0 <= e2 < longer.len() && 0
            <= b2 < longer[e2].books.len() && (e1 != e2 || b1 != b2) implies #[trigger] longer[e1].books[b1]
        != #[trigger] longer[e2].books[b2] by {
        if e1 < last && e2 < last {
            assert(longer[e1] == queue[e1] && longer[e2] == queue[e2]);
            assert(queue[e1].books[b1] != queue[e2].books[b2]);
        } else if e1 < last {
            assert(longer[e1] == queue[e1]);
            assert(scanned_set(queue).contains(queue[e1].books[b1] as int));
        } else if e2 < last {
            assert(longer[e2] == queue[e2]);
            assert(scanned_set(queue).contains(queue[e2].books[b2] as int));
        } else {
            if b1 < b2 {
                assert(entry.books[b1] != entry.books[b2]);
            } else {
                assert(entry.books[b2] != entry.books[b1]);
            }
        }
    }
}

/// Adding a book of the catalog that was not chosen before adds its score.
pub proof fn lemma_value_of_insert(books: Seq<BookRef>, chosen: Set<int>, id: int, upto: int)
    requires
        0 <= upto <= books.len(),
        !chosen.contains(id),
    ensures
        value_of(books, chosen.insert(id), upto) == value_of(books, chosen, upto) + if 0 <= id
            < upto {
            books[id].score as nat
        } else {
            0
        },
    decreases upto,
{
    if upto > 0 {
        lemma_value_of_insert(books, chosen, id, upto - 1);
    }
}

/// No choice of books is worth more than `MAX_BOOK_SCORE` a book.
pub proof fn lemma_value_of_bound(books: Seq<BookRef>, chosen: Set<int>, upto: int)
    requires
        0 <= upto <= books.len(),
        forall|i: int| 0 <= i < books.len() ==> (#[trigger] books[i]).score <= MAX_BOOK_SCORE,
    ensures
        value_of(books, chosen, upto) <= upto * MAX_BOOK_SCORE,
    decreases upto,
{
    if upto > 0 {
        lemma_value_of_bound(books, chosen, upto - 1);
    }
}

/// A choice that holds none of the first `upto` identifiers is worth nothing.
pub proof fn lemma_value_of_none(books: Seq<BookRef>, chosen: Set<int>, upto: int)
    requires
        forall|id: int| 0 <= id < upto ==> !chosen.contains(id),
    ensures
        value_of(books, chosen, upto) == 0,
    decreases upto,
{
    if 0 < upto <= books.len() {
        lemma_value_of_none(books, chosen, upto - 1);
    }
}

/// Two choices that agree on the first `upto` identifiers are worth the same.
pub proof fn lemma_value_of_agree(books: Seq<BookRef>, a: Set<int>, b: Set<int>, upto: int)
    requires
        forall|id: int| 0 <= id < upto ==> (a.contains(id) <==> b.contains(id)),
    ensures
        value_of(books, a, upto) == value_of(books, b, upto),
    decreases upto,
{
    if 0 < upto <= books.len() {
        lemma_value_of_agree(books, a, b, upto - 1);
    }
}

/// A list of `len` marks, none of them set.
pub fn unmarked(len: usize) -> (marks: Vec<bool>)
    ensures
        marks.len() == len,
        forall|i: int| 0 <= i < len ==> !marks[i],
{
    let mut marks: Vec<bool> = Vec::new();
    let mut i: usize = 0;
    while i < len
        invariant
            i <= len,
            marks.len() == i,
            forall|k: int| 0 <= k < i ==> !marks[k],
        decreases len - i,
    {
        marks.push(false);
        i += 1;
    }
    marks
}

/// The libraries of a task in the order in which they sign up, each with
/// the books it scans.
pub struct ScanningPlan<'a> {
    pub task: &'a ScanningTask,
    pub queue: Vec<Signup>,
}

impl<'a> ScanningPlan<'a> {
    /// The plan is a plan for a well-formed task.
    pub open spec fn wf(&self) -> bool {
        self.task.wf()
    }

    /// Every entry can be carried out as planned.
    pub open spec fn valid(&self) -> bool {
        all_clear(self.task, self.queue@)
    }

    /// No book is scanned twice.
    pub open spec fn distinct(&self) -> bool {
        no_book_twice(self.queue@)
    }

    /// No library signs up twice, and every entry is sensible: its library
    /// signs up in fewer days than the task has and scans at least one
    /// book, all of them its own.
    pub open spec fn orderly(&self) -> bool {
        &&& no_library_twice(self.queue@)
        &&& sensible(self.task, self.queue@)
    }

    /// The days that the plan leaves after its last sign-up.
    pub open spec fn days_left(&self) -> int {
        self.task.days - elapsed(self.task, self.queue@, self.queue@.len() as int)
    }

    /// No library could be added at the end of the plan to any gain:
    /// every library of the task that is not in the plan cannot sign up
    /// in the days that the plan leaves, or scans no book a day, or
    /// holds no book with a score above zero that the plan does not scan.
    pub open spec fn maximal(&self) -> bool {
        forall|j: int|
            0 <= j < self.task.libraries.len() ==> signs_up(self.queue@, j) || #[trigger] spent(
                self.task,
                j,
                scanned_set(self.queue@),
                self.days_left(),
            )
    }

    /// The total score of the plan: the sum of the scores of the books it
    /// scans, each counted once however often the plan names it.
    pub open spec fn value(&self) -> nat {
        value_of(self.task.books@, scanned_set(self.queue@), self.task.books@.len() as int)
    }

    /// What validating the plan gives: the fault of the first entry that has
    /// one; else the total score, the number of libraries with idle days and
    /// the sum of those days.
    pub open spec fn verdict(&self) -> Result<(u64, u64, u128), PlanError> {
        if exists|k: int| first_fault(self.task, self.queue@, k) {
            let k = choose|k: int| first_fault(self.task, self.queue@, k);
            Err(fault_at(self.task, self.queue@, k).unwrap())
        } else {
            let n = self.queue@.len() as int;
            Ok(
                (
                    self.value() as u64,
                    idle_libraries(self.task, self.queue@, n) as u64,
                    idle_slots(self.task, self.queue@, n) as u128,
                ),
            )
        }
    }

    /// The empty plan for `task`.
    pub fn new(task: &'a ScanningTask) -> (plan: Self)
        ensures
            plan.task == task,
            plan.queue@.len() == 0,
    {
        ScanningPlan { task, queue: Vec::new() }
    }

    /// Appends a library and the books it scans.
    pub fn add_library(&mut self, library: u32, books: Vec<u32>)
        ensures
            final(self).task == old(self).task,
            final(self).queue@ == old(self).queue@.push(Signup { library, books }),
    {
        self.queue.push(Signup { library, books });
    }

    /// Validates the plan and scores it: replays the sign-ups in order and
    /// reports the first entry that cannot be carried out; else the total
    /// score, the number of libraries with idle days, and the sum of their
    /// idle days.
    pub fn score(&self) -> (r: Result<(u64, u64, u128), PlanError>)
        requires
            self.wf(),
        ensures
            r == self.verdict(),
            r is Ok <==> self.valid(),
            match r {
                Ok((score, idle_library_count, idle_slot_count)) => {
                    &&& score == self.value()
                    &&& idle_library_count == idle_libraries(
                        self.task,
                        self.queue@,
                        self.queue@.len() as int,
                    )
                    &&& idle_slot_count == idle_slots(
                        self.task,
                        self.queue@,
                        self.queue@.len() as int,
                    )
                },
                Err(_) => true,
            },
    {
        let task = self.task;
        let n = task.books.len();
        let mut seen = unmarked(n);
        let mut total: u64 = 0;
        let mut idle_library_count: u64 = 0;
        let mut idle_slot_count: u128 = 0;
        let mut days_left = task.days;
        let mut k: usize = 0;
        proof {
            lemma_value_of_none(task.books@, scanned_before(self.queue@, 0, 0), n as int);
        }
        while k < self.queue.len()
            invariant
                self.wf(),
                task == self.task,
                n == task.books.len(),
                k <= self.queue.len(),
                forall|j: int| 0 <= j < k ==> fault_at(task, self.queue@, j) is None,
                days_left == task.days - elapsed(task, self.queue@, k as int),
                seen.len() == n,
                forall|id: int|
                    0 <= id < n ==> (seen[id] <==> scanned_before(self.queue@, k as int, 0).contains(
                        id,
                    )),
                total == value_of(task.books@, scanned_before(self.queue@, k as int, 0), n as int),
                idle_library_count == idle_libraries(task, self.queue@, k as int),
                idle_slot_count == idle_slots(task, self.queue@, k as int),
                idle_library_count <= k,
                idle_slot_count <= k * u64::MAX,
            decreases self.queue.len() - k,
        {
            let entry = &self.queue[k];
            if entry.library as usize >= task.libraries.len() {
                assert(first_fault(task, self.queue@, k as int));
                return Err(PlanError::UnknownLibrary { library: entry.library });
            }
            let library = &task.libraries[entry.library as usize];
            if library.signup_days > days_left {
                assert(first_fault(task, self.queue@, k as int));
                return Err(PlanError::SignupImpossible { library: entry.library });
            }
            days_left -= library.signup_days;
            if entry.books.len() as u128 > capacity(days_left, library.scan_rate) {
                assert(first_fault(task, self.queue@, k as int));
                return Err(
                    PlanError::TooManyBooks { library: entry.library, books: entry.books.len() },
                );
            }
            let mut i: usize = 0;
            while i < entry.books.len()
                invariant
                    self.wf(),
                    task == self.task,
                    n == task.books.len(),
                    k < self.queue.len(),
                    entry == self.queue[k as int],
                    i <= entry.books.len(),
                    forall|j: int| 0 <= j < k ==> fault_at(task, self.queue@, j) is None,
                    fault_at(task, self.queue@, k as int) == match unknown_book(
                        entry.books@,
                        n as nat,
                    ) {
                        Some(book) => Some(PlanError::UnknownBook { library: entry.library, book }),
                        None => None,
                    },
                    forall|b: int| 0 <= b < i ==> entry.books[b] < n,
                    seen.len() == n,
                    forall|id: int|
                        0 <= id < n ==> (seen[id] <==> scanned_before(
                            self.queue@,
                            k as int,
                            i as int,
                        ).contains(id)),
                    total == value_of(
                        task.books@,
                        scanned_before(self.queue@, k as int, i as int),
                        n as int,
                    ),
                decreases entry.books.len() - i,
            {
                let book = entry.books[i];
                if book as usize >= n {
                    assert(first_unknown(entry.books@, n as nat, i as int));
                    assert(first_fault(task, self.queue@, k as int));
                    return Err(PlanError::UnknownBook { library: entry.library, book });
                }
                let ghost before = scanned_before(self.queue@, k as int, i as int);
                let ghost after = scanned_before(self.queue@, k as int, i + 1);
                proof {
                    assert(self.queue@[k as int].books[i as int] == book);
                    assert(after.contains(book as int));
                    if before.contains(book as int) {
                        assert(after =~= before);
                    } else {
                        assert(after =~= before.insert(book as int));
                        lemma_value_of_insert(task.books@, before, book as int, n as int);
                        lemma_value_of_bound(task.books@, after, n as int);
                        assert(n * MAX_BOOK_SCORE <= u64::MAX) by (nonlinear_arith)
                            requires
                                0 <= n <= 0xffff_ffff,
                                MAX_BOOK_SCORE == 0xffff_ffff,
                        ;
                    }
                }
                if !seen[book as usize] {
                    seen.set(book as usize, true);
                    total += task.books[book as usize].score;
                }
                i += 1;
            }
            proof {
                assert(scanned_before(self.queue@, k as int, i as int) =~= scanned_before(
                    self.queue@,
                    k + 1,
                    0,
                ));
                assert(unknown_book(entry.books@, n as nat) is None);
            }
            let idle = unused_days(days_left, library.scan_rate, entry.books.len());
            if idle > 0 {
                idle_library_count += 1;
                idle_slot_count += idle as u128;
            }
            k += 1;
        }
        proof {
            assert(scanned_before(self.queue@, k as int, 0) == scanned_set(self.queue@));
            lemma_value_of_bound(task.books@, scanned_set(self.queue@), n as int);
            assert(n * MAX_BOOK_SCORE <= u64::MAX) by (nonlinear_arith)
                requires
                    0 <= n <= 0xffff_ffff,
                    MAX_BOOK_SCORE == 0xffff_ffff,
            ;
        }
        Ok((total, idle_library_count, idle_slot_count))
    }

    /// The number of books that the plan has scanned, counted library by
    /// library.
    pub fn count_scanned_books(&self) -> (count: u128)
        ensures
            count == books_named(self.queue@, self.queue@.len() as int),
    {
        let mut count: u128 = 0;
        let mut k: usize = 0;
        while k < self.queue.len()
            invariant
                k <= self.queue.len(),
                count == books_named(self.queue@, k as int),
                count <= k * usize::MAX,
            decreases self.queue.len() - k,
        {
            assert((k + 1) * usize::MAX <= u128::MAX) by (nonlinear_arith)
                requires
                    0 <= k < usize::MAX,
                    usize::MAX <= 0xffff_ffff_ffff_ffff,
            ;
            assert((k + 1) * usize::MAX == k * usize::MAX + usize::MAX) by (nonlinear_arith);
            count += self.queue[k].books.len() as u128;
            k += 1;
        }
        count
    }

    /// The number of libraries that the plan signs up.
    pub fn count_signedup_libraries(&self) -> (count: usize)
        ensures
            count == self.queue@.len(),
    {
        self.queue.len()
    }
}

} // verus!
