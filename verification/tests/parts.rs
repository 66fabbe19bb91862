use hashcode2020::capacity::{capacity, unused_days};
use hashcode2020::copies::CopyCount;
use hashcode2020::order::{comes_before, sort_books, Ranking};
use hashcode2020::pending::{PendingLibrary, Pick, Prospect};
use hashcode2020::plan::unmarked;
use hashcode2020::planner::{mark_all, PlanBuilder, Planning};
use hashcode2020::task::TaskError;
use hashcode2020::{BookRef, Library, ScanningTask};

fn ids(books: &[BookRef]) -> Vec<u32> {
    books.iter().map(|book| book.id()).collect()
}

fn counts_of(copy_count: &CopyCount, books: u32) -> Vec<usize> {
    (0..books).map(|id| copy_count.count(id)).collect()
}

fn three_libraries() -> ScanningTask {
    let mut task = ScanningTask::new(10, 3, vec![4, 9, 9, 2, 7]);
    task.add_library(2, 2, vec![0, 1, 2, 3, 4]).unwrap();
    task.add_library(1, 1, vec![1, 3]).unwrap();
    task.add_library(20, 1, vec![1, 4]).unwrap();
    task
}

#[test]
fn book_keeps_its_identifier_and_score() {
    let book = BookRef::new(3, 17);
    assert_eq!(book.id(), 3);
    assert_eq!(book.score(), 17);
    assert_eq!(book, BookRef { id: 3, score: 17 });
}

#[test]
fn task_numbers_its_books_and_libraries() {
    let mut task = ScanningTask::new(9, 2, vec![5, 0, 4294967295]);
    assert_eq!(task.days, 9);
    assert_eq!(
        task.books,
        vec![BookRef::new(0, 5), BookRef::new(1, 0), BookRef::new(2, 4294967295)]
    );
    assert!(task.libraries.is_empty());
    assert_eq!(task.add_library(3, 4, vec![2, 0]), Ok(()));
    assert_eq!(task.add_library(5, 6, vec![]), Ok(()));
    assert_eq!(task.libraries.len(), 2);
    assert_eq!((task.libraries[0].id, task.libraries[0].signup_days, task.libraries[0].scan_rate), (0, 3, 4));
    assert_eq!(task.libraries[0].books, vec![BookRef::new(0, 5), BookRef::new(2, 4294967295)]);
    assert_eq!((task.libraries[1].id, task.libraries[1].signup_days, task.libraries[1].scan_rate), (1, 5, 6));
    assert!(task.libraries[1].books.is_empty());
    assert!(task.is_well_formed());
}

#[test]
fn library_holds_a_book_once() {
    let mut task = ScanningTask::new(9, 1, vec![1, 2, 3, 4]);
    task.add_library(0, 1, vec![3, 1, 3, 0, 1, 1]).unwrap();
    assert_eq!(ids(&task.libraries[0].books), vec![0, 1, 3]);
}

#[test]
fn library_with_an_unknown_book_is_refused() {
    let mut task = ScanningTask::new(9, 1, vec![1, 2]);
    assert_eq!(
        task.add_library(0, 1, vec![1, 2, 0, 7]),
        Err(TaskError::InvalidBookId { book: 2, library: 0 })
    );
    assert!(task.libraries.is_empty());
    task.add_library(0, 1, vec![1]).unwrap();
    assert_eq!(
        task.add_library(0, 1, vec![9]),
        Err(TaskError::InvalidBookId { book: 9, library: 1 })
    );
    assert_eq!(task.libraries.len(), 1);
}

#[test]
fn ill_formed_tasks_are_told_apart() {
    let mut task = three_libraries();
    assert!(task.is_well_formed());
    task.books[1] = BookRef::new(1, 8);
    assert!(!task.is_well_formed());
    let mut task = three_libraries();
    task.books[2] = BookRef::new(3, 9);
    assert!(!task.is_well_formed());
    let mut task = three_libraries();
    task.books[0] = BookRef::new(0, 4294967296);
    task.libraries[0].books[0] = BookRef::new(0, 4294967296);
    assert!(!task.is_well_formed());
    let mut task = three_libraries();
    task.libraries[1].id = 2;
    assert!(!task.is_well_formed());
    let mut task = three_libraries();
    task.libraries[1].books.swap(0, 1);
    assert!(!task.is_well_formed());
    let mut task = three_libraries();
    task.libraries[1].books.push(BookRef::new(3, 2));
    assert!(!task.is_well_formed());
    let mut task = three_libraries();
    task.libraries[1].books.push(BookRef::new(5, 2));
    assert!(!task.is_well_formed());
    let library = Library::new(0, 1, 1, vec![BookRef::new(1, 9), BookRef::new(4, 7)]);
    assert!(library.is_well_formed(&three_libraries().books));
    assert!(!library.is_well_formed(&vec![BookRef::new(0, 4), BookRef::new(1, 9)]));
}

#[test]
fn task_sums_up_its_books() {
    let task = three_libraries();
    assert_eq!(task.total_book_score(), 31);
    assert_eq!(task.total_book_copies(), 9);
    assert_eq!(task.min_book_score(), 2);
    assert_eq!(task.max_book_score(), 9);
    assert_eq!(counts_of(&task.count_book_copies(), 6), vec![1, 3, 1, 2, 2, 0]);

    let empty = ScanningTask::new(3, 0, vec![]);
    assert_eq!(empty.total_book_score(), 0);
    assert_eq!(empty.total_book_copies(), 0);
    assert_eq!(empty.min_book_score(), 0);
    assert_eq!(empty.max_book_score(), 0);
    assert_eq!(counts_of(&empty.count_book_copies(), 2), vec![0, 0]);

    let large = ScanningTask::new(3, 0, vec![4294967295, 4294967295, 4294967295]);
    assert_eq!(large.total_book_score(), 12884901885);
}

#[test]
fn builder_knows_whether_the_scores_are_all_the_same() {
    let task = three_libraries();
    let builder = PlanBuilder::new(&task);
    assert!(!builder.identical_scores);
    assert_eq!(counts_of(&builder.copy_count, 5), vec![1, 3, 1, 2, 2]);
    let flat = ScanningTask::new(3, 0, vec![6, 6, 6]);
    assert!(PlanBuilder::new(&flat).identical_scores);
    let none = ScanningTask::new(3, 0, vec![]);
    assert!(PlanBuilder::new(&none).identical_scores);
}

#[test]
fn copies_are_counted_up_and_down() {
    let mut copy_count = CopyCount::new(3);
    assert_eq!(counts_of(&copy_count, 4), vec![0, 0, 0, 0]);
    copy_count.increment(1);
    copy_count.increment(1);
    copy_count.increment(2);
    copy_count.increment(7);
    assert_eq!(counts_of(&copy_count, 8), vec![0, 2, 1, 0, 0, 0, 0, 0]);
    let kept = copy_count.duplicate();
    copy_count.decrement(1);
    copy_count.decrement(0);
    copy_count.decrement(7);
    assert_eq!(counts_of(&copy_count, 4), vec![0, 1, 1, 0]);
    copy_count.discard(&vec![BookRef::new(2, 5), BookRef::new(0, 5), BookRef::new(1, 5)]);
    assert_eq!(counts_of(&copy_count, 4), vec![0, 0, 0, 0]);
    assert_eq!(counts_of(&kept, 4), vec![0, 2, 1, 0]);
}

#[test]
fn books_are_ranked() {
    let mut copy_count = CopyCount::new(4);
    copy_count.increment(0);
    copy_count.increment(0);
    copy_count.increment(1);
    copy_count.increment(3);
    copy_count.increment(3);
    let a = BookRef::new(0, 5);
    let b = BookRef::new(1, 5);
    let c = BookRef::new(2, 9);
    let d = BookRef::new(3, 5);
    assert!(comes_before(&a, &b, &copy_count, Ranking::Identifier));
    assert!(!comes_before(&b, &a, &copy_count, Ranking::Identifier));
    assert!(!comes_before(&a, &a, &copy_count, Ranking::Identifier));
    assert!(comes_before(&b, &a, &copy_count, Ranking::Scarcity));
    assert!(comes_before(&c, &b, &copy_count, Ranking::Scarcity));
    assert!(comes_before(&a, &d, &copy_count, Ranking::Scarcity));
    assert!(!comes_before(&d, &a, &copy_count, Ranking::Scarcity));
    assert!(comes_before(&c, &b, &copy_count, Ranking::Value));
    assert!(comes_before(&b, &a, &copy_count, Ranking::Value));
    assert!(comes_before(&a, &d, &copy_count, Ranking::Value));
    assert!(!comes_before(&a, &c, &copy_count, Ranking::Value));

    let mut books = vec![d, a, c, b];
    sort_books(&mut books, &copy_count, Ranking::Identifier);
    assert_eq!(ids(&books), vec![0, 1, 2, 3]);
    let mut books = vec![d, a, c, b];
    sort_books(&mut books, &copy_count, Ranking::Scarcity);
    assert_eq!(ids(&books), vec![2, 1, 0, 3]);
    let mut books = vec![d, a, c, b];
    sort_books(&mut books, &copy_count, Ranking::Value);
    assert_eq!(ids(&books), vec![2, 1, 0, 3]);
    let mut books = vec![d, d, a, d, a];
    sort_books(&mut books, &copy_count, Ranking::Value);
    assert_eq!(ids(&books), vec![0, 0, 3, 3, 3]);
    let mut books: Vec<BookRef> = vec![];
    sort_books(&mut books, &copy_count, Ranking::Value);
    assert!(books.is_empty());
}

#[test]
fn many_books_are_ranked() {
    let copy_count = CopyCount::new(0);
    let mut books: Vec<BookRef> = (0..1000u32)
        .map(|i| BookRef::new(i, u64::from(i * 7919 % 101)))
        .collect();
    sort_books(&mut books, &copy_count, Ranking::Value);
    assert_eq!(books.len(), 1000);
    for pair in books.windows(2) {
        assert!(
            pair[0].score() > pair[1].score()
                || (pair[0].score() == pair[1].score() && pair[0].id() < pair[1].id())
        );
    }
    let mut seen = ids(&books);
    seen.sort();
    assert_eq!(seen, (0..1000).collect::<Vec<u32>>());
}

#[test]
fn capacity_is_days_times_rate() {
    assert_eq!(capacity(0, 5), 0);
    assert_eq!(capacity(5, 0), 0);
    assert_eq!(capacity(3, 4), 12);
    assert_eq!(
        capacity(u64::MAX, u64::MAX),
        340282366920938463426481119284349108225
    );
}

#[test]
fn idle_days_are_what_scanning_leaves() {
    // 8 days, 3 books at 1 a day
    assert_eq!(unused_days(8, 1, 3), 5);
    // 5 days, 2 books at 2 a day
    assert_eq!(unused_days(5, 2, 2), 4);
    // 5 books at 2 a day take 3 days
    assert_eq!(unused_days(5, 2, 5), 2);
    // a last day that is only partly used is not idle
    assert_eq!(unused_days(1, 2, 1), 0);
    // as many books as can be scanned, or more
    assert_eq!(unused_days(3, 2, 6), 0);
    assert_eq!(unused_days(3, 2, 7), 0);
    assert_eq!(unused_days(3, 0, 0), 0);
    assert_eq!(unused_days(0, 3, 0), 0);
    assert_eq!(unused_days(4, 3, 0), 4);
}

#[test]
fn pending_library_counts_what_it_can_scan() {
    let task = three_libraries();
    let pending = PendingLibrary::new(&task.libraries[0]);
    assert_eq!(ids(&pending.books), vec![0, 1, 2, 3, 4]);
    assert_eq!(pending.score, 0);
    assert_eq!(pending.max_scans(0), 0);
    assert_eq!(pending.max_scans(2), 0);
    assert_eq!(pending.max_scans(3), 2);
    assert_eq!(pending.max_scans(10), 16);
    assert_eq!(pending.max_scans(u64::MAX), 36893488147419103226);
    assert_eq!(pending.selection_len(2), 0);
    assert_eq!(pending.selection_len(3), 2);
    assert_eq!(pending.selection_len(4), 4);
    assert_eq!(pending.selection_len(5), 5);
    assert_eq!(pending.selection_len(10), 5);
}

#[test]
fn pending_library_offers_its_best_books() {
    let task = three_libraries();
    let copy_count = task.count_book_copies();
    let mut pending = PendingLibrary::new(&task.libraries[0]);
    let p: Prospect = pending.prospect(4, &copy_count, false, 3, 5).unwrap();
    // 2 days after the sign-up, 2 books a day; book 2 has fewer copies
    // than book 1
    assert_eq!(ids(&pending.books), vec![2, 1, 4, 0, 3]);
    assert_eq!((p.trial, p.round, p.library), (3, 5, 0));
    assert_eq!((p.days_left, p.signup_days, p.scan_rate), (4, 2, 2));
    assert!(!p.identical_scores);
    assert_eq!(
        p.picks,
        vec![
            Pick { score: 9, copies: 1 },
            Pick { score: 9, copies: 3 },
            Pick { score: 7, copies: 2 },
            Pick { score: 4, copies: 1 }
        ]
    );
    assert_eq!(p.idle_days, 0);

    let p = pending.prospect(10, &copy_count, false, 0, 0).unwrap();
    assert_eq!(p.picks.len(), 5);
    // 8 days for 5 books at 2 a day
    assert_eq!(p.idle_days, 5);

    let p = pending.prospect(10, &copy_count, true, 0, 0).unwrap();
    assert_eq!(ids(&pending.books), vec![0, 2, 3, 4, 1]);
    assert!(p.identical_scores);
    assert_eq!(p.picks[4], Pick { score: 9, copies: 3 });
}

#[test]
fn pending_library_without_prospect() {
    let task = three_libraries();
    let copy_count = task.count_book_copies();
    // the sign-up takes all the days: the books stay as they are
    let mut pending = PendingLibrary::new(&task.libraries[0]);
    assert!(pending.prospect(2, &copy_count, false, 0, 0).is_none());
    assert_eq!(ids(&pending.books), vec![0, 1, 2, 3, 4]);
    assert!(pending.prospect(0, &copy_count, false, 0, 0).is_none());
    // no book is left
    pending.books.clear();
    assert!(pending.prospect(9, &copy_count, false, 0, 0).is_none());
    assert!(pending.prospect(9, &copy_count, true, 0, 0).is_none());
    // the books score nothing
    let mut task = ScanningTask::new(9, 1, vec![0, 0, 1]);
    task.add_library(1, 1, vec![0, 1]).unwrap();
    let copy_count = task.count_book_copies();
    let mut pending = PendingLibrary::new(&task.libraries[0]);
    assert!(pending.prospect(9, &copy_count, false, 0, 0).is_none());
    // a library that scans no book a day
    let mut task = ScanningTask::new(9, 1, vec![5]);
    task.add_library(1, 0, vec![0]).unwrap();
    let mut pending = PendingLibrary::new(&task.libraries[0]);
    assert!(pending.prospect(9, &task.count_book_copies(), false, 0, 0).is_none());
}

#[test]
fn pending_library_takes_the_priority_from_the_scorer() {
    let task = three_libraries();
    let copy_count = task.count_book_copies();
    let mut pending = PendingLibrary::new(&task.libraries[1]);
    pending.update(5, &copy_count, false, 0, 0, &|p: &Prospect| {
        p.picks.iter().map(|pick| pick.score).sum::<u64>() * 100 + p.idle_days
    });
    // books 1 and 3 in 4 days at 1 a day
    assert_eq!(pending.score, 1102);
    assert_eq!(ids(&pending.books), vec![1, 3]);
    pending.update(1, &copy_count, false, 0, 0, &|_: &Prospect| 77);
    assert_eq!(pending.score, 0);
}

#[test]
fn pending_library_signs_up() {
    let task = three_libraries();
    let mut copy_count = task.count_book_copies();
    let mut pending = PendingLibrary::new(&task.libraries[0]);
    pending.prospect(3, &copy_count, false, 0, 0);
    let scanned = pending.scan_books(3, &mut copy_count);
    assert_eq!(scanned, vec![2, 1]);
    assert!(pending.books.is_empty());
    // books 4, 0 and 3 are not scanned; one copy of each is gone
    assert_eq!(counts_of(&copy_count, 5), vec![0, 3, 1, 1, 1]);

    let mut other = PendingLibrary::new(&task.libraries[1]);
    let mut marks = unmarked(5);
    mark_all(&mut marks, &scanned);
    assert_eq!(marks, vec![false, true, true, false, false]);
    other.remove_books(&marks);
    assert_eq!(ids(&other.books), vec![3]);
    other.discard_books(&mut copy_count);
    assert_eq!(counts_of(&copy_count, 5), vec![0, 3, 1, 0, 1]);
}

#[test]
fn planner_goes_step_by_step() {
    let task = three_libraries();
    let builder = PlanBuilder::new(&task);
    let mut state = Planning::new(&task, builder.copy_count.duplicate(), false, 0);
    assert_eq!(state.days_left, 10);
    assert_eq!(state.pending.len(), 3);
    assert_eq!(state.select(), Some(0));

    state.update_all(&|p: &Prospect| u64::from(p.library) + 1);
    let scores: Vec<u64> = state.pending.iter().map(|c| c.score).collect();
    // library 2 takes 20 days to sign up
    assert_eq!(scores, vec![1, 2, 0]);
    state.evict();
    assert_eq!(state.pending.len(), 2);
    assert_eq!(counts_of(&state.copy_count, 5), vec![1, 2, 1, 2, 1]);
    assert_eq!(state.select(), Some(1));
    state.sign_up(1);
    assert_eq!(state.days_left, 9);
    assert_eq!(state.scanned, vec![false, true, false, true, false]);
    assert_eq!(state.plan.queue.len(), 1);
    assert_eq!(state.plan.queue[0].library, 1);
    assert_eq!(state.plan.queue[0].books, vec![1, 3]);
    assert_eq!(state.pending.len(), 1);
    assert_eq!(ids(&state.pending[0].books), vec![2, 4, 0]);

    assert!(state.step(&|_: &Prospect| 1));
    assert_eq!(state.days_left, 7);
    assert_eq!(state.plan.queue[1].books, vec![2, 4, 0]);
    assert!(!state.step(&|_: &Prospect| 1));
    assert_eq!(state.select(), None);
    assert_eq!(state.plan.score(), Ok((31, 2, 12)));
}
