use hashcode2020::greedy::Greedy;
use hashcode2020::pending::Prospect;
use hashcode2020::planner::{PlanBuilder, PlanError, ScanningPlan};
use hashcode2020::ScanningTask;

/// The priority of a prospect: its books' scores, each lowered by the
/// number of copies left, divided by powers of the sign-up days and of the
/// idle days.
fn priority(p: &Prospect, idle_exp: f32, signup_exp: f32) -> u64 {
    let raw: f32 = if p.identical_scores {
        p.picks.iter().map(|pick| (pick.copies as f32).powf(-1.5)).sum()
    } else {
        p.picks
            .iter()
            .map(|pick| pick.score as f32 / (pick.copies as f32).powf(0.5))
            .sum()
    };
    if raw == 0_f32 {
        return 0;
    }
    let mut score = raw / (p.signup_days as f32).powf(signup_exp);
    if idle_exp != 0_f32 && p.idle_days > 0 {
        score /= (p.idle_days as f32).powf(idle_exp);
    }
    if score > 0_f32 {
        score.to_bits() as u64
    } else {
        0
    }
}

fn plan_with(task: &ScanningTask, idle_exp: f32, signup_exp: f32) -> ScanningPlan<'_> {
    let builder = PlanBuilder::new(task);
    builder.build_plan(0, &|p: &Prospect| priority(p, idle_exp, signup_exp))
}

fn plan_for(task: &ScanningTask) -> ScanningPlan<'_> {
    plan_with(task, 0.0, 1.0)
}

fn entries(plan: &ScanningPlan) -> Vec<(u32, Vec<u32>)> {
    plan.queue
        .iter()
        .map(|entry| (entry.library, entry.books.clone()))
        .collect()
}

fn two_libraries() -> ScanningTask {
    let mut task = ScanningTask::new(7, 2, vec![1, 2, 3, 6, 5, 4]);
    task.add_library(2, 2, vec![0, 1, 2, 3, 4]).unwrap();
    task.add_library(3, 1, vec![3, 2, 5, 0]).unwrap();
    task
}

#[test]
fn one_book_one_library_one_day() {
    let mut task = ScanningTask::new(1, 1, vec![10]);
    task.add_library(0, 1, vec![0]).unwrap();
    let plan = plan_for(&task);
    assert_eq!(entries(&plan), vec![(0, vec![0])]);
    assert_eq!(plan.score(), Ok((10, 0, 0)));
}

#[test]
fn library_scans_the_better_of_two_books() {
    let mut task = ScanningTask::new(1, 1, vec![10, 1]);
    task.add_library(0, 1, vec![0, 1]).unwrap();
    let plan = plan_for(&task);
    assert_eq!(entries(&plan), vec![(0, vec![0])]);
    assert_eq!(plan.score(), Ok((10, 0, 0)));

    let mut task = ScanningTask::new(1, 1, vec![1, 10]);
    task.add_library(0, 1, vec![0, 1]).unwrap();
    let plan = plan_for(&task);
    assert_eq!(entries(&plan), vec![(0, vec![1])]);
    assert_eq!(plan.score(), Ok((10, 0, 0)));
}

#[test]
fn shared_book_is_scanned_by_one_library_only() {
    let mut task = ScanningTask::new(2, 2, vec![7]);
    task.add_library(0, 1, vec![0]).unwrap();
    task.add_library(0, 1, vec![0]).unwrap();
    let plan = plan_for(&task);
    assert_eq!(entries(&plan), vec![(0, vec![0])]);
    assert_eq!(plan.count_signedup_libraries(), 1);
    assert_eq!(plan.count_scanned_books(), 1);
    assert_eq!(plan.score(), Ok((7, 1, 1)));
}

#[test]
fn no_days_no_plan() {
    let mut task = ScanningTask::new(0, 1, vec![10]);
    task.add_library(0, 1, vec![0]).unwrap();
    let plan = plan_for(&task);
    assert_eq!(plan.count_signedup_libraries(), 0);
    assert_eq!(plan.score(), Ok((0, 0, 0)));
    let plan = Greedy::default().solve(&task);
    assert_eq!(plan.count_signedup_libraries(), 0);
}

#[test]
fn no_libraries_no_plan() {
    let task = ScanningTask::new(5, 0, vec![10, 20]);
    let plan = plan_for(&task);
    assert_eq!(plan.count_signedup_libraries(), 0);
    assert_eq!(plan.count_scanned_books(), 0);
    assert_eq!(plan.score(), Ok((0, 0, 0)));
}

#[test]
fn libraries_that_sign_up_too_slowly_stay_out() {
    let mut task = ScanningTask::new(3, 2, vec![10, 20]);
    task.add_library(3, 5, vec![0]).unwrap();
    task.add_library(4, 5, vec![1]).unwrap();
    let plan = plan_for(&task);
    assert_eq!(entries(&plan), vec![]);
    assert_eq!(plan.score(), Ok((0, 0, 0)));
}

#[test]
fn library_that_signs_up_too_slowly_stays_out() {
    let mut task = ScanningTask::new(3, 3, vec![10, 20, 30]);
    task.add_library(3, 5, vec![2]).unwrap();
    task.add_library(4, 5, vec![1]).unwrap();
    task.add_library(2, 1, vec![0]).unwrap();
    let plan = plan_for(&task);
    assert_eq!(entries(&plan), vec![(2, vec![0])]);
    assert_eq!(plan.score(), Ok((10, 0, 0)));
}

#[test]
fn two_libraries_share_six_books() {
    let task = two_libraries();
    let plan = plan_for(&task);
    // library 0: (1 + 3 + 6) / sqrt(2) + 2 + 5, halved, is about 7.04;
    // library 1: (1 + 3 + 6) / sqrt(2) + 4, over 3, is about 3.69
    assert_eq!(entries(&plan), vec![(0, vec![3, 4, 2, 1, 0]), (1, vec![5])]);
    assert_eq!(plan.count_signedup_libraries(), 2);
    assert_eq!(plan.count_scanned_books(), 6);
    // library 0 has 5 days and needs 3, library 1 has 2 and needs 1
    assert_eq!(plan.score(), Ok((21, 2, 3)));
}

#[test]
fn library_scans_no_more_than_it_has_time_for() {
    let mut task = ScanningTask::new(3, 1, vec![5, 9, 1, 7, 3]);
    task.add_library(1, 1, vec![0, 1, 2, 3, 4]).unwrap();
    let plan = plan_for(&task);
    assert_eq!(entries(&plan), vec![(0, vec![1, 3])]);
    assert_eq!(plan.score(), Ok((16, 0, 0)));
}

#[test]
fn equal_scores_prefer_rare_books() {
    let mut task = ScanningTask::new(1, 3, vec![5, 5, 5]);
    task.add_library(0, 1, vec![0, 1, 2]).unwrap();
    task.add_library(0, 1, vec![0]).unwrap();
    task.add_library(0, 1, vec![0, 1]).unwrap();
    // without a penalty for the sign-up: library 0 offers the one copy of
    // book 2; then library 2 the last copy of book 1; library 1 is left
    // with book 0
    let plan = plan_with(&task, 0.0, 0.0);
    assert_eq!(
        entries(&plan),
        vec![(0, vec![2]), (2, vec![1]), (1, vec![0])]
    );
    assert_eq!(plan.score(), Ok((15, 0, 0)));
    // a sign-up of no days makes every priority infinite: the lowest
    // identifier goes first
    let plan = plan_with(&task, 0.0, 1.0);
    assert_eq!(
        entries(&plan),
        vec![(0, vec![2]), (1, vec![0]), (2, vec![1])]
    );
}

#[test]
fn equal_priorities_sign_up_the_lowest_identifier() {
    let mut task = ScanningTask::new(4, 3, vec![3, 3, 3, 1]);
    task.add_library(1, 1, vec![3, 2]).unwrap();
    task.add_library(1, 1, vec![3, 1]).unwrap();
    task.add_library(1, 1, vec![3, 0]).unwrap();
    let plan = plan_with(&task, 0.0, 0.0);
    assert_eq!(
        entries(&plan),
        vec![(0, vec![2, 3]), (1, vec![1]), (2, vec![0])]
    );
}

#[test]
fn idle_days_lower_the_priority() {
    let mut task = ScanningTask::new(10, 2, vec![5, 4]);
    // library 0 would stand idle for 8 days, library 1 for 4
    task.add_library(1, 1, vec![0]).unwrap();
    task.add_library(5, 1, vec![1]).unwrap();
    let plan = plan_with(&task, 0.0, 0.0);
    assert_eq!(entries(&plan), vec![(0, vec![0]), (1, vec![1])]);
    let plan = plan_with(&task, 1.0, 0.0);
    assert_eq!(entries(&plan), vec![(1, vec![1]), (0, vec![0])]);
}

#[test]
fn worthless_books_are_left_alone() {
    let mut task = ScanningTask::new(5, 2, vec![0, 0, 3]);
    task.add_library(1, 1, vec![0, 1]).unwrap();
    task.add_library(1, 1, vec![2, 0]).unwrap();
    let plan = plan_for(&task);
    assert_eq!(entries(&plan), vec![(1, vec![2, 0])]);
    assert_eq!(plan.score(), Ok((3, 1, 2)));
}

#[test]
fn best_of_several_trials() {
    let task = two_libraries();
    let builder = PlanBuilder::new(&task);
    // trial 0 signs up nothing, trial 1 only library 1, trial 2 both
    let plan = builder.build(3, &|p: &Prospect| match p.trial {
        0 => 0,
        1 => u64::from(p.library == 1),
        _ => priority(p, 0.0, 1.0),
    });
    assert_eq!(entries(&plan), vec![(0, vec![3, 4, 2, 1, 0]), (1, vec![5])]);
    let plan = builder.build(2, &|p: &Prospect| match p.trial {
        0 => 0,
        _ => u64::from(p.library == 1),
    });
    assert_eq!(entries(&plan), vec![(1, vec![3, 5, 2, 0])]);
    assert_eq!(plan.score(), Ok((14, 0, 0)));
    let plan = builder.build(0, &|p: &Prospect| priority(p, 0.0, 1.0));
    assert_eq!(entries(&plan), vec![]);
    let plan = builder.build(4, &|_: &Prospect| 0);
    assert_eq!(entries(&plan), vec![]);
}

#[test]
fn first_of_the_best_trials_is_kept() {
    let mut task = ScanningTask::new(2, 2, vec![4, 4]);
    task.add_library(1, 1, vec![0]).unwrap();
    task.add_library(1, 1, vec![1]).unwrap();
    let builder = PlanBuilder::new(&task);
    let plan = builder.build(2, &|p: &Prospect| u64::from(p.library as usize == p.trial));
    assert_eq!(entries(&plan), vec![(0, vec![0])]);
}

#[test]
fn scorer_is_told_trial_and_round() {
    let task = two_libraries();
    let builder = PlanBuilder::new(&task);
    let seen = std::cell::RefCell::new(Vec::new());
    let plan = builder.build_plan(7, &|p: &Prospect| {
        seen.borrow_mut()
            .push((p.trial, p.round, p.library, p.days_left, p.picks.len()));
        1 + u64::from(p.library)
    });
    assert_eq!(entries(&plan), vec![(1, vec![3, 5, 2, 0]), (0, vec![4, 1])]);
    assert_eq!(
        *seen.borrow(),
        vec![(7, 0, 0, 7, 5), (7, 0, 1, 7, 4), (7, 1, 0, 4, 2)]
    );
}

#[test]
fn greedy_goes_by_the_sum_of_scores() {
    let task = two_libraries();
    let plan = Greedy::default().solve(&task);
    assert_eq!(entries(&plan), vec![(0, vec![3, 4, 2, 1, 0]), (1, vec![5])]);

    let mut task = ScanningTask::new(4, 2, vec![8, 5, 5]);
    task.add_library(3, 1, vec![0]).unwrap();
    task.add_library(2, 1, vec![1, 2]).unwrap();
    let plan = Greedy::default().solve(&task);
    assert_eq!(entries(&plan), vec![(1, vec![1, 2])]);
    assert_eq!(plan.score(), Ok((10, 0, 0)));
}

#[test]
fn validator_reports_the_first_fault() {
    let mut task = ScanningTask::new(5, 2, vec![1, 2, 3]);
    task.add_library(2, 1, vec![0, 1, 2]).unwrap();
    task.add_library(4, 1, vec![0]).unwrap();

    let mut plan = ScanningPlan::new(&task);
    plan.add_library(7, vec![0]);
    assert_eq!(plan.score(), Err(PlanError::UnknownLibrary { library: 7 }));

    let mut plan = ScanningPlan::new(&task);
    plan.add_library(0, vec![0]);
    plan.add_library(1, vec![]);
    assert_eq!(plan.score(), Err(PlanError::SignupImpossible { library: 1 }));

    let mut plan = ScanningPlan::new(&task);
    plan.add_library(1, vec![0, 1]);
    assert_eq!(
        plan.score(),
        Err(PlanError::TooManyBooks { library: 1, books: 2 })
    );

    let mut plan = ScanningPlan::new(&task);
    plan.add_library(0, vec![0, 9, 8]);
    assert_eq!(
        plan.score(),
        Err(PlanError::UnknownBook { library: 0, book: 9 })
    );

    // the first entry with a fault counts, and in it the first fault
    let mut plan = ScanningPlan::new(&task);
    plan.add_library(1, vec![9, 8]);
    plan.add_library(7, vec![]);
    assert_eq!(
        plan.score(),
        Err(PlanError::TooManyBooks { library: 1, books: 2 })
    );
}

#[test]
fn validator_accepts_a_plan_that_uses_every_day() {
    let mut task = ScanningTask::new(5, 2, vec![1, 2, 3]);
    task.add_library(2, 1, vec![0, 1, 2]).unwrap();
    task.add_library(3, 1, vec![0]).unwrap();
    let mut plan = ScanningPlan::new(&task);
    plan.add_library(0, vec![0, 1, 2]);
    plan.add_library(1, vec![]);
    assert_eq!(plan.score(), Ok((6, 0, 0)));
}

#[test]
fn validator_counts_each_book_once() {
    let mut task = ScanningTask::new(10, 2, vec![1, 2, 3]);
    task.add_library(2, 1, vec![0, 1, 2]).unwrap();
    task.add_library(3, 2, vec![0, 1]).unwrap();

    let mut plan = ScanningPlan::new(&task);
    plan.add_library(0, vec![2, 1, 1]);
    plan.add_library(1, vec![1, 0]);
    // library 0: 8 days left, 3 books at 1 a day, 5 days idle;
    // library 1: 5 days left, 2 books at 2 a day, 4 days idle
    assert_eq!(plan.score(), Ok((6, 2, 9)));
    assert_eq!(plan.count_scanned_books(), 5);
    assert_eq!(plan.count_signedup_libraries(), 2);
}

#[test]
fn score_does_not_depend_on_the_order_of_books_or_libraries() {
    let mut task = ScanningTask::new(10, 2, vec![1, 2, 4, 8]);
    task.add_library(0, 5, vec![0, 1, 2, 3]).unwrap();
    task.add_library(0, 5, vec![0, 1, 2, 3]).unwrap();

    let mut one = ScanningPlan::new(&task);
    one.add_library(0, vec![0, 3]);
    one.add_library(1, vec![1]);
    let mut other = ScanningPlan::new(&task);
    other.add_library(1, vec![3, 1, 0]);
    other.add_library(0, vec![1, 1]);
    assert_eq!(one.score().unwrap().0, 11);
    assert_eq!(other.score().unwrap().0, 11);
    assert_eq!(one.score(), one.score());
}
