use hashcode2020::greedy::Greedy;
use hashcode2020::pending::Prospect;
use hashcode2020::planner::{PlanBuilder, ScanningPlan};
use hashcode2020::ScanningTask;

/// A small generator of numbers that look random.
struct Dice(u64);

impl Dice {
    fn roll(&mut self, sides: u64) -> u64 {
        self.0 = self
            .0
            .wrapping_mul(6364136223846793005)
            .wrapping_add(1442695040888963407);
        (self.0 >> 33) % sides
    }
}

fn some_task(dice: &mut Dice, books: u64, libraries: u64, days: u64, flat: bool) -> ScanningTask {
    let scores = (0..books)
        .map(|_| if flat { 3 } else { dice.roll(6) as u32 })
        .collect();
    let mut task = ScanningTask::new(days, libraries as usize, scores);
    for _ in 0..libraries {
        let held = dice.roll(books + 1);
        let ids = (0..held).map(|_| dice.roll(books) as u32).collect();
        task.add_library(dice.roll(days + 2), dice.roll(3), ids).unwrap();
    }
    task
}

fn float_priority(p: &Prospect, idle_exp: f32, signup_exp: f32) -> u64 {
    let raw: f32 = if p.identical_scores {
        p.picks.iter().map(|pick| (pick.copies as f32).powf(-1.5)).sum()
    } else {
        p.picks
            .iter()
            .map(|pick| pick.score as f32 / (pick.copies as f32).powf(0.5))
            .sum()
    };
    if raw == 0_f32 {
        return 0;
    }
    let mut score = raw / (p.signup_days as f32).powf(signup_exp);
    if idle_exp != 0_f32 && p.idle_days > 0 {
        score /= (p.idle_days as f32).powf(idle_exp);
    }
    if score > 0_f32 {
        score.to_bits() as u64
    } else {
        0
    }
}

/// Some plans for a task, made with different scorers.
fn some_plans<'a>(task: &'a ScanningTask, dice: &mut Dice) -> Vec<ScanningPlan<'a>> {
    let builder = PlanBuilder::new(task);
    let seed = dice.roll(1000);
    let moody = move |p: &Prospect| (u64::from(p.library) * 7 + p.days_left * 13 + seed) % 5;
    vec![
        builder.build_plan(0, &|p: &Prospect| float_priority(p, 0.0, 1.0)),
        builder.build_plan(0, &|p: &Prospect| float_priority(p, 0.5, 0.0)),
        builder.build_plan(0, &|p: &Prospect| float_priority(p, -1.0, 2.5)),
        builder.build_plan(0, &|_: &Prospect| 1),
        builder.build_plan(0, &|p: &Prospect| u64::from(p.library) + 1),
        builder.build_plan(0, &moody),
        builder.build(3, &|p: &Prospect| float_priority(p, 0.0, p.trial as f32)),
        Greedy::default().solve(task),
    ]
}

fn for_many_plans(check: &dyn Fn(&ScanningTask, &ScanningPlan)) {
    let mut dice = Dice(2020);
    for round in 0..150 {
        let books = 1 + dice.roll(8);
        let libraries = dice.roll(6);
        let days = dice.roll(9);
        let task = some_task(&mut dice, books, libraries, days, round % 5 == 0);
        for plan in some_plans(&task, &mut dice) {
            check(&task, &plan);
        }
    }
}

#[test]
fn no_book_is_scanned_twice() {
    for_many_plans(&|task, plan| {
        let mut seen = vec![false; task.books.len()];
        for entry in plan.queue.iter() {
            for &book in entry.books.iter() {
                assert!(!seen[book as usize]);
                seen[book as usize] = true;
            }
        }
    });
}

#[test]
fn score_is_the_sum_over_the_scanned_books() {
    for_many_plans(&|task, plan| {
        let mut seen = vec![false; task.books.len()];
        for entry in plan.queue.iter() {
            for &book in entry.books.iter() {
                seen[book as usize] = true;
            }
        }
        let sum: u64 = (0..task.books.len())
            .filter(|&id| seen[id])
            .map(|id| task.books[id].score())
            .sum();
        assert_eq!(plan.score().unwrap().0, sum);
        // the same books from other libraries, in another order, named twice
        let mut other = ScanningPlan::new(task);
        for entry in plan.queue.iter().rev() {
            let mut books: Vec<u32> = entry.books.iter().rev().cloned().collect();
            books.extend(entry.books.iter());
            other.add_library(entry.library, books);
        }
        if let Ok((score, _, _)) = other.score() {
            assert_eq!(score, sum);
        }
    });
}

#[test]
fn sign_ups_fit_into_the_days() {
    for_many_plans(&|task, plan| {
        let mut elapsed = 0;
        for entry in plan.queue.iter() {
            elapsed += task.libraries[entry.library as usize].signup_days;
            assert!(elapsed <= task.days);
        }
    });
}

#[test]
fn libraries_scan_no_more_than_they_can() {
    for_many_plans(&|task, plan| {
        let mut elapsed = 0;
        for entry in plan.queue.iter() {
            let library = &task.libraries[entry.library as usize];
            elapsed += library.signup_days;
            assert!(entry.books.len() as u64 <= (task.days - elapsed) * library.scan_rate);
        }
    });
}

#[test]
fn plans_are_orderly() {
    for_many_plans(&|task, plan| {
        let mut signed = vec![false; task.libraries.len()];
        for entry in plan.queue.iter() {
            let library = &task.libraries[entry.library as usize];
            assert!(!signed[entry.library as usize]);
            signed[entry.library as usize] = true;
            assert!(library.signup_days < task.days);
            assert!(!entry.books.is_empty());
            for book in entry.books.iter() {
                assert!(library.books.iter().any(|held| held.id() == *book));
            }
        }
        if task.days == 0 {
            assert!(plan.queue.is_empty());
            assert_eq!(plan.score(), Ok((0, 0, 0)));
        }
        assert!(plan.score().is_ok());
    });
}

#[test]
fn eager_scorers_leave_nothing_to_add() {
    let mut dice = Dice(7);
    for round in 0..150 {
        let books = 1 + dice.roll(8);
        let libraries = dice.roll(6);
        let days = dice.roll(9);
        let task = some_task(&mut dice, books, libraries, days, round % 5 == 0);
        let builder = PlanBuilder::new(&task);
        let plans = vec![
            builder.build_plan(0, &|_: &Prospect| 1),
            builder.build_plan(0, &|p: &Prospect| u64::from(p.library) + 1),
            Greedy::default().solve(&task),
        ];
        for plan in plans {
            let mut seen = vec![false; task.books.len()];
            let mut signed = vec![false; task.libraries.len()];
            let mut days_left = task.days;
            for entry in plan.queue.iter() {
                signed[entry.library as usize] = true;
                days_left -= task.libraries[entry.library as usize].signup_days;
                for &book in entry.books.iter() {
                    seen[book as usize] = true;
                }
            }
            for library in task.libraries.iter() {
                assert!(
                    signed[library.id as usize]
                        || library.signup_days >= days_left
                        || library.scan_rate == 0
                        || library
                            .books
                            .iter()
                            .all(|book| seen[book.id() as usize] || book.score() == 0)
                );
            }
        }
    }
}

/// The best score that any plan for the task reaches, found by trying every
/// order of libraries and every way to hand the books to them.
fn best_score(task: &ScanningTask) -> u64 {
    let mut best = 0;
    let mut order = Vec::new();
    try_orders(task, &mut order, &mut best);
    best
}

fn try_orders(task: &ScanningTask, order: &mut Vec<u32>, best: &mut u64) {
    let mut hands = vec![Vec::new(); order.len()];
    try_books(task, order, 0, &mut hands, best);
    for library in 0..task.libraries.len() as u32 {
        if !order.contains(&library) {
            order.push(library);
            try_orders(task, order, best);
            order.pop();
        }
    }
}

fn try_books(
    task: &ScanningTask,
    order: &Vec<u32>,
    book: u32,
    hands: &mut Vec<Vec<u32>>,
    best: &mut u64,
) {
    if book as usize == task.books.len() {
        let mut plan = ScanningPlan::new(task);
        for (at, library) in order.iter().enumerate() {
            plan.add_library(*library, hands[at].clone());
        }
        if let Ok((score, _, _)) = plan.score() {
            if score > *best {
                *best = score;
            }
        }
        return;
    }
    try_books(task, order, book + 1, hands, best);
    for at in 0..order.len() {
        let library = &task.libraries[order[at] as usize];
        if library.books.iter().any(|held| held.id() == book) {
            hands[at].push(book);
            try_books(task, order, book + 1, hands, best);
            hands[at].pop();
        }
    }
}

#[test]
fn faster_libraries_are_no_worse() {
    let mut dice = Dice(42);
    for _ in 0..40 {
        let books = 1 + dice.roll(4);
        let libraries = 1 + dice.roll(3);
        let days = 1 + dice.roll(5);
        let mut task = some_task(&mut dice, books, libraries, days, false);
        let slow = best_score(&task);
        let which = dice.roll(libraries) as usize;
        task.libraries[which].scan_rate += 1 + dice.roll(3);
        assert!(task.is_well_formed());
        let fast = best_score(&task);
        assert!(slow <= fast);
        // no plan of the planner beats the best
        let plan = PlanBuilder::new(&task).build_plan(0, &|p: &Prospect| float_priority(p, 0.0, 1.0));
        assert!(plan.score().unwrap().0 <= fast);
    }
}

#[test]
fn faster_library_keeps_a_plan_and_its_score() {
    let mut task = ScanningTask::new(6, 2, vec![4, 5, 6]);
    task.add_library(2, 1, vec![0, 1, 2]).unwrap();
    task.add_library(3, 1, vec![0, 1, 2]).unwrap();
    let books = vec![(0, vec![2, 1, 0]), (1, vec![0])];
    let mut plan = ScanningPlan::new(&task);
    for (library, ids) in books.iter() {
        plan.add_library(*library, ids.clone());
    }
    assert_eq!(plan.score(), Ok((15, 1, 1)));
    assert_eq!(best_score(&task), 15);

    let mut faster = ScanningTask::new(6, 2, vec![4, 5, 6]);
    faster.add_library(2, 3, vec![0, 1, 2]).unwrap();
    faster.add_library(3, 1, vec![0, 1, 2]).unwrap();
    let mut plan = ScanningPlan::new(&faster);
    for (library, ids) in books.iter() {
        plan.add_library(*library, ids.clone());
    }
    assert_eq!(plan.score(), Ok((15, 1, 3)));
    assert_eq!(best_score(&faster), 15);
}

#[test]
fn large_task_is_planned() {
    let mut dice = Dice(99);
    let books = 3000;
    let scores = (0..books).map(|_| 1 + dice.roll(500) as u32).collect();
    let mut task = ScanningTask::new(400, 300, scores);
    for _ in 0..300 {
        let held = 20 + dice.roll(200);
        let ids = (0..held).map(|_| dice.roll(books) as u32).collect();
        task.add_library(1 + dice.roll(30), 1 + dice.roll(4), ids)
            .unwrap();
    }
    assert!(task.is_well_formed());
    let builder = PlanBuilder::new(&task);
    let plan = builder.build(3, &|p: &Prospect| float_priority(p, 0.1, 0.5 + p.trial as f32 * 0.5));
    let (score, _, _) = plan.score().unwrap();
    assert!(score > 0);
    assert!(plan.count_signedup_libraries() > 10);
    let text = plan.render();
    let lines = text.iter().filter(|&&b| b == b'\n').count();
    assert_eq!(lines, 1 + 2 * plan.count_signedup_libraries());
    let greedy = Greedy::default().solve(&task);
    assert!(greedy.score().unwrap().0 > 0);
}
