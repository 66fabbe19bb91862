//! The plain planner: a library's priority is the sum of the scores of the
//! books that it would scan.

use crate::model::{entries, planned};
use crate::pending::{decided, eager, picks_total, Pick, Prospect};
use crate::planner::{PlanBuilder, ScanningPlan};
use crate::task::{same_scores, ScanningTask};
use vstd::prelude::*;

verus! {

/// The sum of the scores of the books that the library would scan, or
/// `u64::MAX` if the sum is above it.
pub fn plain_priority(p: &Prospect) -> (score: u64)
    ensures
        score == if picks_total(p.picks@) > u64::MAX {
            u64::MAX as nat
        } else {
            picks_total(p.picks@)
        },
{
    let mut total: u64 = 0;
    let mut i: usize = 0;
    while i < p.picks.len()
        invariant
            i <= p.picks.len(),
            total == picks_total(p.picks@.take(i as int)),
        decreases p.picks.len() - i,
    {
        let score = p.picks[i].score;
        proof {
            let next = p.picks@.take(i + 1);
            assert(next.drop_last() == p.picks@.take(i as int));
            assert(next.last() == p.picks[i as int]);
        }
        if score > u64::MAX - total {
            proof {
                lemma_total_grows(p.picks@, i + 1, p.picks@.len() as int);
                assert(p.picks@.take(p.picks@.len() as int) == p.picks@);
            }
            return u64::MAX;
        }
        total += score;
        i += 1;
    }
    assert(p.picks@.take(i as int) == p.picks@);
    total
}

/// More picks do not add up to less.
pub proof fn lemma_total_grows(picks: Seq<Pick>, shorter: int, longer: int)
    requires
        0 <= shorter <= longer <= picks.len(),
    ensures
        picks_total(picks.take(shorter)) <= picks_total(picks.take(longer)),
    decreases longer,
{
    if shorter < longer {
        lemma_total_grows(picks, shorter, longer - 1);
        assert(picks.take(longer).drop_last() == picks.take(longer - 1));
    }
}

/// The plain planner.
#[derive(Clone, Copy, Debug, Default)]
pub struct Greedy {}

impl Greedy {
    /// Plans with the plain priority: signs up, one after another, the
    /// library whose books to scan score most together, and among equals
    /// the one with the lowest identifier, until no day is left or no
    /// library can add to the score.
    ///
    /// The plan can be carried out within the days of the task, no book is
    /// scanned twice, no library signs up twice, and every library of the
    /// plan signs up in fewer days than the task has and scans at least
    /// one book, all of them its own. No library could be added at its end
    /// to any gain. It is the plan that `planned` describes for the plain
    /// priority.
    pub fn solve<'a>(&self, task: &'a ScanningTask) -> (plan: ScanningPlan<'a>)
        requires
            task.wf(),
        ensures
            plan.task == task,
            plan.valid(),
            plan.distinct(),
            plan.orderly(),
            plan.maximal(),
            task.days == 0 ==> plan.queue@.len() == 0,
            entries(plan.queue@) == planned(task, same_scores(task.books@), 0, &plain_priority),
    {
        let builder = PlanBuilder::new(task);
        assert(eager(&plain_priority));
        assert(decided(&plain_priority));
        builder.build_plan(0, &plain_priority)
    }
}

} // verus!
