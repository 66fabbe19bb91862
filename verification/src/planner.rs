//! The planner: it signs up one library after another, each time the one
//! with the highest priority, until no day or no useful library is left.

use crate::copies::{count_of, holders, CopyCount};
use crate::model::{
    best_planned, entries, initial, lemma_covered, lemma_decided_run, may_plan, may_reach,
    planned, state_may_step, State,
};
use crate::pending::{decided, eager, Prospect};
use crate::plan::{lemma_value_of_none, no_book_twice, no_library_twice, scanned_set, signs_up, spent};
use crate::planning::waits;
use crate::task::{catalogs, lemma_same_scores, same_scores, ScanningTask};
use vstd::prelude::*;

pub use crate::plan::{PlanError, ScanningPlan};
pub use crate::planning::{mark_all, Planning};

verus! {

/// Builds scanning plans for a task.
pub struct PlanBuilder<'a> {
    pub task: &'a ScanningTask,
    /// For each book, the number of libraries that hold it.
    pub copy_count: CopyCount,
    /// Whether all books of the task have the same score.
    pub identical_scores: bool,
}

impl<'a> PlanBuilder<'a> {
    /// The builder knows its task: how many libraries hold each book, and
    /// whether the books all score the same.
    pub open spec fn wf(&self) -> bool {
        &&& self.task.wf()
        &&& self.copy_count@.len() == self.task.books.len()
        &&& forall|id: int|
            count_of(self.copy_count@, id) == holders(catalogs(self.task.libraries@), id)
        &&& self.identical_scores == same_scores(self.task.books@)
    }

    /// A builder for `task`.
    pub fn new(task: &'a ScanningTask) -> (builder: Self)
        requires
            task.wf(),
        ensures
            builder.wf(),
            builder.task == task,
    {
        let copy_count = task.count_book_copies();
        let identical_scores = task.min_book_score() == task.max_book_score();
        proof {
            lemma_same_scores(task.books@);
        }
        PlanBuilder { task, copy_count, identical_scores }
    }

    /// Builds one plan: signs libraries up, one after another, as long as
    /// days are left and a library has a priority above zero. `scorer`
    /// gives each pending library its priority; `trial` is handed on to
    /// it.
    ///
    /// Whatever the scorer answers, the plan can be carried out within
    /// the days of the task, no book is scanned twice, no library signs
    /// up twice, and every library of the plan signs up in fewer days
    /// than the task has and scans at least one book, all of them its own.
    /// It is a plan that `may_plan` describes: each sign-up is that of the
    /// pending library with the highest of the priorities that the scorer
    /// gave. If the scorer gives a priority above zero to every prospect
    /// with a score to gain, no library could be added at the end of the
    /// plan to any gain. If the scorer is decided, the plan is the one
    /// that `planned` describes.
    pub fn build_plan<F: Fn(&Prospect) -> u64>(&self, trial: usize, scorer: &F) -> (plan:
        ScanningPlan<'a>)
        requires
            self.wf(),
            forall|p: Prospect| scorer.requires((&p,)),
        ensures
            plan.task == self.task,
            plan.valid(),
            plan.distinct(),
            plan.orderly(),
            self.task.days == 0 ==> plan.queue@.len() == 0,
            eager(scorer) ==> plan.maximal(),
            may_plan(self.task, self.identical_scores, trial, scorer, entries(plan.queue@)),
            decided(scorer) ==> entries(plan.queue@) == planned(
                self.task,
                self.identical_scores,
                trial,
                scorer,
            ),
    {
        let mut state = Planning::new(
            self.task,
            self.copy_count.duplicate(),
            self.identical_scores,
            trial,
        );
        let mut going = state.days_left > 0;
        while going
            invariant
                state.wf(),
                state.task == self.task,
                state.identical_scores == self.identical_scores,
                state.trial == trial,
                forall|p: Prospect| scorer.requires((&p,)),
                self.task.days == 0 ==> state.plan.queue@.len() == 0,
                eager(scorer) ==> state.settled(),
                forall|end: State| #[trigger]
                    may_reach(self.task, self.identical_scores, trial, scorer, state@, end)
                        ==> may_reach(
                        self.task,
                        self.identical_scores,
                        trial,
                        scorer,
                        initial(self.task),
                        end,
                    ),
                going ==> state.days_left > 0,
                !going ==> state.days_left == 0 || state.pending.len() == 0,
            decreases
                    state.pending.len() + if going {
                        1nat
                    } else {
                        0nat
                    },
        {
            let ghost before = state@;
            going = state.step(scorer);
            proof {
                if before.pending.len() == 0 {
                    assert(state@.pending =~= before.pending);
                    assert(state@.counts =~= before.counts);
                    assert(state@ == before);
                } else {
                    assert forall|end: State| #[trigger]
                        may_reach(
                            self.task,
                            self.identical_scores,
                            trial,
                            scorer,
                            state@,
                            end,
                        ) implies may_reach(
                        self.task,
                        self.identical_scores,
                        trial,
                        scorer,
                        before,
                        end,
                    ) by {
                        assert(state_may_step(
                            self.task,
                            self.identical_scores,
                            trial,
                            scorer,
                            before,
                            state@,
                        ));
                    }
                }
            }
        }
        proof {
            assert(may_reach(self.task, self.identical_scores, trial, scorer, state@, state@));
            if decided(scorer) {
                lemma_decided_run(
                    self.task,
                    self.identical_scores,
                    trial,
                    scorer,
                    initial(self.task),
                    state@,
                );
            }
            if eager(scorer) {
                assert forall|j: int| 0 <= j < state.plan.task.libraries.len() implies signs_up(
                    state.plan.queue@,
                    j,
                ) || #[trigger] spent(
                    state.plan.task,
                    j,
                    scanned_set(state.plan.queue@),
                    state.plan.days_left(),
                ) by {
                    assert(signs_up(state.plan.queue@, j) || waits(state.pending@, j) || spent(
                        state.task,
                        j,
                        scanned_set(state.plan.queue@),
                        state.days_left as int,
                    ));
                }
            }
        }
        state.plan
    }

    /// Puts `plan` in the place of `best` if it can be carried out and
    /// scores more than `best_score`, the score of `best`; else leaves
    /// both as they are.
    pub fn keep_best(best: &mut ScanningPlan<'a>, best_score: &mut u64, plan: ScanningPlan<'a>)
        requires
            plan.wf(),
            *old(best_score) == old(best).value(),
        ensures
            *final(best_score) == final(best).value(),
            *final(best) == if plan.valid() && plan.value() > old(best).value() {
                plan
            } else {
                *old(best)
            },
    {
        match plan.score() {
            Ok((score, _, _)) => {
                if score > *best_score {
                    *best = plan;
                    *best_score = score;
                }
            },
            Err(_) => {},
        }
    }

    /// Builds `trials` plans, numbered from zero, and returns the first of
    /// those that score highest; the empty plan if none scores above zero.
    ///
    /// Whatever the scorer answers, the plan can be carried out, scans no
    /// book twice and is orderly, as every plan of `build_plan` is; and if
    /// it is not empty, it scores above zero and is the plan of one of the
    /// runs. If the scorer is decided, the plan is the one that
    /// `best_planned` describes.
    pub fn build<F: Fn(&Prospect) -> u64>(&self, trials: usize, scorer: &F) -> (plan: ScanningPlan<
        'a,
    >)
        requires
            self.wf(),
            forall|p: Prospect| scorer.requires((&p,)),
        ensures
            plan.task == self.task,
            plan.valid(),
            plan.distinct(),
            plan.orderly(),
            self.task.days == 0 || trials == 0 ==> plan.queue@.len() == 0,
            plan.queue@.len() > 0 ==> plan.value() > 0,
            eager(scorer) && plan.queue@.len() > 0 ==> plan.maximal(),
            plan.queue@.len() > 0 ==> exists|trial: usize|
                trial < trials && #[trigger] may_plan(
                    self.task,
                    self.identical_scores,
                    trial,
                    scorer,
                    entries(plan.queue@),
                ),
            decided(scorer) ==> entries(plan.queue@) == best_planned(
                self.task,
                self.identical_scores,
                scorer,
                trials as nat,
            ),
    {
        let mut best_plan = ScanningPlan::new(self.task);
        let mut best_score: u64 = 0;
        proof {
            lemma_value_of_none(
                self.task.books@,
                scanned_set(best_plan.queue@),
                self.task.books@.len() as int,
            );
            assert(no_book_twice(best_plan.queue@));
            assert(no_library_twice(best_plan.queue@));
            assert(entries(best_plan.queue@) =~= Seq::empty());
        }
        let mut trial: usize = 0;
        while trial < trials
            invariant
                self.wf(),
                forall|p: Prospect| scorer.requires((&p,)),
                trial <= trials,
                best_plan.task == self.task,
                best_plan.valid(),
                best_plan.distinct(),
                best_plan.orderly(),
                best_score == best_plan.value(),
                self.task.days == 0 || trial == 0 ==> best_plan.queue@.len() == 0,
                best_plan.queue@.len() > 0 ==> best_plan.value() > 0,
                eager(scorer) && best_plan.queue@.len() > 0 ==> best_plan.maximal(),
                best_plan.queue@.len() > 0 ==> exists|earlier: usize|
                    earlier < trial && #[trigger] may_plan(
                        self.task,
                        self.identical_scores,
                        earlier,
                        scorer,
                        entries(best_plan.queue@),
                    ),
                decided(scorer) ==> entries(best_plan.queue@) == best_planned(
                    self.task,
                    self.identical_scores,
                    scorer,
                    trial as nat,
                ),
            decreases trials - trial,
        {
            let plan = self.build_plan(trial, scorer);
            proof {
                lemma_covered(plan.queue@);
                lemma_covered(best_plan.queue@);
            }
            Self::keep_best(&mut best_plan, &mut best_score, plan);
            trial += 1;
        }
        best_plan
    }
}

} // verus!
