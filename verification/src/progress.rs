//! The shared count of completed tasks and the summary of a run.
//!
//! Tasks complete in any order. Each completion is recorded once, and the
//! number that comes back is how many tasks have completed so far, not the
//! task's place in the list. The caller keeps the value behind a lock.

use vstd::prelude::*;
use crate::stage::Outcome;

verus! {

/// What a run amounts to once every task has completed.
#[derive(Debug, Clone, Copy, PartialEq, Eq, Structural)]
pub struct RunSummary {
    /// The files that were found.
    pub discovered: usize,
    /// The tasks that completed, whatever their outcome.
    pub processed: usize,
    /// The tasks that failed.
    pub failed: usize,
}

impl RunSummary {
    /// The exit code of a run that completed: success, whether or not single
    /// files failed.
    pub fn exit_code(&self) -> (code: i32)
        ensures
            code == 0,
    {
        0
    }
}

/// How many of a run's tasks have completed, and how.
#[derive(Debug, Clone, Copy, PartialEq, Eq, Structural)]
pub struct Progress {
    pub total: usize,
    pub completed: usize,
    pub skipped: usize,
    pub failed: usize,
}

/// How many of `outcomes` are skips.
pub open spec fn skips_in(outcomes: Seq<Outcome>) -> nat
    decreases outcomes.len(),
{
    if outcomes.len() == 0 {
        0
    } else {
        skips_in(outcomes.drop_last()) + if outcomes.last() == Outcome::Skipped {
            1nat
        } else {
            0nat
        }
    }
}

/// How many of `outcomes` are failures.
pub open spec fn failures_in(outcomes: Seq<Outcome>) -> nat
    decreases outcomes.len(),
{
    if outcomes.len() == 0 {
        0
    } else {
        failures_in(outcomes.drop_last()) + if outcomes.last().is_failure() {
            1nat
        } else {
            0nat
        }
    }
}

impl Progress {
    /// No more tasks are counted than there are, and none is counted as both
    /// skipped and failed.
    pub open spec fn well_formed(&self) -> bool {
        self.skipped + self.failed <= self.completed <= self.total
    }

    /// The progress after one more task has completed with `outcome`.
    pub open spec fn recorded(self, outcome: Outcome) -> Progress {
        Progress {
            total: self.total,
            completed: (self.completed + 1) as usize,
            skipped: if outcome == Outcome::Skipped {
                (self.skipped + 1) as usize
            } else {
                self.skipped
            },
            failed: if outcome.is_failure() {
                (self.failed + 1) as usize
            } else {
                self.failed
            },
        }
    }

    /// The progress after the tasks completed with `outcomes`, in that order.
    pub open spec fn recorded_all(self, outcomes: Seq<Outcome>) -> Progress
        decreases outcomes.len(),
    {
        if outcomes.len() == 0 {
            self
        } else {
            self.recorded_all(outcomes.drop_last()).recorded(outcomes.last())
        }
    }

    /// The progress of a run of `total` tasks of which none has completed.
    pub fn new(total: usize) -> (progress: Self)
        ensures
            progress == (Progress { total, completed: 0, skipped: 0, failed: 0 }),
            progress.well_formed(),
    {
        Progress { total, completed: 0, skipped: 0, failed: 0 }
    }

    /// Whether every task has completed.
    pub fn is_finished(&self) -> (done: bool)
        ensures
            done == (self.completed == self.total),
    {
        self.completed == self.total
    }

    /// How many tasks have not completed yet.
    pub fn remaining(&self) -> (left: usize)
        requires
            self.well_formed(),
        ensures
            left == self.total - self.completed,
    {
        self.total - self.completed
    }

    /// Counts one completed task and returns how many have completed now.
    pub fn record(&mut self, outcome: Outcome) -> (current: usize)
        requires
            old(self).well_formed(),
            old(self).completed < old(self).total,
        ensures
            *final(self) == old(self).recorded(outcome),
            final(self).well_formed(),
            current == old(self).completed + 1,
    {
        self.completed = self.completed + 1;
        match outcome {
            Outcome::Skipped => {
                self.skipped = self.skipped + 1;
            },
            Outcome::DirectoryFailed | Outcome::TranscodeFailed => {
                self.failed = self.failed + 1;
            },
            Outcome::Converted => {},
        }
        self.completed
    }

    /// Counts one completed task unless every task has been counted already;
    /// returns how many have completed now, or nothing where none was left
    /// to count.
    pub fn try_record(&mut self, outcome: Outcome) -> (current: Option<usize>)
        requires
            old(self).well_formed(),
        ensures
            final(self).well_formed(),
            old(self).completed < old(self).total ==> *final(self) == old(self).recorded(outcome)
                && current == Some((old(self).completed + 1) as usize),
            old(self).completed == old(self).total ==> *final(self) == *old(self) && current
                is None,
    {
        if self.completed < self.total {
            Some(self.record(outcome))
        } else {
            None
        }
    }

    /// The summary of the run as far as it has come.
    pub fn summary(&self) -> (summary: RunSummary)
        ensures
            summary == (RunSummary {
                discovered: self.total,
                processed: self.completed,
                failed: self.failed,
            }),
    {
        RunSummary { discovered: self.total, processed: self.completed, failed: self.failed }
    }
}

/// Recording the outcomes of no more tasks than the run has counts each of
/// them once: the count of completed tasks is the number of outcomes, the
/// counts of skipped and failed tasks are the numbers of such outcomes, and
/// the order of the outcomes does not matter to any of them.
pub proof fn lemma_every_completion_is_counted_once(total: usize, outcomes: Seq<Outcome>)
    requires
        outcomes.len() <= total,
    ensures
        ({
            let start = Progress { total, completed: 0, skipped: 0, failed: 0 };
            let end = start.recorded_all(outcomes);
            &&& end.well_formed()
            &&& end.total == total
            &&& end.completed == outcomes.len()
            &&& end.skipped == skips_in(outcomes)
            &&& end.failed == failures_in(outcomes)
        }),
    decreases outcomes.len(),
{
    if outcomes.len() > 0 {
        lemma_every_completion_is_counted_once(total, outcomes.drop_last());
    }
}

/// Once as many outcomes are recorded as the run has tasks, the count has
/// reached the number of tasks exactly, whether tasks failed or not.
pub proof fn lemma_counter_reaches_total(total: usize, outcomes: Seq<Outcome>)
    requires
        outcomes.len() == total,
    ensures
        (Progress { total, completed: 0, skipped: 0, failed: 0 }).recorded_all(outcomes).completed
            == total,
{
    lemma_every_completion_is_counted_once(total, outcomes);
}

/// The number reported for the task that completes as number `k + 1` is
/// `k + 1`: the numbers handed out over a run are 1, 2, 3 and so on, none
/// twice and none left out.
pub proof fn lemma_counts_are_consecutive(total: usize, outcomes: Seq<Outcome>, k: int)
    requires
        outcomes.len() <= total,
        0 <= k < outcomes.len(),
    ensures
        (Progress { total, completed: 0, skipped: 0, failed: 0 }).recorded_all(
            outcomes.subrange(0, k + 1),
        ).completed == k + 1,
        (Progress { total, completed: 0, skipped: 0, failed: 0 }).recorded_all(
            outcomes.subrange(0, k),
        ).completed == k,
{
    lemma_every_completion_is_counted_once(total, outcomes.subrange(0, k + 1));
    lemma_every_completion_is_counted_once(total, outcomes.subrange(0, k));
}

/// A failure does not stop the run: whatever the outcome of one task, the
/// tasks before and after it are counted all the same, and the count reaches
/// the number of outcomes.
pub proof fn lemma_failure_does_not_stop_the_count(
    total: usize,
    before: Seq<Outcome>,
    outcome: Outcome,
    after: Seq<Outcome>,
)
    requires
        before.len() + 1 + after.len() <= total,
    ensures
        ({
            let start = Progress { total, completed: 0, skipped: 0, failed: 0 };
            let with_it = start.recorded_all(before + seq![outcome] + after);
            let with_success = start.recorded_all(before + seq![Outcome::Converted] + after);
            &&& with_it.completed == before.len() + 1 + after.len()
            &&& with_it.completed == with_success.completed
        }),
{
    lemma_every_completion_is_counted_once(total, before + seq![outcome] + after);
    lemma_every_completion_is_counted_once(total, before + seq![Outcome::Converted] + after);
}

} // verus!
