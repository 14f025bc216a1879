//! The steps of one task, as a machine that its caller drives.
//!
//! The machine names the next thing to do on disk; the caller does it and
//! reports how it went; the machine answers with the step after that, until
//! the task is done.

use vstd::prelude::*;

verus! {

/// How a task ended.
#[derive(Debug, Clone, Copy, PartialEq, Eq, Structural)]
pub enum Outcome {
    /// The transcoder ran and succeeded.
    Converted,
    /// The output was there already and skipping was asked for.
    Skipped,
    /// The output directory could not be made.
    DirectoryFailed,
    /// The transcoder could not be started, or it failed.
    TranscodeFailed,
}

impl Outcome {
    /// The task failed, for whichever reason.
    pub open spec fn is_failure(self) -> bool {
        self == Outcome::DirectoryFailed || self == Outcome::TranscodeFailed
    }

    /// Whether the task failed, for whichever reason.
    pub fn failed(&self) -> (yes: bool)
        ensures
            yes == self.is_failure(),
    {
        match self {
            Outcome::DirectoryFailed => true,
            Outcome::TranscodeFailed => true,
            _ => false,
        }
    }
}

/// What the caller has to do next for a task.
#[derive(Debug, Clone, Copy, PartialEq, Eq, Structural)]
pub enum Stage {
    /// Make sure the output directory exists; report whether it does now. A
    /// directory that was there before counts as success.
    Prepare,
    /// Look whether the output file exists; report whether it does.
    Probe,
    /// Run the transcoder; report whether it ran and succeeded.
    Transcode,
    /// Nothing more: the task ended with this outcome.
    Done(Outcome),
}

/// The stage after `stage`, once the caller has reported `report` for it.
pub open spec fn advanced(stage: Stage, report: bool, skip_existing: bool) -> Stage {
    match stage {
        Stage::Prepare => if !report {
            Stage::Done(Outcome::DirectoryFailed)
        } else if skip_existing {
            Stage::Probe
        } else {
            Stage::Transcode
        },
        Stage::Probe => if report {
            Stage::Done(Outcome::Skipped)
        } else {
            Stage::Transcode
        },
        Stage::Transcode => if report {
            Stage::Done(Outcome::Converted)
        } else {
            Stage::Done(Outcome::TranscodeFailed)
        },
        Stage::Done(outcome) => Stage::Done(outcome),
    }
}

/// The stage reached from `stage` after the reports `reports`, in order.
pub open spec fn advanced_through(stage: Stage, reports: Seq<bool>, skip_existing: bool) -> Stage
    decreases reports.len(),
{
    if reports.len() == 0 {
        stage
    } else {
        advanced_through(advanced(stage, reports[0], skip_existing), reports.drop_first(), skip_existing)
    }
}

/// Whether the caller runs the transcoder at some point while the reports
/// `reports` come in, starting at `stage`.
pub open spec fn transcoder_runs(stage: Stage, reports: Seq<bool>, skip_existing: bool) -> bool
    decreases reports.len(),
{
    if reports.len() == 0 {
        false
    } else {
        stage == Stage::Transcode || transcoder_runs(
            advanced(stage, reports[0], skip_existing),
            reports.drop_first(),
            skip_existing,
        )
    }
}

/// The stage every task starts in.
pub fn first_stage() -> (stage: Stage)
    ensures
        stage == Stage::Prepare,
{
    Stage::Prepare
}

/// The stage after `stage`, given the caller's report on `stage`.
pub fn advance(stage: Stage, report: bool, skip_existing: bool) -> (next: Stage)
    ensures
        next == advanced(stage, report, skip_existing),
{
    match stage {
        Stage::Prepare => {
            if !report {
                Stage::Done(Outcome::DirectoryFailed)
            } else if skip_existing {
                Stage::Probe
            } else {
                Stage::Transcode
            }
        },
        Stage::Probe => {
            if report {
                Stage::Done(Outcome::Skipped)
            } else {
                Stage::Transcode
            }
        },
        Stage::Transcode => {
            if report {
                Stage::Done(Outcome::Converted)
            } else {
                Stage::Done(Outcome::TranscodeFailed)
            }
        },
        Stage::Done(outcome) => Stage::Done(outcome),
    }
}

/// A finished task stays finished, with its outcome.
pub proof fn lemma_done_is_final(outcome: Outcome, reports: Seq<bool>, skip_existing: bool)
    ensures
        advanced_through(Stage::Done(outcome), reports, skip_existing) == Stage::Done(outcome),
        !transcoder_runs(Stage::Done(outcome), reports, skip_existing),
    decreases reports.len(),
{
    if reports.len() > 0 {
        lemma_done_is_final(outcome, reports.drop_first(), skip_existing);
    }
}

/// Every task is done after three reports at most.
pub proof fn lemma_task_finishes(reports: Seq<bool>, skip_existing: bool)
    requires
        reports.len() >= 3,
    ensures
        advanced_through(Stage::Prepare, reports, skip_existing) is Done,
{
    let r1 = reports.drop_first();
    let r2 = r1.drop_first();
    let r3 = r2.drop_first();
    let s1 = advanced(Stage::Prepare, reports[0], skip_existing);
    let s2 = advanced(s1, r1[0], skip_existing);
    let s3 = advanced(s2, r2[0], skip_existing);
    assert(advanced_through(Stage::Prepare, reports, skip_existing) == advanced_through(
        s1,
        r1,
        skip_existing,
    ));
    assert(advanced_through(s1, r1, skip_existing) == advanced_through(s2, r2, skip_existing));
    assert(advanced_through(s2, r2, skip_existing) == advanced_through(s3, r3, skip_existing));
    assert(s3 is Done);
    lemma_done_is_final(s3->Done_0, r3, skip_existing);
}

/// With skipping asked for, a task whose output directory is ready and whose
/// output exists already ends as skipped, and the transcoder is never run for
/// it, whatever is reported afterwards.
pub proof fn lemma_existing_output_is_skipped(later: Seq<bool>)
    ensures
        advanced_through(Stage::Prepare, seq![true, true] + later, true) == Stage::Done(
            Outcome::Skipped,
        ),
        !transcoder_runs(Stage::Prepare, seq![true, true] + later, true),
{
    let reports = seq![true, true] + later;
    let r1 = reports.drop_first();
    assert(r1.drop_first() =~= later);
    assert(reports[0] && r1[0]);
    assert(advanced_through(Stage::Prepare, reports, true) == advanced_through(
        Stage::Probe,
        r1,
        true,
    ));
    assert(advanced_through(Stage::Probe, r1, true) == advanced_through(
        Stage::Done(Outcome::Skipped),
        later,
        true,
    ));
    assert(transcoder_runs(Stage::Prepare, reports, true) == transcoder_runs(
        Stage::Probe,
        r1,
        true,
    ));
    assert(transcoder_runs(Stage::Probe, r1, true) == transcoder_runs(
        Stage::Done(Outcome::Skipped),
        later,
        true,
    ));
    lemma_done_is_final(Outcome::Skipped, later, true);
}

/// The transcoder runs only once the output directory was reported ready: a
/// task whose first report is a failure never runs it and ends as failed.
pub proof fn lemma_no_transcoding_without_directory(later: Seq<bool>, skip_existing: bool)
    ensures
        advanced_through(Stage::Prepare, seq![false] + later, skip_existing) == Stage::Done(
            Outcome::DirectoryFailed,
        ),
        !transcoder_runs(Stage::Prepare, seq![false] + later, skip_existing),
{
    let reports = seq![false] + later;
    assert(reports.drop_first() =~= later);
    assert(!reports[0]);
    lemma_done_is_final(Outcome::DirectoryFailed, later, skip_existing);
}

/// When the transcoder runs for a task: exactly when the output directory was
/// reported ready and, with skipping asked for, the output was reported
/// missing. So it never runs before the directory is there, and never for an
/// output that is to be skipped.
pub proof fn lemma_when_the_transcoder_runs(reports: Seq<bool>, skip_existing: bool)
    ensures
        transcoder_runs(Stage::Prepare, reports, skip_existing) <==> if skip_existing {
            reports.len() >= 3 && reports[0] && !reports[1]
        } else {
            reports.len() >= 2 && reports[0]
        },
{
    if reports.len() > 0 {
        let r1 = reports.drop_first();
        let s1 = advanced(Stage::Prepare, reports[0], skip_existing);
        assert(transcoder_runs(Stage::Prepare, reports, skip_existing) == transcoder_runs(
            s1,
            r1,
            skip_existing,
        ));
        if !reports[0] {
            lemma_done_is_final(Outcome::DirectoryFailed, r1, skip_existing);
        } else if skip_existing && r1.len() > 0 {
            let r2 = r1.drop_first();
            let s2 = advanced(Stage::Probe, r1[0], skip_existing);
            assert(r1[0] == reports[1]);
            assert(transcoder_runs(s1, r1, skip_existing) == transcoder_runs(
                s2,
                r2,
                skip_existing,
            ));
            if r1[0] {
                lemma_done_is_final(Outcome::Skipped, r2, skip_existing);
            }
        }
    }
}

/// With skipping asked for, the transcoder never runs for a task whose output
/// exists, whatever else is reported: where the probe is reached it answers
/// that the output is there, and the task ends as skipped, or as failed where
/// its directory could not be made.
pub proof fn lemma_existing_output_is_never_transcoded(reports: Seq<bool>)
    requires
        reports.len() >= 2 ==> reports[1],
    ensures
        !transcoder_runs(Stage::Prepare, reports, true),
        reports.len() >= 2 ==> advanced_through(Stage::Prepare, reports, true) == Stage::Done(
            if reports[0] {
                Outcome::Skipped
            } else {
                Outcome::DirectoryFailed
            },
        ),
{
    lemma_when_the_transcoder_runs(reports, true);
    if reports.len() >= 2 {
        let r1 = reports.drop_first();
        let r2 = r1.drop_first();
        assert(r1[0] == reports[1]);
        let s1 = advanced(Stage::Prepare, reports[0], true);
        let s2 = advanced(s1, r1[0], true);
        assert(advanced_through(Stage::Prepare, reports, true) == advanced_through(s1, r1, true));
        assert(advanced_through(s1, r1, true) == advanced_through(s2, r2, true));
        if reports[0] {
            lemma_done_is_final(Outcome::Skipped, r2, true);
        } else {
            lemma_done_is_final(Outcome::DirectoryFailed, r2, true);
        }
    }
}

} // verus!
