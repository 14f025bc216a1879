use batch_transcode::batch::Policy;
use batch_transcode::progress::{Progress, RunSummary};
use batch_transcode::report::{
    batch_line, level_of, progress_line, push_counts, push_decimal, push_right_aligned, summary_line,
    Level,
};
use batch_transcode::stage::{advance, first_stage, Outcome, Stage};
use batch_transcode::task::plan_tasks;
use batch_transcode::walk::{Entry, EntryKind, Walk};

fn run_task(reports: &[bool], skip_existing: bool) -> (Stage, usize) {
    let mut stage = first_stage();
    let mut transcoder_runs = 0;
    for report in reports {
        if stage == Stage::Transcode {
            transcoder_runs += 1;
        }
        stage = advance(stage, *report, skip_existing);
    }
    (stage, transcoder_runs)
}

#[test]
fn a_task_starts_by_preparing_its_directory() {
    assert_eq!(first_stage(), Stage::Prepare);
}

#[test]
fn advance_follows_the_reports() {
    assert_eq!(advance(Stage::Prepare, true, false), Stage::Transcode);
    assert_eq!(advance(Stage::Prepare, true, true), Stage::Probe);
    assert_eq!(advance(Stage::Prepare, false, false), Stage::Done(Outcome::DirectoryFailed));
    assert_eq!(advance(Stage::Prepare, false, true), Stage::Done(Outcome::DirectoryFailed));
    assert_eq!(advance(Stage::Probe, true, true), Stage::Done(Outcome::Skipped));
    assert_eq!(advance(Stage::Probe, false, true), Stage::Transcode);
    assert_eq!(advance(Stage::Transcode, true, true), Stage::Done(Outcome::Converted));
    assert_eq!(advance(Stage::Transcode, false, false), Stage::Done(Outcome::TranscodeFailed));
    assert_eq!(advance(Stage::Done(Outcome::Skipped), false, true), Stage::Done(Outcome::Skipped));
}

#[test]
fn an_existing_output_is_skipped_without_transcoding() {
    assert_eq!(run_task(&[true, true], true), (Stage::Done(Outcome::Skipped), 0));
    assert_eq!(run_task(&[true, true, false, true], true), (Stage::Done(Outcome::Skipped), 0));
}

#[test]
fn without_skipping_an_existing_output_is_converted_again() {
    assert_eq!(run_task(&[true, true], false), (Stage::Done(Outcome::Converted), 1));
}

#[test]
fn a_missing_output_is_converted() {
    assert_eq!(run_task(&[true, false, true], true), (Stage::Done(Outcome::Converted), 1));
    assert_eq!(run_task(&[true, false, false], true), (Stage::Done(Outcome::TranscodeFailed), 1));
}

#[test]
fn a_directory_that_cannot_be_made_fails_the_task() {
    assert_eq!(run_task(&[false, true, true], true), (Stage::Done(Outcome::DirectoryFailed), 0));
    assert_eq!(run_task(&[false], false), (Stage::Done(Outcome::DirectoryFailed), 0));
}

#[test]
fn every_task_is_done_after_three_reports() {
    for skip in [false, true] {
        for a in [false, true] {
            for b in [false, true] {
                for c in [false, true] {
                    let (stage, runs) = run_task(&[a, b, c], skip);
                    assert!(matches!(stage, Stage::Done(_)));
                    assert!(runs <= 1);
                }
            }
        }
    }
}

#[test]
fn progress_counts_each_completion_once() {
    let mut progress = Progress::new(3);
    assert_eq!(progress, Progress { total: 3, completed: 0, skipped: 0, failed: 0 });
    assert!(!progress.is_finished());
    assert_eq!(progress.remaining(), 3);
    assert_eq!(progress.record(Outcome::Converted), 1);
    assert_eq!(progress.record(Outcome::TranscodeFailed), 2);
    assert_eq!(progress.remaining(), 1);
    assert!(!progress.is_finished());
    assert_eq!(progress.record(Outcome::Skipped), 3);
    assert!(progress.is_finished());
    assert_eq!(progress, Progress { total: 3, completed: 3, skipped: 1, failed: 1 });
    assert_eq!(progress.summary(), RunSummary { discovered: 3, processed: 3, failed: 1 });
}

#[test]
fn progress_reaches_the_total_in_any_order() {
    let orders = [
        [Outcome::TranscodeFailed, Outcome::Converted, Outcome::Skipped, Outcome::Converted],
        [Outcome::Converted, Outcome::Converted, Outcome::Skipped, Outcome::TranscodeFailed],
        [Outcome::Skipped, Outcome::TranscodeFailed, Outcome::Converted, Outcome::Converted],
    ];
    for order in orders {
        let mut progress = Progress::new(4);
        let mut seen = Vec::new();
        for outcome in order {
            seen.push(progress.record(outcome));
        }
        assert_eq!(seen, vec![1, 2, 3, 4]);
        assert_eq!(progress, Progress { total: 4, completed: 4, skipped: 1, failed: 1 });
    }
}

#[test]
fn try_record_stops_at_the_total() {
    let mut progress = Progress::new(1);
    assert_eq!(progress.try_record(Outcome::TranscodeFailed), Some(1));
    assert_eq!(progress.try_record(Outcome::Converted), None);
    assert_eq!(progress, Progress { total: 1, completed: 1, skipped: 0, failed: 1 });
    let mut empty = Progress::new(0);
    assert!(empty.is_finished());
    assert_eq!(empty.try_record(Outcome::Converted), None);
}

#[test]
fn a_failed_file_leaves_the_others_to_be_processed() {
    let mut progress = Progress::new(3);
    progress.record(Outcome::TranscodeFailed);
    assert!(!progress.is_finished());
    assert_eq!(progress.record(Outcome::Converted), 2);
    assert_eq!(progress.record(Outcome::Converted), 3);
    let summary = progress.summary();
    assert_eq!(summary, RunSummary { discovered: 3, processed: 3, failed: 1 });
    assert_eq!(summary.exit_code(), 0);
}

#[test]
fn batch_size_selects_the_policy() {
    assert_eq!(Policy::from_batch_size(0), Policy::Pooled);
    assert_eq!(Policy::from_batch_size(8), Policy::Chunked(8));
}

#[test]
fn pooled_runs_everything_in_one_batch() {
    assert_eq!(Policy::Pooled.batch_end(0, 10), 10);
    assert_eq!(Policy::Pooled.batches(10), vec![(0, 10)]);
    assert_eq!(Policy::Pooled.batches(0), Vec::<(usize, usize)>::new());
}

#[test]
fn chunked_runs_batches_of_the_given_size() {
    let policy = Policy::Chunked(4);
    assert_eq!(policy.batch_end(0, 10), 4);
    assert_eq!(policy.batch_end(4, 10), 8);
    assert_eq!(policy.batch_end(8, 10), 10);
    assert_eq!(policy.batch_end(10, 10), 10);
    assert_eq!(policy.batches(10), vec![(0, 4), (4, 8), (8, 10)]);
    assert_eq!(policy.batches(8), vec![(0, 4), (4, 8)]);
    assert_eq!(policy.batches(3), vec![(0, 3)]);
    assert_eq!(Policy::Chunked(1).batches(3), vec![(0, 1), (1, 2), (2, 3)]);
    assert_eq!(Policy::Chunked(0).batches(3), vec![(0, 3)]);
    assert_eq!(Policy::Chunked(usize::MAX).batch_end(2, usize::MAX), usize::MAX);
}

#[test]
fn batches_cover_every_task_once() {
    for size in 0..7 {
        for total in 0..20 {
            let batches = Policy::from_batch_size(size).batches(total);
            let mut next = 0;
            for (start, end) in batches {
                assert_eq!(start, next);
                assert!(start < end);
                next = end;
            }
            assert_eq!(next, total);
        }
    }
}

#[test]
fn decimal_digits() {
    for n in [0usize, 7, 10, 42, 100, 999, 1000, 65535, usize::MAX] {
        let mut out = vec!['#'];
        push_decimal(&mut out, n);
        assert_eq!(out.iter().collect::<String>(), format!("#{}", n));
    }
}

#[test]
fn right_alignment_pads_with_spaces() {
    let mut out = vec!['['];
    push_right_aligned(&mut out, &['7'], 4);
    assert_eq!(out, vec!['[', ' ', ' ', ' ', '7']);
    let mut out = Vec::new();
    push_right_aligned(&mut out, &['1', '2', '3', '4', '5'], 4);
    assert_eq!(out, vec!['1', '2', '3', '4', '5']);
    let mut out = Vec::new();
    push_right_aligned(&mut out, &['1', '2', '3', '4'], 4);
    assert_eq!(out, vec!['1', '2', '3', '4']);
}

#[test]
fn progress_lines() {
    assert_eq!(progress_line(1, 2, "a.mp3", Outcome::Converted), "[   1 / 2] : a.mp3");
    assert_eq!(progress_line(2, 2, "b.mp3", Outcome::TranscodeFailed), "[   2 / 2] : b.mp3");
    assert_eq!(progress_line(12, 340, "b.mp3", Outcome::Skipped), "[  12 / 340] : b.mp3 <** skipped **>");
    assert_eq!(progress_line(12345, 20000, "", Outcome::Converted), "[12345 / 20000] : ");
    for (current, total) in [(0usize, 0usize), (9, 10), (1000, 1000), (99999, 100000)] {
        assert_eq!(
            progress_line(current, total, "ü.mp3", Outcome::Converted),
            format!("[{:>4} / {}] : {}", current, total, "ü.mp3")
        );
        assert_eq!(
            progress_line(current, total, "x", Outcome::Skipped),
            format!("[{:>4} / {}] : {} <** skipped **>", current, total, "x")
        );
    }
}

#[test]
fn both_failures_count_as_failed() {
    assert!(Outcome::DirectoryFailed.failed());
    assert!(Outcome::TranscodeFailed.failed());
    assert!(!Outcome::Converted.failed());
    assert!(!Outcome::Skipped.failed());
    let mut progress = Progress::new(2);
    progress.record(Outcome::DirectoryFailed);
    progress.record(Outcome::TranscodeFailed);
    assert_eq!(progress, Progress { total: 2, completed: 2, skipped: 0, failed: 2 });
}

#[test]
fn levels_tell_the_outcomes_apart() {
    assert_eq!(level_of(Outcome::DirectoryFailed), Level::Error);
    assert_eq!(level_of(Outcome::Converted), Level::Info);
    assert_eq!(level_of(Outcome::Skipped), Level::Warn);
    assert_eq!(level_of(Outcome::TranscodeFailed), Level::Error);
}

#[test]
fn batch_lines() {
    assert_eq!(batch_line(4, 10), "[   4 / 10]");
    assert_eq!(batch_line(10, 10), "[  10 / 10]");
    assert_eq!(batch_line(12345, 20000), "[12345 / 20000]");
    let mut out = vec!['>'];
    push_counts(&mut out, 7, 8);
    assert_eq!(out.iter().collect::<String>(), ">[   7 / 8]");
}

#[test]
fn summary_lines() {
    assert_eq!(summary_line(2), "Converted 2 files");
    assert_eq!(summary_line(0), "Converted 0 files");
    assert_eq!(summary_line(1234), "Converted 1234 files");
}

fn entry(path: &str, is_directory: bool) -> Entry {
    let kind = if is_directory { EntryKind::Directory } else { EntryKind::File };
    Entry { path: path.to_string(), kind }
}

fn other(path: &str) -> Entry {
    Entry { path: path.to_string(), kind: EntryKind::Other }
}

#[test]
fn walk_passes_over_entries_that_are_neither_file_nor_directory() {
    let mut walk = Walk::new("in");
    walk.next_directory();
    walk.absorb(&[other("in/fifo"), entry("in/a.wav", false), other("in/dangling"), entry("in/sub", true)]);
    assert_eq!(walk.pending, vec!["in/sub".to_string()]);
    assert_eq!(walk.files, vec!["in/a.wav".to_string()]);
    walk.next_directory();
    walk.absorb(&[other("in/sub/socket")]);
    assert!(walk.is_finished());
    assert_eq!(walk.into_files(), vec!["in/a.wav".to_string()]);
}

#[test]
fn a_listing_of_special_entries_alone_gives_no_file() {
    let mut walk = Walk::new("in");
    walk.next_directory();
    walk.absorb(&[other("in/fifo")]);
    assert!(walk.is_finished());
    assert!(walk.into_files().is_empty());
}

#[test]
fn walk_starts_with_its_root() {
    let mut walk = Walk::new("in");
    assert!(!walk.is_finished());
    assert_eq!(walk.pending, vec!["in".to_string()]);
    assert!(walk.files.is_empty());
    assert_eq!(walk.next_directory(), Some("in".to_string()));
    assert!(walk.is_finished());
    assert_eq!(walk.next_directory(), None);
    assert!(walk.into_files().is_empty());
}

#[test]
fn walk_sorts_entries_into_directories_and_files() {
    let mut walk = Walk::new("in");
    walk.next_directory();
    walk.absorb(&[entry("in/a.wav", false), entry("in/sub", true), entry("in/c.ogg", false), entry("in/z", true)]);
    assert_eq!(walk.pending, vec!["in/sub".to_string(), "in/z".to_string()]);
    assert_eq!(walk.files, vec!["in/a.wav".to_string(), "in/c.ogg".to_string()]);
    assert_eq!(walk.next_directory(), Some("in/z".to_string()));
    walk.absorb(&[]);
    assert_eq!(walk.next_directory(), Some("in/sub".to_string()));
    assert_eq!(walk.files.len(), 2);
}

fn listing_of(dir: &str) -> Option<Vec<Entry>> {
    match dir {
        "in" => Some(vec![entry("in/a.wav", false), entry("in/sub", true), entry("in/locked", true)]),
        "in/sub" => Some(vec![entry("in/sub/b.flac", false), entry("in/sub/deep", true)]),
        "in/sub/deep" => Some(vec![entry("in/sub/deep/c.ogg", false), entry("in/sub/deep/d.m4a", false)]),
        _ => None,
    }
}

fn walk_tree(root: &str) -> Vec<String> {
    let mut walk = Walk::new(root);
    while let Some(dir) = walk.next_directory() {
        if let Some(listing) = listing_of(&dir) {
            walk.absorb(&listing);
        }
    }
    walk.into_files()
}

#[test]
fn walk_finds_every_file_once_and_passes_over_unreadable_directories() {
    let mut files = walk_tree("in");
    assert_eq!(files.len(), 4);
    files.sort();
    assert_eq!(files, vec!["in/a.wav", "in/sub/b.flac", "in/sub/deep/c.ogg", "in/sub/deep/d.m4a"]);
    assert!(walk_tree("missing").is_empty());
}

fn walk_with(listing_of: fn(&str) -> Option<Vec<Entry>>, root: &str) -> Vec<String> {
    let mut walk = Walk::new(root);
    while let Some(dir) = walk.next_directory() {
        if let Some(listing) = listing_of(&dir) {
            walk.absorb(&listing);
        }
    }
    walk.into_files()
}

fn listed_one_way(dir: &str) -> Option<Vec<Entry>> {
    match dir {
        "in" => Some(vec![entry("in/a.wav", false), entry("in/x", true), other("in/pipe"), entry("in/y", true)]),
        "in/x" => Some(vec![entry("in/x/b.flac", false), entry("in/x/c.ogg", false)]),
        "in/y" => Some(vec![entry("in/y/d.wav", false)]),
        _ => None,
    }
}

fn listed_another_way(dir: &str) -> Option<Vec<Entry>> {
    match dir {
        "in" => Some(vec![entry("in/y", true), other("in/pipe"), entry("in/x", true), entry("in/a.wav", false)]),
        "in/x" => Some(vec![entry("in/x/c.ogg", false), entry("in/x/b.flac", false)]),
        "in/y" => Some(vec![entry("in/y/d.wav", false)]),
        _ => None,
    }
}

#[test]
fn listing_order_changes_only_the_order_of_the_result() {
    let mut one = walk_with(listed_one_way, "in");
    let mut another = walk_with(listed_another_way, "in");
    assert_ne!(one, another);
    assert_eq!(one.len(), 4);
    one.sort();
    another.sort();
    assert_eq!(one, another);
    assert_eq!(one, vec!["in/a.wav", "in/x/b.flac", "in/x/c.ogg", "in/y/d.wav"]);
}

#[test]
fn a_small_tree_is_converted_whole() {
    let tree = |dir: &str| match dir {
        "in" => Some(vec![entry("in/a.wav", false), entry("in/sub", true)]),
        "in/sub" => Some(vec![entry("in/sub/b.flac", false)]),
        _ => None,
    };
    let mut walk = Walk::new("in");
    while let Some(dir) = walk.next_directory() {
        if let Some(listing) = tree(&dir) {
            walk.absorb(&listing);
        }
    }
    let files = walk.into_files();
    let tasks = plan_tasks("in", "out", &files);
    let pairs: Vec<(&str, &str)> = tasks.iter().map(|t| (t.input.as_str(), t.output.as_str())).collect();
    assert_eq!(pairs, vec![("in/a.wav", "out/a.mp3"), ("in/sub/b.flac", "out/sub/b.mp3")]);

    let mut made: Vec<String> = Vec::new();
    let mut log: Vec<String> = Vec::new();
    let mut progress = Progress::new(tasks.len());
    for task in &tasks {
        let mut stage = first_stage();
        let outcome = loop {
            let report = match stage {
                Stage::Prepare => {
                    made.push(task.output_directory().unwrap());
                    true
                }
                Stage::Probe => false,
                Stage::Transcode => {
                    assert!(made.contains(&task.output_directory().unwrap()));
                    log.push(task.transcoder_arguments().join(" "));
                    true
                }
                Stage::Done(outcome) => break outcome,
            };
            stage = advance(stage, report, false);
        };
        progress.record(outcome);
    }
    assert_eq!(made, vec!["out", "out/sub"]);
    assert_eq!(
        log,
        vec!["-i in/a.wav out/a.mp3 -nostdin", "-i in/sub/b.flac out/sub/b.mp3 -nostdin"]
    );
    assert!(progress.is_finished());
    assert_eq!(summary_line(progress.summary().processed), "Converted 2 files");
}
