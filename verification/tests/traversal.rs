use vidsum::entry::classify;
use vidsum::entry::plan_level;
use vidsum::entry::plan_listing;
use vidsum::entry::Entry;
use vidsum::entry::EntryKind;
use vidsum::entry::Task;
use vidsum::entry::TraverseError;
use vidsum::entry::subtree_contribution;
use vidsum::fanin::sort_by_path;
use vidsum::fanin::sum_durations;
use vidsum::fanin::Collector;
use vidsum::fanin::ProbeResult;
use vidsum::limiter::Limiter;
use vidsum::parse::parse_duration_output;
use vidsum::probe::duration_or_zero;
use vidsum::probe::probe_tool_args;
use vidsum::probe::probe_tool_name;
use vidsum::probe::ProbeError;

fn entry(path: &str, name: &str, is_dir: bool) -> Entry {
    Entry {
        path: String::from(path),
        name: String::from(name),
        is_dir,
    }
}

fn result(path: &str, micros: u64) -> ProbeResult {
    ProbeResult {
        path: String::from(path),
        micros,
    }
}

#[test]
fn classifies_directories_first() {
    assert_eq!(classify(&entry("d/clips.mp4", "clips.mp4", true)), EntryKind::Directory);
    assert_eq!(classify(&entry("d/sub", "sub", true)), EntryKind::Directory);
}

#[test]
fn classifies_recognized_video_extensions() {
    assert_eq!(classify(&entry("d/a.mp4", "a.mp4", false)), EntryKind::VideoFile);
    assert_eq!(classify(&entry("d/a.avi", "a.avi", false)), EntryKind::VideoFile);
    assert_eq!(classify(&entry("d/a.mov", "a.mov", false)), EntryKind::VideoFile);
    assert_eq!(classify(&entry("d/a.mkv", "a.mkv", false)), EntryKind::VideoFile);
    assert_eq!(classify(&entry("d/a.tar.mkv", "a.tar.mkv", false)), EntryKind::VideoFile);
}

#[test]
fn ignores_unrecognized_names() {
    assert_eq!(classify(&entry("d/notes.txt", "notes.txt", false)), EntryKind::Ignored);
    assert_eq!(classify(&entry("d/A.MP4", "A.MP4", false)), EntryKind::Ignored);
    assert_eq!(classify(&entry("d/mp4", "mp4", false)), EntryKind::Ignored);
    assert_eq!(classify(&entry("d/.mp4", ".mp4", false)), EntryKind::Ignored);
    assert_eq!(classify(&entry("d/clip.mp4.part", "clip.mp4.part", false)), EntryKind::Ignored);
}

#[test]
fn plans_one_task_per_recognized_entry() {
    let entries = vec![
        entry("d/sub", "sub", true),
        entry("d/a.mp4", "a.mp4", false),
        entry("d/notes.txt", "notes.txt", false),
        entry("d/b.mkv", "b.mkv", false),
    ];
    let tasks = plan_level(&entries);
    assert_eq!(tasks.len(), 3);
    match &tasks[0] {
        Task::Recurse { path } => assert_eq!(path, "d/sub"),
        Task::Probe { .. } => panic!("expected a recursion task"),
    }
    match &tasks[1] {
        Task::Probe { path } => assert_eq!(path, "d/a.mp4"),
        Task::Recurse { .. } => panic!("expected a probe task"),
    }
    match &tasks[2] {
        Task::Probe { path } => assert_eq!(path, "d/b.mkv"),
        Task::Recurse { .. } => panic!("expected a probe task"),
    }
}

#[test]
fn empty_directory_plans_no_tasks() {
    let tasks = plan_level(&Vec::new());
    assert_eq!(tasks.len(), 0);
    let collector = Collector::for_tasks(&tasks);
    assert!(collector.is_complete());
    let (results, total) = collector.finish();
    assert_eq!(results.len(), 0);
    assert_eq!(total, 0);
}

#[test]
fn unreadable_listing_is_a_directory_read_error() {
    let planned = plan_listing(None);
    assert!(matches!(planned, Err(TraverseError::DirectoryReadError)));
    let planned = plan_listing(Some(vec![entry("d/a.mp4", "a.mp4", false)]));
    assert_eq!(planned.map(|tasks| tasks.len()), Ok(1));
}

#[test]
fn failed_subtree_contributes_zero() {
    assert_eq!(subtree_contribution(Err(TraverseError::DirectoryReadError)), 0);
    assert_eq!(subtree_contribution(Ok(61_500_000)), 61_500_000);
}

#[test]
fn failed_probe_contributes_zero() {
    assert_eq!(duration_or_zero(Err(ProbeError::LaunchFailure)), 0);
    assert_eq!(duration_or_zero(Err(ProbeError::ParseFailure)), 0);
    assert_eq!(duration_or_zero(Ok(120_000_000)), 120_000_000);
    assert_eq!(duration_or_zero(parse_duration_output("garbage")), 0);
    assert_eq!(duration_or_zero(parse_duration_output("")), 0);
}

#[test]
fn collector_expects_one_result_per_task() {
    let entries = vec![
        entry("d/sub", "sub", true),
        entry("d/a.mp4", "a.mp4", false),
    ];
    let tasks = plan_level(&entries);
    let mut collector = Collector::for_tasks(&tasks);
    assert!(!collector.is_complete());
    collector.deliver(result("d/a.mp4", 61_500_000));
    assert!(!collector.is_complete());
    collector.deliver(result("d/sub", 120_000_000));
    assert!(collector.is_complete());
    let (results, total) = collector.finish();
    assert_eq!(results.len(), 2);
    assert_eq!(total, 181_500_000);
}

#[test]
fn total_is_independent_of_arrival_order() {
    let mut first = Collector::for_tasks(&plan_level(&vec![
        entry("d/a.mp4", "a.mp4", false),
        entry("d/b.mp4", "b.mp4", false),
        entry("d/c.mp4", "c.mp4", false),
    ]));
    first.deliver(result("d/a.mp4", 10));
    first.deliver(result("d/b.mp4", 20));
    first.deliver(result("d/c.mp4", 30));
    let mut second = Collector::for_tasks(&plan_level(&vec![
        entry("d/a.mp4", "a.mp4", false),
        entry("d/b.mp4", "b.mp4", false),
        entry("d/c.mp4", "c.mp4", false),
    ]));
    second.deliver(result("d/c.mp4", 30));
    second.deliver(result("d/a.mp4", 10));
    second.deliver(result("d/b.mp4", 20));
    let (first_results, first_total) = first.finish();
    let (second_results, second_total) = second.finish();
    assert_eq!(first_total, 60);
    assert_eq!(second_total, 60);
    let first_paths: Vec<&str> = first_results.iter().map(|r| r.path.as_str()).collect();
    let second_paths: Vec<&str> = second_results.iter().map(|r| r.path.as_str()).collect();
    assert_eq!(first_paths, vec!["d/a.mp4", "d/b.mp4", "d/c.mp4"]);
    assert_eq!(first_paths, second_paths);
}

#[test]
fn results_are_ordered_by_path() {
    let sorted = sort_by_path(vec![
        result("d/zz.mp4", 3),
        result("d/sub", 2),
        result("d/aa.mp4", 1),
        result("d/sub/x.mp4", 4),
    ]);
    let paths: Vec<&str> = sorted.iter().map(|r| r.path.as_str()).collect();
    assert_eq!(paths, vec!["d/aa.mp4", "d/sub", "d/sub/x.mp4", "d/zz.mp4"]);
}

#[test]
fn sum_saturates_at_the_largest_total() {
    assert_eq!(sum_durations(&vec![result("a", u64::MAX), result("b", 1)]), u64::MAX);
    assert_eq!(sum_durations(&Vec::new()), 0);
    assert_eq!(sum_durations(&vec![result("a", 1), result("b", 2)]), 3);
}

#[test]
fn nested_level_totals_compose() {
    // one file of 61.5 s beside one subdirectory holding a 120.0 s file
    let inner_probe = parse_duration_output("120.000000").unwrap_or(0);
    let mut inner = Collector::for_tasks(&plan_level(&vec![entry(
        "d/sub/film.mp4",
        "film.mp4",
        false,
    )]));
    inner.deliver(result("d/sub/film.mp4", inner_probe));
    let (_, inner_total) = inner.finish();
    assert_eq!(inner_total, 120_000_000);

    let outer_probe = parse_duration_output("61.500000").unwrap_or(0);
    let mut outer = Collector::for_tasks(&plan_level(&vec![
        entry("d/clip.mp4", "clip.mp4", false),
        entry("d/sub", "sub", true),
    ]));
    outer.deliver(result("d/clip.mp4", outer_probe));
    outer.deliver(result("d/sub", inner_total));
    let (_, total) = outer.finish();
    assert_eq!(total, 181_500_000);
    assert_eq!(
        vidsum::report::format_total(total),
        "0 hours, 3 minutes, 1 seconds"
    );
}

#[test]
fn limiter_never_grants_beyond_the_limit() {
    let mut slots = Limiter::new(2);
    assert!(slots.try_acquire());
    assert!(slots.try_acquire());
    assert!(!slots.try_acquire());
    slots.release();
    assert!(slots.try_acquire());
    assert!(!slots.try_acquire());
}

#[test]
fn zero_limit_is_raised_to_one() {
    let mut slots = Limiter::new(0);
    assert!(slots.try_acquire());
    assert!(!slots.try_acquire());
}

#[test]
fn probe_invocation_is_fixed() {
    assert_eq!(probe_tool_name(), "ffprobe");
    assert_eq!(
        probe_tool_args(),
        vec![
            "-v",
            "error",
            "-show_entries",
            "format=duration",
            "-of",
            "default=noprint_wrappers=1:nokey=1",
        ]
    );
}
