use content_search::filter::FilterPolicy;
use content_search::matcher::SearchError;
use content_search::model::{
    Candidate, Entry, MatchedFile, ReadOutcome, SkipReason, SkippedFile,
};
use content_search::pipeline::{perform_search, scan_file, Observation};
use content_search::matcher::Matcher;
use content_search::results::{Outcome, SearchResults};

fn strings(items: &[&str]) -> Vec<String> {
    items.iter().map(|s| s.to_string()).collect()
}

fn no_limits() -> FilterPolicy {
    FilterPolicy { extensions: Vec::new(), max_size: None, max_queued: None }
}

fn file(path: &str, size: u64, content: &str) -> Observation {
    Observation {
        entry: Entry::File(Candidate { path: path.to_string(), size }),
        read: ReadOutcome::Content(content.as_bytes().to_vec()),
    }
}

fn other(entry: Entry) -> Observation {
    Observation { entry, read: ReadOutcome::OpenFailed }
}

fn skipped(path: &str, reason: SkipReason) -> SkippedFile {
    SkippedFile { path: path.to_string(), reason }
}

fn matched(path: &str, patterns: &[&str]) -> MatchedFile {
    MatchedFile { path: path.to_string(), patterns: strings(patterns) }
}

#[test]
fn three_files_land_in_three_buckets() {
    let big = "z".repeat(5000);
    let snapshot = vec![
        file("root/a.txt", 10, "foobar"),
        file("root/b.txt", 200, "only baz in here"),
        file("root/c.bin", 5000, &big),
    ];
    let policy = FilterPolicy { extensions: Vec::new(), max_size: Some(1000), max_queued: None };
    let results = perform_search(policy, strings(&["foo", "bar"]), &snapshot).unwrap();
    assert_eq!(results.matched(), &vec![matched("root/a.txt", &["foo", "bar"])]);
    assert_eq!(results.unmatched(), &strings(&["root/b.txt"]));
    assert_eq!(results.skipped(), &vec![skipped("root/c.bin", SkipReason::SizeExceeded)]);
    assert_eq!(results.matched_len(), 1);
    assert_eq!(results.unmatched_len(), 1);
    assert_eq!(results.skipped_len(), 1);
}

#[test]
fn overlapping_patterns_are_both_reported() {
    let snapshot = vec![file("f", 7, "xxabcxx")];
    let results = perform_search(no_limits(), strings(&["ab", "abc"]), &snapshot).unwrap();
    assert_eq!(results.matched(), &vec![matched("f", &["ab", "abc"])]);
    assert_eq!(results.unmatched_len(), 0);
}

#[test]
fn empty_pattern_list_is_rejected() {
    let snapshot = vec![file("f", 3, "abc")];
    let run = perform_search(no_limits(), Vec::new(), &snapshot);
    assert_eq!(run, Err(SearchError::EmptyPatternSet));
    let empty: Vec<Observation> = Vec::new();
    assert_eq!(perform_search(no_limits(), Vec::new(), &empty), Err(SearchError::EmptyPatternSet));
}

#[test]
fn empty_snapshot_gives_empty_buckets() {
    let empty: Vec<Observation> = Vec::new();
    let results = perform_search(no_limits(), strings(&["x"]), &empty).unwrap();
    assert_eq!(results, SearchResults::new());
    assert_eq!(results.matched_len() + results.unmatched_len() + results.skipped_len(), 0);
}

#[test]
fn every_skip_reason_is_reported() {
    let snapshot = vec![
        other(Entry::Unreadable { path: None }),
        other(Entry::NotAFile),
        other(Entry::NonTextPath),
        other(Entry::NoMetadata { path: "d/nometa.rs".to_string() }),
        file("d/readme.md", 5, "alpha"),
        file("d/huge.rs", 101, "alpha"),
        Observation {
            entry: Entry::File(Candidate { path: "d/locked.rs".to_string(), size: 1 }),
            read: ReadOutcome::OpenFailed,
        },
        Observation {
            entry: Entry::File(Candidate { path: "d/broken.rs".to_string(), size: 2 }),
            read: ReadOutcome::ReadFailed,
        },
        file("d/hit.rs", 100, "xx alpha xx"),
        file("d/miss.rs", 3, "beta"),
    ];
    let policy = FilterPolicy {
        extensions: strings(&[".rs"]),
        max_size: Some(100),
        max_queued: None,
    };
    let results = perform_search(policy, strings(&["alpha"]), &snapshot).unwrap();
    assert_eq!(
        results.skipped(),
        &vec![
            skipped("unknown", SkipReason::EnumerationError),
            skipped("unknown", SkipReason::PathEncodingError),
            skipped("d/nometa.rs", SkipReason::MetadataError),
            skipped("d/readme.md", SkipReason::ExtensionMismatch),
            skipped("d/huge.rs", SkipReason::SizeExceeded),
            skipped("d/locked.rs", SkipReason::OpenError),
            skipped("d/broken.rs", SkipReason::ReadError),
        ]
    );
    assert_eq!(results.matched(), &vec![matched("d/hit.rs", &["alpha"])]);
    assert_eq!(results.unmatched(), &strings(&["d/miss.rs"]));
}

#[test]
fn every_visited_file_has_one_record() {
    let snapshot = vec![
        file("a.rs", 1, "needle"),
        other(Entry::NotAFile),
        file("b.txt", 1, "needle"),
        other(Entry::Unreadable { path: None }),
        file("c.rs", 1, "hay"),
        file("d.rs", 1, "needle"),
        file("e.rs", 1, "needle"),
    ];
    let policy = FilterPolicy {
        extensions: strings(&[".rs"]),
        max_size: None,
        max_queued: Some(3),
    };
    let results = perform_search(policy, strings(&["needle"]), &snapshot).unwrap();
    // e.rs arrives when three files are queued: it is never considered
    assert_eq!(results.matched(), &vec![matched("a.rs", &["needle"]), matched("d.rs", &["needle"])]);
    assert_eq!(results.unmatched(), &strings(&["c.rs"]));
    assert_eq!(
        results.skipped(),
        &vec![
            skipped("b.txt", SkipReason::ExtensionMismatch),
            skipped("unknown", SkipReason::EnumerationError),
        ]
    );
    assert_eq!(results.matched_len() + results.unmatched_len() + results.skipped_len(), 5);
    let mut paths: Vec<String> = Vec::new();
    paths.extend(results.matched().iter().map(|m| m.path.clone()));
    paths.extend(results.unmatched().iter().cloned());
    paths.extend(results.skipped().iter().map(|s| s.path.clone()));
    paths.sort();
    assert_eq!(paths, strings(&["a.rs", "b.txt", "c.rs", "d.rs", "unknown"]));
}

#[test]
fn two_runs_give_identical_results() {
    let snapshot = vec![
        file("one", 6, "abcabc"),
        file("two", 3, "cab"),
        other(Entry::NonTextPath),
        file("three", 0, ""),
    ];
    let policy = || FilterPolicy { extensions: Vec::new(), max_size: Some(5), max_queued: Some(2) };
    let patterns = strings(&["c", "bc", "abc", "ca"]);
    let first = perform_search(policy(), patterns.clone(), &snapshot).unwrap();
    let second = perform_search(policy(), patterns, &snapshot).unwrap();
    assert_eq!(first, second);
    assert_eq!(
        first.matched(),
        &vec![matched("two", &["c", "ca"])]
    );
    assert_eq!(first.unmatched(), &strings(&["three"]));
    assert_eq!(
        first.skipped(),
        &vec![
            skipped("one", SkipReason::SizeExceeded),
            skipped("unknown", SkipReason::PathEncodingError),
        ]
    );
}

#[test]
fn reported_patterns_come_from_the_list_without_repeats() {
    let snapshot = vec![file("f", 9, "abab cdcd")];
    let patterns = strings(&["cd", "ab", "cd", "zz", "ab", "b"]);
    let results = perform_search(no_limits(), patterns.clone(), &snapshot).unwrap();
    let reported = &results.matched()[0].patterns;
    assert_eq!(reported, &strings(&["ab", "b", "cd"]));
    for p in reported {
        assert!(patterns.contains(p));
    }
    for (i, p) in reported.iter().enumerate() {
        assert!(!reported[..i].contains(p));
    }
}

#[test]
fn scan_file_maps_read_failures_to_skips() {
    let matcher = Matcher::new(strings(&["a"])).unwrap();
    assert_eq!(
        scan_file(&matcher, "p".to_string(), &ReadOutcome::OpenFailed),
        Outcome::Skipped(skipped("p", SkipReason::OpenError))
    );
    assert_eq!(
        scan_file(&matcher, "p".to_string(), &ReadOutcome::ReadFailed),
        Outcome::Skipped(skipped("p", SkipReason::ReadError))
    );
    assert_eq!(
        scan_file(&matcher, "p".to_string(), &ReadOutcome::Content(b"xyz".to_vec())),
        Outcome::Unmatched("p".to_string())
    );
    assert_eq!(
        scan_file(&matcher, "p".to_string(), &ReadOutcome::Content(b"xaz".to_vec())),
        Outcome::Matched(matched("p", &["a"]))
    );
}

#[test]
fn size_on_record_and_content_are_independent() {
    // the size filter goes by the recorded size, the scan by the bytes read
    let snapshot = vec![file("small", 1, "a much longer content with key inside")];
    let policy = FilterPolicy { extensions: Vec::new(), max_size: Some(2), max_queued: None };
    let results = perform_search(policy, strings(&["key"]), &snapshot).unwrap();
    assert_eq!(results.matched(), &vec![matched("small", &["key"])]);
}

#[test]
fn search_with_patterns_always_runs() {
    let empty: Vec<Observation> = Vec::new();
    assert!(perform_search(no_limits(), strings(&[""]), &empty).is_ok());
    assert!(perform_search(no_limits(), strings(&["a", "a"]), &empty).is_ok());
    let long = "x".repeat(2_000);
    assert!(perform_search(no_limits(), vec![long], &empty).is_ok());
}

#[test]
fn file_at_the_size_limit_is_scanned() {
    let snapshot = vec![
        file("at", 50, "has key"),
        file("above", 51, "has key"),
        Observation {
            entry: Entry::File(Candidate { path: "at_but_locked".to_string(), size: 50 }),
            read: ReadOutcome::OpenFailed,
        },
    ];
    let policy = FilterPolicy { extensions: Vec::new(), max_size: Some(50), max_queued: None };
    let results = perform_search(policy, strings(&["key"]), &snapshot).unwrap();
    assert_eq!(results.matched(), &vec![matched("at", &["key"])]);
    assert_eq!(
        results.skipped(),
        &vec![
            skipped("above", SkipReason::SizeExceeded),
            skipped("at_but_locked", SkipReason::OpenError),
        ]
    );
}
