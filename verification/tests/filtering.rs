use content_search::filter::{FilterPolicy, QueueBuilder};
use content_search::model::{unknown_path_string, Candidate, Entry, SkipReason, SkippedFile};
use content_search::paths::root_glob_pattern;

fn strings(items: &[&str]) -> Vec<String> {
    items.iter().map(|s| s.to_string()).collect()
}

fn policy(extensions: &[&str], max_size: Option<u64>, max_queued: Option<usize>) -> FilterPolicy {
    FilterPolicy { extensions: strings(extensions), max_size, max_queued }
}

fn file(path: &str, size: u64) -> Entry {
    Entry::File(Candidate { path: path.to_string(), size })
}

fn skipped(path: &str, reason: SkipReason) -> SkippedFile {
    SkippedFile { path: path.to_string(), reason }
}

fn run(policy: FilterPolicy, entries: &[Entry]) -> (Vec<String>, Vec<SkippedFile>) {
    let mut builder = QueueBuilder::new(policy);
    for entry in entries {
        builder.offer(entry);
    }
    builder.finish()
}

#[test]
fn size_limit_zero_disables_the_size_filter() {
    for limit in [None, Some(0)] {
        let p = policy(&[], limit, None);
        assert!(p.allows_size(0));
        assert!(p.allows_size(1));
        assert!(p.allows_size(u64::MAX));
        let (queued, skipped) = run(p, &[file("a", 0), file("b", u64::MAX)]);
        assert_eq!(queued, strings(&["a", "b"]));
        assert!(skipped.is_empty());
    }
}

#[test]
fn size_limit_is_inclusive() {
    let p = policy(&[], Some(1000), None);
    assert!(p.allows_size(999));
    assert!(p.allows_size(1000));
    assert!(!p.allows_size(1001));
    let (queued, skipped) = run(p, &[file("at", 1000), file("over", 1001), file("under", 1)]);
    assert_eq!(queued, strings(&["at", "under"]));
    assert_eq!(skipped, vec![skipped_record("over")]);
}

fn skipped_record(path: &str) -> SkippedFile {
    skipped(path, SkipReason::SizeExceeded)
}

#[test]
fn empty_extension_list_admits_every_path() {
    let p = policy(&[], None, None);
    assert!(p.allows_extension("a.rs"));
    assert!(p.allows_extension("no_extension"));
    assert!(p.allows_extension(""));
}

#[test]
fn extension_must_match_with_its_dot() {
    let p = policy(&[".rs", ".toml"], None, None);
    assert!(p.allows_extension("src/main.rs"));
    assert!(p.allows_extension("Cargo.toml"));
    assert!(p.allows_extension(".rs"));
    assert!(!p.allows_extension("src/mainrs"));
    assert!(!p.allows_extension("src/main.rs.bak"));
    assert!(!p.allows_extension("src/main.RS"));
    assert!(!p.allows_extension("rs"));
    assert!(!p.allows_extension(""));
    let (queued, skipped_files) = run(p, &[file("x.rs", 1), file("xrs", 1), file("x.toml", 1)]);
    assert_eq!(queued, strings(&["x.rs", "x.toml"]));
    assert_eq!(skipped_files, vec![skipped("xrs", SkipReason::ExtensionMismatch)]);
}

#[test]
fn extension_is_tested_before_size() {
    let p = policy(&[".c"], Some(10), None);
    let (queued, skipped_files) = run(p, &[file("big.h", 11), file("big.c", 11)]);
    assert!(queued.is_empty());
    assert_eq!(
        skipped_files,
        vec![
            skipped("big.h", SkipReason::ExtensionMismatch),
            skipped("big.c", SkipReason::SizeExceeded),
        ]
    );
}

#[test]
fn queue_limit_is_a_hard_cutoff() {
    let mut builder = QueueBuilder::new(policy(&[], None, Some(2)));
    assert!(builder.offer(&file("a", 1)));
    assert!(builder.offer(&file("b", 1)));
    assert_eq!(builder.queued_len(), 2);
    assert!(!builder.is_stopped());
    // the queue is full, but only a regular file that could be queued stops the run
    assert!(builder.offer(&Entry::NotAFile));
    assert!(builder.offer(&Entry::Unreadable { path: None }));
    assert!(builder.offer(&Entry::NoMetadata { path: "m".to_string() }));
    assert!(!builder.offer(&file("c", 1)));
    assert!(builder.is_stopped());
    // nothing changes any more
    assert!(!builder.offer(&file("d", 1)));
    assert!(!builder.offer(&Entry::Unreadable { path: None }));
    assert_eq!(builder.queued_len(), 2);
    assert_eq!(builder.skipped_len(), 2);
    let (queued, skipped_files) = builder.finish();
    assert_eq!(queued, strings(&["a", "b"]));
    assert_eq!(
        skipped_files,
        vec![
            skipped("unknown", SkipReason::EnumerationError),
            skipped("m", SkipReason::MetadataError),
        ]
    );
}

#[test]
fn queue_limit_comes_before_extension_and_size() {
    let (queued, skipped_files) =
        run(policy(&[".a"], Some(5), Some(1)), &[file("x.b", 1), file("x.a", 1), file("y.b", 9)]);
    assert_eq!(queued, strings(&["x.a"]));
    assert_eq!(skipped_files, vec![skipped("x.b", SkipReason::ExtensionMismatch)]);
}

#[test]
fn queue_limit_zero_means_no_limit() {
    for limit in [None, Some(0)] {
        let p = policy(&[], None, limit);
        assert!(!p.is_full(0));
        assert!(!p.is_full(usize::MAX));
        let (queued, _) = run(p, &[file("a", 1), file("b", 1), file("c", 1)]);
        assert_eq!(queued.len(), 3);
    }
    let p = policy(&[], None, Some(3));
    assert!(!p.is_full(2));
    assert!(p.is_full(3));
    assert!(p.is_full(4));
}

#[test]
fn entries_that_are_not_files_leave_no_record() {
    let (queued, skipped_files) = run(policy(&[], None, None), &[Entry::NotAFile, Entry::NotAFile]);
    assert!(queued.is_empty());
    assert!(skipped_files.is_empty());
}

#[test]
fn unrecoverable_paths_are_recorded_as_unknown() {
    assert_eq!(unknown_path_string(), "unknown");
    let (_, skipped_files) =
        run(policy(&[".x"], Some(1), None), &[Entry::Unreadable { path: None }, Entry::NonTextPath]);
    assert_eq!(
        skipped_files,
        vec![
            skipped("unknown", SkipReason::EnumerationError),
            skipped("unknown", SkipReason::PathEncodingError),
        ]
    );
}

#[test]
fn traversal_pattern_adds_a_separator_when_needed() {
    assert_eq!(root_glob_pattern("."), "./**/*");
    assert_eq!(root_glob_pattern("some/dir"), "some/dir/**/*");
    assert_eq!(root_glob_pattern("some/dir/"), "some/dir/**/*");
    assert_eq!(root_glob_pattern("C:\\data\\"), "C:\\data\\**/*");
    assert_eq!(root_glob_pattern(""), "/**/*");
    assert_eq!(root_glob_pattern("/"), "/**/*");
}

#[test]
fn failed_entry_keeps_its_path_when_known() {
    let (queued, skipped_files) = run(
        policy(&[], None, None),
        &[
            Entry::Unreadable { path: Some("dir/locked".to_string()) },
            Entry::Unreadable { path: None },
        ],
    );
    assert!(queued.is_empty());
    assert_eq!(
        skipped_files,
        vec![
            skipped("dir/locked", SkipReason::EnumerationError),
            skipped("unknown", SkipReason::EnumerationError),
        ]
    );
}
