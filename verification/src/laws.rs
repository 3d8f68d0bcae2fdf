//! What holds of every search: the laws of the filter, of the reports and of
//! the three buckets, each proved from the definitions of the other modules.

use vstd::multiset::Multiset;
use vstd::prelude::*;
use vstd::seq_lib::to_multiset_build;
use crate::filter::{decide, filter_entries, step, Decision, FilterPolicy, PolicyView};
use crate::model::{
    path_or_unknown, texts, unknown_path, EntryView, MatchedFileView, ReadView, SkipReason,
    SkippedFileView,
};
use crate::matcher::SearchError;
use crate::pipeline::{
    entries_of, lemma_one_read_per_queued, observed, queued_reads, run_model, run_view, scan_all,
    scan_outcome, search_model, Observation, ObservationView,
};
use crate::report::{is_faithful, lemma_match_report_exists};
use crate::results::{no_results, record, total, OutcomeView, ResultsView, SearchResults};

verus! {

/// The record of a file that is skipped for `reason`.
pub open spec fn skip_of(path: Seq<char>, reason: SkipReason) -> Decision {
    Decision::Skip(SkippedFileView { path, reason })
}

/// Without a size limit (none given, or zero) no file is turned away for its
/// size, whatever its size.
pub proof fn lemma_no_size_limit_admits_all(
    policy: PolicyView,
    queued: nat,
    path: Seq<char>,
    size: u64,
)
    requires
        policy.max_size is None || policy.max_size == Some(0u64),
    ensures
        policy.admits_size(size),
        decide(policy, queued, EntryView::File { path, size }) != skip_of(
            path,
            SkipReason::SizeExceeded,
        ),
{
}

/// With a size limit of `limit` above zero, a file is turned away for its
/// size exactly when it is larger than `limit`, the queue has room and its
/// extension is allowed; a file of exactly `limit` bytes never is. A larger
/// file is never queued.
pub proof fn lemma_size_limit_boundary(
    policy: PolicyView,
    queued: nat,
    path: Seq<char>,
    size: u64,
    limit: u64,
)
    requires
        policy.max_size == Some(limit),
        limit > 0,
    ensures
        policy.admits_size(size) <==> size <= limit,
        decide(policy, queued, EntryView::File { path, size }) == skip_of(
            path,
            SkipReason::SizeExceeded,
        ) <==> size > limit && !policy.queue_full(queued) && policy.admits_extension(path),
        size > limit ==> !(decide(policy, queued, EntryView::File { path, size }) is Enqueue),
        size > limit && !policy.queue_full(queued) ==> decide(
            policy,
            queued,
            EntryView::File { path, size },
        ) is Skip,
{
}

/// An empty extension list turns no file away for its extension.
pub proof fn lemma_no_extensions_admit_all(
    policy: PolicyView,
    queued: nat,
    path: Seq<char>,
    size: u64,
)
    requires
        policy.extensions.len() == 0,
    ensures
        policy.admits_extension(path),
        decide(policy, queued, EntryView::File { path, size }) != skip_of(
            path,
            SkipReason::ExtensionMismatch,
        ),
{
}

/// With a non-empty extension list, a file is queued only if its path ends
/// with one of the listed suffixes, whole suffix included; a file whose path
/// ends with none is turned away for its extension as long as the queue has
/// room.
pub proof fn lemma_extensions_admit_only_listed(
    policy: PolicyView,
    queued: nat,
    path: Seq<char>,
    size: u64,
)
    requires
        policy.extensions.len() > 0,
    ensures
        policy.admits_extension(path) <==> exists|i: int|
            0 <= i < policy.extensions.len() && (#[trigger] policy.extensions[i]).is_suffix_of(
                path,
            ),
        decide(policy, queued, EntryView::File { path, size }) is Enqueue ==> exists|i: int|
            0 <= i < policy.extensions.len() && (#[trigger] policy.extensions[i]).is_suffix_of(
                path,
            ),
        decide(policy, queued, EntryView::File { path, size }) == skip_of(
            path,
            SkipReason::ExtensionMismatch,
        ) <==> !policy.queue_full(queued) && !policy.admits_extension(path),
{
}

/// Whether `entries` holds a regular file with this path and size.
pub open spec fn has_file(entries: Seq<EntryView>, path: Seq<char>, size: u64) -> bool {
    entries.contains(EntryView::File { path, size })
}

/// Whether a skip record of the filter stage is justified by one of
/// `entries`.
pub open spec fn is_justified(
    policy: PolicyView,
    entries: Seq<EntryView>,
    skipped: SkippedFileView,
) -> bool {
    match skipped.reason {
        SkipReason::EnumerationError => exists|path: Option<Seq<char>>|
            #[trigger] entries.contains(EntryView::Unreadable { path }) && skipped.path
                == path_or_unknown(path),
        SkipReason::PathEncodingError => entries.contains(EntryView::NonTextPath) && skipped.path
            == unknown_path(),
        SkipReason::MetadataError => entries.contains(EntryView::NoMetadata { path: skipped.path }),
        SkipReason::ExtensionMismatch => !policy.admits_extension(skipped.path) && exists|
            size: u64,
        | #[trigger] has_file(entries, skipped.path, size),
        SkipReason::SizeExceeded => policy.admits_extension(skipped.path) && exists|size: u64|
            #[trigger] has_file(entries, skipped.path, size) && !policy.admits_size(size),
        SkipReason::OpenError => false,
        SkipReason::ReadError => false,
    }
}

/// Whether a queued path belongs to one of `entries` that passes the
/// extension and the size filter.
pub open spec fn is_admitted(policy: PolicyView, entries: Seq<EntryView>, path: Seq<char>) -> bool {
    policy.admits_extension(path) && exists|size: u64| #[trigger]
        has_file(entries, path, size) && policy.admits_size(size)
}

/// Every record of the filter stage goes back to an entry: a queued file
/// was enumerated and passes both filters, and a skipped file was enumerated
/// and fails as its reason says.
pub proof fn lemma_filter_records_are_justified(policy: PolicyView, entries: Seq<EntryView>)
    ensures
        forall|k: int|
            0 <= k < filter_entries(policy, entries).queued.len() ==> is_admitted(
                policy,
                entries,
                #[trigger] filter_entries(policy, entries).queued[k],
            ),
        forall|k: int|
            0 <= k < filter_entries(policy, entries).skipped.len() ==> is_justified(
                policy,
                entries,
                #[trigger] filter_entries(policy, entries).skipped[k],
            ),
    decreases entries.len(),
{
    if entries.len() > 0 {
        let earlier = entries.drop_last();
        let last = entries.last();
        let before = filter_entries(policy, earlier);
        let after = filter_entries(policy, entries);
        lemma_filter_records_are_justified(policy, earlier);
        assert(entries[entries.len() - 1] == last);
        assert forall|x: EntryView| earlier.contains(x) implies entries.contains(x) by {
            let i = choose|i: int| 0 <= i < earlier.len() && earlier[i] == x;
            assert(entries[i] == x);
        }
        assert forall|k: int| 0 <= k < after.queued.len() implies is_admitted(
            policy,
            entries,
            #[trigger] after.queued[k],
        ) by {
            let path = after.queued[k];
            if k < before.queued.len() {
                assert(after.queued[k] == before.queued[k]);
                assert(is_admitted(policy, earlier, before.queued[k]));
                let size = choose|size: u64| #[trigger]
                    has_file(earlier, path, size) && policy.admits_size(size);
                assert(has_file(entries, path, size));
            } else {
                let size = last->File_size;
                assert(has_file(entries, path, size));
            }
        }
        assert forall|k: int| 0 <= k < after.skipped.len() implies is_justified(
            policy,
            entries,
            #[trigger] after.skipped[k],
        ) by {
            let skipped = after.skipped[k];
            if k < before.skipped.len() {
                assert(after.skipped[k] == before.skipped[k]);
                lemma_justified_stays(policy, earlier, entries, skipped);
            } else {
                assert(entries.contains(last));
                assert(!before.stopped);
                assert(decide(policy, before.queued.len(), last) == Decision::Skip(skipped));
                match last {
                    EntryView::File { path, size } => {
                        assert(skipped.path == path);
                        assert(has_file(entries, skipped.path, size));
                        if policy.admits_extension(path) {
                            assert(skipped.reason == SkipReason::SizeExceeded);
                            assert(!policy.admits_size(size));
                        } else {
                            assert(skipped.reason == SkipReason::ExtensionMismatch);
                        }
                        assert(is_justified(policy, entries, skipped));
                    },
                    _ => {
                        assert(is_justified(policy, entries, skipped));
                    },
                }
            }
        }
    }
}

/// A skip record that is justified by some entries is justified by more
/// entries.
proof fn lemma_justified_stays(
    policy: PolicyView,
    earlier: Seq<EntryView>,
    entries: Seq<EntryView>,
    skipped: SkippedFileView,
)
    requires
        is_justified(policy, earlier, skipped),
        forall|x: EntryView| earlier.contains(x) ==> entries.contains(x),
    ensures
        is_justified(policy, entries, skipped),
{
    match skipped.reason {
        SkipReason::ExtensionMismatch => {
            let size = choose|size: u64| #[trigger] has_file(earlier, skipped.path, size);
            assert(has_file(entries, skipped.path, size));
        },
        SkipReason::SizeExceeded => {
            let size = choose|size: u64| #[trigger]
                has_file(earlier, skipped.path, size) && !policy.admits_size(size);
            assert(has_file(entries, skipped.path, size));
        },
        _ => {},
    }
}

/// With a queue limit of `limit` above zero, at most `limit` files are
/// queued.
pub proof fn lemma_queue_limit_holds(policy: PolicyView, entries: Seq<EntryView>, limit: usize)
    requires
        policy.max_queued == Some(limit),
        limit > 0,
    ensures
        filter_entries(policy, entries).queued.len() <= limit,
    decreases entries.len(),
{
    if entries.len() > 0 {
        lemma_queue_limit_holds(policy, entries.drop_last(), limit);
    }
}

/// The path under which an entry is recorded: its own where enumeration
/// told one, `unknown` where it did not, none for an entry that is not
/// a regular file.
pub open spec fn record_path(entry: EntryView) -> Option<Seq<char>> {
    match entry {
        EntryView::Unreadable { path } => Some(path_or_unknown(path)),
        EntryView::NotAFile => None,
        EntryView::NonTextPath => Some(unknown_path()),
        EntryView::NoMetadata { path } => Some(path),
        EntryView::File { path, size } => Some(path),
    }
}

/// Whether the last of `entries` is visited: the queue limit has not ended
/// the enumeration before it, and does not end it there.
pub open spec fn visits_last(policy: PolicyView, entries: Seq<EntryView>) -> bool {
    let before = filter_entries(policy, entries.drop_last());
    !before.stopped && !(decide(policy, before.queued.len(), entries.last()) is Stop)
}

/// The record paths of the visited entries, counted with repetition.
pub open spec fn visited_paths(policy: PolicyView, entries: Seq<EntryView>) -> Multiset<Seq<char>>
    decreases entries.len(),
{
    if entries.len() == 0 {
        Multiset::empty()
    } else if visits_last(policy, entries) && record_path(entries.last()) is Some {
        visited_paths(policy, entries.drop_last()).insert(record_path(entries.last())->0)
    } else {
        visited_paths(policy, entries.drop_last())
    }
}

/// The paths of skip records.
pub open spec fn skipped_paths(records: Seq<SkippedFileView>) -> Seq<Seq<char>> {
    records.map_values(|r: SkippedFileView| r.path)
}

/// The paths of match records.
pub open spec fn matched_paths(records: Seq<MatchedFileView>) -> Seq<Seq<char>> {
    records.map_values(|r: MatchedFileView| r.path)
}

/// The paths in the three buckets together, counted with repetition.
pub open spec fn recorded_paths(results: ResultsView) -> Multiset<Seq<char>> {
    matched_paths(results.matched).to_multiset().add(results.unmatched.to_multiset()).add(
        skipped_paths(results.skipped).to_multiset(),
    )
}

/// An empty sequence holds nothing.
proof fn lemma_empty_to_multiset(paths: Seq<Seq<char>>)
    requires
        paths.len() == 0,
    ensures
        paths.to_multiset() == Multiset::<Seq<char>>::empty(),
{
    paths.to_multiset_ensures();
    vstd::multiset::lemma_multiset_empty_len(paths.to_multiset());
}

/// Recording an outcome adds its path to the recorded paths, once.
proof fn lemma_record_adds_one_path(results: ResultsView, outcome: OutcomeView, path: Seq<char>)
    requires
        match outcome {
            OutcomeView::Matched(file) => file.path == path,
            OutcomeView::Unmatched(p) => p == path,
            OutcomeView::Skipped(file) => file.path == path,
        },
    ensures
        recorded_paths(record(results, outcome)) == recorded_paths(results).insert(path),
{
    broadcast use vstd::multiset::group_multiset_axioms;

    match outcome {
        OutcomeView::Matched(file) => {
            assert(matched_paths(results.matched.push(file)) =~= matched_paths(
                results.matched,
            ).push(path));
            to_multiset_build(matched_paths(results.matched), path);
        },
        OutcomeView::Unmatched(p) => {
            to_multiset_build(results.unmatched, path);
        },
        OutcomeView::Skipped(file) => {
            assert(skipped_paths(results.skipped.push(file)) =~= skipped_paths(
                results.skipped,
            ).push(path));
            to_multiset_build(skipped_paths(results.skipped), path);
        },
    }
    assert(recorded_paths(record(results, outcome)) =~= recorded_paths(results).insert(path));
}

/// The filter stage gives every visited entry that is a regular file, or
/// that enumeration failed on, one place: in the queue or among the skip
/// records.
pub proof fn lemma_filter_places_each_visited_file(policy: PolicyView, entries: Seq<EntryView>)
    ensures
        filter_entries(policy, entries).queued.to_multiset().add(
            skipped_paths(filter_entries(policy, entries).skipped).to_multiset(),
        ) == visited_paths(policy, entries),
    decreases entries.len(),
{
    broadcast use vstd::multiset::group_multiset_axioms;

    let after = filter_entries(policy, entries);
    if entries.len() == 0 {
        lemma_empty_to_multiset(skipped_paths(after.skipped));
        lemma_empty_to_multiset(after.queued);
        assert(after.queued.to_multiset().add(skipped_paths(after.skipped).to_multiset())
            =~= Multiset::empty());
    } else {
        let before = filter_entries(policy, entries.drop_last());
        lemma_filter_places_each_visited_file(policy, entries.drop_last());
        if !before.stopped {
            match decide(policy, before.queued.len(), entries.last()) {
                Decision::Skip(file) => {
                    assert(skipped_paths(before.skipped.push(file)) =~= skipped_paths(
                        before.skipped,
                    ).push(file.path));
                    to_multiset_build(skipped_paths(before.skipped), file.path);
                },
                Decision::Enqueue(path) => {
                    to_multiset_build(before.queued, path);
                },
                _ => {},
            }
        }
        assert(after.queued.to_multiset().add(skipped_paths(after.skipped).to_multiset())
            =~= visited_paths(policy, entries));
    }
}

/// The scan stage gives every queued file one place in the three buckets.
pub proof fn lemma_scan_places_each_queued_file(
    patterns: Seq<Seq<char>>,
    paths: Seq<Seq<char>>,
    reads: Seq<ReadView>,
    start: ResultsView,
)
    requires
        reads.len() == paths.len(),
    ensures
        recorded_paths(scan_all(patterns, paths, reads, start)) == recorded_paths(start).add(
            paths.to_multiset(),
        ),
    decreases paths.len(),
{
    broadcast use vstd::multiset::group_multiset_axioms;

    if paths.len() == 0 {
        lemma_empty_to_multiset(paths);
        assert(recorded_paths(start).add(paths.to_multiset()) =~= recorded_paths(start));
    } else {
        let earlier = scan_all(patterns, paths.drop_last(), reads.drop_last(), start);
        lemma_scan_places_each_queued_file(patterns, paths.drop_last(), reads.drop_last(), start);
        lemma_record_adds_one_path(
            earlier,
            scan_outcome(patterns, paths.last(), reads.last()),
            paths.last(),
        );
        assert(paths.drop_last().push(paths.last()) =~= paths);
        to_multiset_build(paths.drop_last(), paths.last());
        assert(recorded_paths(earlier).insert(paths.last()) =~= recorded_paths(start).add(
            paths.to_multiset(),
        ));
    }
}

/// The buckets partition the visited files: the paths in the matched, the
/// unmatched and the skipped bucket, counted with repetition, are exactly
/// the record paths of the entries visited before the queue limit ended the
/// enumeration. So each visited file has one record in one bucket, no file
/// is left out, and a path that belongs to one visited file stands in one
/// bucket, once. Entries that are not regular files, and entries at or after
/// the cutoff, have none.
pub proof fn lemma_buckets_partition_visited_files(
    policy: PolicyView,
    patterns: Seq<Seq<char>>,
    snapshot: Seq<ObservationView>,
)
    ensures
        recorded_paths(search_model(policy, patterns, snapshot)) == visited_paths(
            policy,
            entries_of(snapshot),
        ),
        forall|path: Seq<char>|
            matched_paths(search_model(policy, patterns, snapshot).matched).to_multiset().count(
                path,
            ) + search_model(policy, patterns, snapshot).unmatched.to_multiset().count(path)
                + skipped_paths(
                search_model(policy, patterns, snapshot).skipped,
            ).to_multiset().count(path) == #[trigger] visited_paths(
                policy,
                entries_of(snapshot),
            ).count(path),
{
    broadcast use vstd::multiset::group_multiset_axioms;

    let queue = filter_entries(policy, entries_of(snapshot));
    let start = ResultsView { skipped: queue.skipped, ..no_results() };
    lemma_one_read_per_queued(policy, snapshot);
    lemma_filter_places_each_visited_file(policy, entries_of(snapshot));
    lemma_scan_places_each_queued_file(
        patterns,
        queue.queued,
        queued_reads(policy, snapshot),
        start,
    );
    lemma_empty_to_multiset(matched_paths(start.matched));
    lemma_empty_to_multiset(start.unmatched);
    assert(recorded_paths(start) =~= skipped_paths(queue.skipped).to_multiset());
    assert(recorded_paths(start).add(queue.queued.to_multiset()) =~= visited_paths(
        policy,
        entries_of(snapshot),
    ));
}

/// A search is repeatable: two runs over inputs with the same values (the
/// same policy, the same pattern texts, a snapshot with the same entries and
/// contents) end alike. Either both are refused with the same error, or both
/// give the same three buckets with the same pattern sets, whatever the
/// order in which the automaton reported its matches.
pub proof fn lemma_same_inputs_same_results(
    first_policy: FilterPolicy,
    second_policy: FilterPolicy,
    first_patterns: Seq<String>,
    second_patterns: Seq<String>,
    first_snapshot: Seq<Observation>,
    second_snapshot: Seq<Observation>,
    first: Result<SearchResults, SearchError>,
    second: Result<SearchResults, SearchError>,
)
    requires
        first_policy@ == second_policy@,
        texts(first_patterns) == texts(second_patterns),
        observed(first_snapshot) == observed(second_snapshot),
        run_view(first) == run_model(
            first_policy@,
            texts(first_patterns),
            observed(first_snapshot),
        ),
        run_view(second) == run_model(
            second_policy@,
            texts(second_patterns),
            observed(second_snapshot),
        ),
    ensures
        run_view(first) == run_view(second),
        first is Ok <==> second is Ok,
        first matches Ok(one) ==> second matches Ok(other) && one@ == other@,
        first matches Err(one) ==> second matches Err(other) && one == other,
{
}

/// Scanning keeps match records faithful and adds no skip for size.
proof fn lemma_scan_keeps_records_sound(
    patterns: Seq<Seq<char>>,
    paths: Seq<Seq<char>>,
    reads: Seq<ReadView>,
    start: ResultsView,
)
    requires
        forall|k: int|
            0 <= k < start.matched.len() ==> is_faithful(
                patterns,
                (#[trigger] start.matched[k]).patterns,
            ),
        forall|k: int|
            0 <= k < start.skipped.len() ==> (#[trigger] start.skipped[k]).reason
                != SkipReason::SizeExceeded,
    ensures
        forall|k: int|
            0 <= k < scan_all(patterns, paths, reads, start).matched.len() ==> is_faithful(
                patterns,
                (#[trigger] scan_all(patterns, paths, reads, start).matched[k]).patterns,
            ),
        forall|k: int|
            0 <= k < scan_all(patterns, paths, reads, start).skipped.len() ==> (#[trigger] scan_all(
                patterns,
                paths,
                reads,
                start,
            ).skipped[k]).reason != SkipReason::SizeExceeded,
    decreases paths.len(),
{
    if paths.len() > 0 && reads.len() == paths.len() {
        lemma_scan_keeps_records_sound(patterns, paths.drop_last(), reads.drop_last(), start);
        match reads.last() {
            ReadView::Content(bytes) => {
                lemma_match_report_exists(patterns, bytes);
            },
            _ => {},
        }
    }
}

/// Every match record of a search is faithful to the pattern list: its
/// pattern set is not empty, repeats nothing, and holds only patterns that
/// were given.
pub proof fn lemma_matched_patterns_are_faithful(
    policy: PolicyView,
    patterns: Seq<Seq<char>>,
    snapshot: Seq<ObservationView>,
)
    ensures
        forall|k: int|
            0 <= k < search_model(policy, patterns, snapshot).matched.len() ==> is_faithful(
                patterns,
                (#[trigger] search_model(policy, patterns, snapshot).matched[k]).patterns,
            ),
{
    let queue = filter_entries(policy, entries_of(snapshot));
    let start = ResultsView { skipped: queue.skipped, ..no_results() };
    // a stand-in without skip records: what is proved of match records does not depend on them
    let bare = no_results();
    lemma_scan_keeps_records_sound(patterns, queue.queued, queued_reads(policy, snapshot), bare);
    lemma_scan_matched_ignores_start(
        patterns,
        queue.queued,
        queued_reads(policy, snapshot),
        start,
        bare,
    );
}

/// The match records of a scan do not depend on the skip records it starts
/// from.
proof fn lemma_scan_matched_ignores_start(
    patterns: Seq<Seq<char>>,
    paths: Seq<Seq<char>>,
    reads: Seq<ReadView>,
    first: ResultsView,
    second: ResultsView,
)
    requires
        first.matched == second.matched,
    ensures
        scan_all(patterns, paths, reads, first).matched == scan_all(
            patterns,
            paths,
            reads,
            second,
        ).matched,
    decreases paths.len(),
{
    if paths.len() > 0 && reads.len() == paths.len() {
        lemma_scan_matched_ignores_start(
            patterns,
            paths.drop_last(),
            reads.drop_last(),
            first,
            second,
        );
    }
}

/// Without a size limit (none given, or zero) no file of a whole search is
/// skipped for its size.
pub proof fn lemma_no_size_limit_no_size_skip(
    policy: PolicyView,
    patterns: Seq<Seq<char>>,
    snapshot: Seq<ObservationView>,
)
    requires
        policy.max_size is None || policy.max_size == Some(0u64),
    ensures
        forall|k: int|
            0 <= k < search_model(policy, patterns, snapshot).skipped.len() ==> (#[trigger] search_model(
                policy,
                patterns,
                snapshot,
            ).skipped[k]).reason != SkipReason::SizeExceeded,
{
    let queue = filter_entries(policy, entries_of(snapshot));
    let start = ResultsView { skipped: queue.skipped, ..no_results() };
    lemma_filter_records_are_justified(policy, entries_of(snapshot));
    assert forall|k: int| 0 <= k < start.skipped.len() implies (#[trigger] start.skipped[k]).reason
        != SkipReason::SizeExceeded by {
        assert(is_justified(policy, entries_of(snapshot), queue.skipped[k]));
    }
    lemma_scan_keeps_records_sound(patterns, queue.queued, queued_reads(policy, snapshot), start);
}

/// Whether entry `i` is visited: the queue limit has not ended the
/// enumeration before it, and does not end it there.
pub open spec fn is_visited(policy: PolicyView, entries: Seq<EntryView>, i: int) -> bool {
    0 <= i < entries.len() && visits_last(policy, entries.take(i + 1))
}

/// Whether entry `i` leaves a record and no other entry is recorded under
/// the same path.
pub open spec fn is_sole_owner(entries: Seq<EntryView>, i: int) -> bool {
    &&& 0 <= i < entries.len()
    &&& record_path(entries[i]) is Some
    &&& forall|j: int|
        0 <= j < entries.len() && j != i ==> record_path(#[trigger] entries[j]) != record_path(
            entries[i],
        )
}

/// Number of entries that leave a record when visited: the regular files
/// and the entries that enumeration failed on.
pub open spec fn recorded_count(entries: Seq<EntryView>) -> nat
    decreases entries.len(),
{
    if entries.len() == 0 {
        0
    } else if record_path(entries.last()) is Some {
        recorded_count(entries.drop_last()) + 1
    } else {
        recorded_count(entries.drop_last())
    }
}

/// Whether the policy sets no queue limit.
pub open spec fn has_no_queue_limit(policy: PolicyView) -> bool {
    policy.max_queued is None || policy.max_queued == Some(0usize)
}

/// Number of records under `path` in the three buckets together.
pub open spec fn records_of(results: ResultsView, path: Seq<char>) -> nat {
    matched_paths(results.matched).to_multiset().count(path)
        + results.unmatched.to_multiset().count(path) + skipped_paths(
        results.skipped,
    ).to_multiset().count(path)
}

/// A path that no entry is recorded under is not among the visited paths.
proof fn lemma_unowned_path_is_not_visited(
    policy: PolicyView,
    entries: Seq<EntryView>,
    path: Seq<char>,
)
    requires
        forall|j: int| 0 <= j < entries.len() ==> record_path(#[trigger] entries[j]) != Some(path),
    ensures
        visited_paths(policy, entries).count(path) == 0,
    decreases entries.len(),
{
    broadcast use vstd::multiset::group_multiset_axioms;

    if entries.len() > 0 {
        let earlier = entries.drop_last();
        assert forall|j: int| 0 <= j < earlier.len() implies record_path(#[trigger] earlier[j])
            != Some(path) by {
            assert(earlier[j] == entries[j]);
        }
        lemma_unowned_path_is_not_visited(policy, earlier, path);
        assert(record_path(entries[entries.len() - 1]) != Some(path));
    }
}

/// The path of a visited entry that is the only one recorded under it is
/// among the visited paths once.
proof fn lemma_sole_owner_is_visited_once(policy: PolicyView, entries: Seq<EntryView>, i: int)
    requires
        is_sole_owner(entries, i),
        is_visited(policy, entries, i),
    ensures
        visited_paths(policy, entries).count(record_path(entries[i])->0) == 1,
    decreases entries.len(),
{
    broadcast use vstd::multiset::group_multiset_axioms;

    let path = record_path(entries[i])->0;
    let earlier = entries.drop_last();
    let last = entries.len() - 1;
    if i == last {
        assert(entries.take(i + 1) =~= entries);
        assert forall|j: int| 0 <= j < earlier.len() implies record_path(#[trigger] earlier[j])
            != Some(path) by {
            assert(earlier[j] == entries[j]);
        }
        lemma_unowned_path_is_not_visited(policy, earlier, path);
    } else {
        assert(earlier.take(i + 1) =~= entries.take(i + 1));
        assert(earlier[i] == entries[i]);
        assert forall|j: int| 0 <= j < earlier.len() && j != i implies record_path(
            #[trigger] earlier[j],
        ) != record_path(earlier[i]) by {
            assert(earlier[j] == entries[j]);
        }
        lemma_sole_owner_is_visited_once(policy, earlier, i);
        assert(record_path(entries[last]) != Some(path));
    }
}

/// A visited file whose path no other entry shares has exactly one record:
/// its path stands once in the three buckets together, so in one bucket
/// only.
pub proof fn lemma_each_visited_file_has_one_record(
    policy: PolicyView,
    patterns: Seq<Seq<char>>,
    snapshot: Seq<ObservationView>,
    i: int,
)
    requires
        is_sole_owner(entries_of(snapshot), i),
        is_visited(policy, entries_of(snapshot), i),
    ensures
        records_of(
            search_model(policy, patterns, snapshot),
            record_path(entries_of(snapshot)[i])->0,
        ) == 1,
{
    lemma_buckets_partition_visited_files(policy, patterns, snapshot);
    lemma_sole_owner_is_visited_once(policy, entries_of(snapshot), i);
    let path = record_path(entries_of(snapshot)[i])->0;
    assert(visited_paths(policy, entries_of(snapshot)).count(path) == 1);
}

/// Without a queue limit the filter never stops, and it records every
/// regular file and every failed entry.
proof fn lemma_no_queue_limit_never_stops(policy: PolicyView, entries: Seq<EntryView>)
    requires
        has_no_queue_limit(policy),
    ensures
        !filter_entries(policy, entries).stopped,
        filter_entries(policy, entries).queued.len() + filter_entries(
            policy,
            entries,
        ).skipped.len() == recorded_count(entries),
    decreases entries.len(),
{
    if entries.len() > 0 {
        lemma_no_queue_limit_never_stops(policy, entries.drop_last());
    }
}

/// Scanning adds one record for each queued file.
proof fn lemma_scan_adds_one_record_each(
    patterns: Seq<Seq<char>>,
    paths: Seq<Seq<char>>,
    reads: Seq<ReadView>,
    start: ResultsView,
)
    requires
        reads.len() == paths.len(),
    ensures
        total(scan_all(patterns, paths, reads, start)) == total(start) + paths.len(),
    decreases paths.len(),
{
    if paths.len() > 0 {
        lemma_scan_adds_one_record_each(patterns, paths.drop_last(), reads.drop_last(), start);
    }
}

/// Without a queue limit every entry is visited, and the three buckets hold
/// as many records as there are regular files and failed entries.
pub proof fn lemma_no_queue_limit_records_every_file(
    policy: PolicyView,
    patterns: Seq<Seq<char>>,
    snapshot: Seq<ObservationView>,
)
    requires
        has_no_queue_limit(policy),
    ensures
        total(search_model(policy, patterns, snapshot)) == recorded_count(entries_of(snapshot)),
        forall|i: int|
            0 <= i < snapshot.len() ==> #[trigger] is_visited(policy, entries_of(snapshot), i),
{
    let entries = entries_of(snapshot);
    let queue = filter_entries(policy, entries);
    let start = ResultsView { skipped: queue.skipped, ..no_results() };
    lemma_no_queue_limit_never_stops(policy, entries);
    lemma_one_read_per_queued(policy, snapshot);
    lemma_scan_adds_one_record_each(patterns, queue.queued, queued_reads(policy, snapshot), start);
    assert forall|i: int| 0 <= i < snapshot.len() implies #[trigger] is_visited(
        policy,
        entries,
        i,
    ) by {
        lemma_no_queue_limit_never_stops(policy, entries.take(i + 1).drop_last());
    }
}

/// What the filter has recorded after the first `m` entries stays as it is
/// while the other entries are filtered.
proof fn lemma_filter_keeps_records(policy: PolicyView, entries: Seq<EntryView>, m: int)
    requires
        0 <= m <= entries.len(),
    ensures
        filter_entries(policy, entries.take(m)).queued.len() <= filter_entries(
            policy,
            entries,
        ).queued.len(),
        filter_entries(policy, entries.take(m)).skipped.len() <= filter_entries(
            policy,
            entries,
        ).skipped.len(),
        forall|k: int|
            0 <= k < filter_entries(policy, entries.take(m)).queued.len() ==> #[trigger] filter_entries(
                policy,
                entries,
            ).queued[k] == filter_entries(policy, entries.take(m)).queued[k],
        forall|k: int|
            0 <= k < filter_entries(policy, entries.take(m)).skipped.len() ==> #[trigger] filter_entries(
                policy,
                entries,
            ).skipped[k] == filter_entries(policy, entries.take(m)).skipped[k],
    decreases entries.len(),
{
    if m == entries.len() {
        assert(entries.take(m) =~= entries);
    } else {
        assert(entries.drop_last().take(m) =~= entries.take(m));
        lemma_filter_keeps_records(policy, entries.drop_last(), m);
    }
}

/// Scanning keeps the skip records it starts from and adds only records of
/// failed opens and reads.
proof fn lemma_scan_skips_are_read_failures(
    patterns: Seq<Seq<char>>,
    paths: Seq<Seq<char>>,
    reads: Seq<ReadView>,
    start: ResultsView,
)
    ensures
        start.skipped.len() <= scan_all(patterns, paths, reads, start).skipped.len(),
        forall|k: int|
            0 <= k < start.skipped.len() ==> #[trigger] scan_all(
                patterns,
                paths,
                reads,
                start,
            ).skipped[k] == start.skipped[k],
        forall|k: int|
            start.skipped.len() <= k < scan_all(patterns, paths, reads, start).skipped.len() ==> {
                let reason = (#[trigger] scan_all(patterns, paths, reads, start).skipped[k]).reason;
                reason == SkipReason::OpenError || reason == SkipReason::ReadError
            },
    decreases paths.len(),
{
    if paths.len() > 0 && reads.len() == paths.len() {
        lemma_scan_skips_are_read_failures(patterns, paths.drop_last(), reads.drop_last(), start);
    }
}

/// A skip record of the filter under the path of a regular file that alone
/// owns this path is the record of that file: it failed the extension test,
/// or passed it and failed the size test.
proof fn lemma_filter_skip_of_owned_file(
    policy: PolicyView,
    entries: Seq<EntryView>,
    i: int,
    skipped: SkippedFileView,
)
    requires
        is_sole_owner(entries, i),
        entries[i] is File,
        is_justified(policy, entries, skipped),
        skipped.path == entries[i]->File_path,
    ensures
        skipped.reason == SkipReason::ExtensionMismatch || skipped.reason
            == SkipReason::SizeExceeded,
        skipped.reason == SkipReason::ExtensionMismatch ==> !policy.admits_extension(skipped.path),
        skipped.reason == SkipReason::SizeExceeded ==> policy.admits_extension(skipped.path)
            && !policy.admits_size(entries[i]->File_size),
{
    let path = skipped.path;
    match skipped.reason {
        SkipReason::EnumerationError => {
            let told = choose|told: Option<Seq<char>>|
                #[trigger] entries.contains(EntryView::Unreadable { path: told }) && path
                    == path_or_unknown(told);
            let j = choose|j: int|
                0 <= j < entries.len() && entries[j] == (EntryView::Unreadable { path: told });
            assert(record_path(entries[j]) == Some(path));
            assert(j == i);
        },
        SkipReason::PathEncodingError => {
            let j = choose|j: int| 0 <= j < entries.len() && entries[j] == EntryView::NonTextPath;
            assert(record_path(entries[j]) == Some(path));
            assert(j == i);
        },
        SkipReason::MetadataError => {
            let j = choose|j: int|
                0 <= j < entries.len() && entries[j] == (EntryView::NoMetadata { path });
            assert(record_path(entries[j]) == Some(path));
            assert(j == i);
        },
        SkipReason::ExtensionMismatch => {},
        SkipReason::SizeExceeded => {
            let size = choose|size: u64| #[trigger]
                has_file(entries, path, size) && !policy.admits_size(size);
            let j = choose|j: int|
                0 <= j < entries.len() && entries[j] == (EntryView::File { path, size });
            assert(record_path(entries[j]) == Some(path));
            assert(j == i);
        },
        _ => {},
    }
}

/// With a size limit of `limit` above zero, a visited regular file that
/// alone owns its path and passes the extension test has a skip record for
/// its size exactly when it is larger than `limit`. A file of at most
/// `limit` bytes, and so one of exactly `limit` bytes, is queued: its one
/// record is a match, an unmatched path, or a skip for a failed open or
/// read.
pub proof fn lemma_size_skip_exactly_above_limit(
    policy: PolicyView,
    patterns: Seq<Seq<char>>,
    snapshot: Seq<ObservationView>,
    i: int,
    limit: u64,
)
    requires
        policy.max_size == Some(limit),
        limit > 0,
        is_sole_owner(entries_of(snapshot), i),
        is_visited(policy, entries_of(snapshot), i),
        entries_of(snapshot)[i] is File,
        policy.admits_extension(entries_of(snapshot)[i]->File_path),
    ensures
        search_model(policy, patterns, snapshot).skipped.contains(
            SkippedFileView {
                path: entries_of(snapshot)[i]->File_path,
                reason: SkipReason::SizeExceeded,
            },
        ) <==> entries_of(snapshot)[i]->File_size > limit,
        entries_of(snapshot)[i]->File_size <= limit ==> filter_entries(
            policy,
            entries_of(snapshot),
        ).queued.contains(entries_of(snapshot)[i]->File_path),
        entries_of(snapshot)[i]->File_size <= limit ==> forall|k: int|
            0 <= k < search_model(policy, patterns, snapshot).skipped.len() && (#[trigger] search_model(
                policy,
                patterns,
                snapshot,
            ).skipped[k]).path == entries_of(snapshot)[i]->File_path ==> {
                let reason = search_model(policy, patterns, snapshot).skipped[k].reason;
                reason == SkipReason::OpenError || reason == SkipReason::ReadError
            },
        records_of(
            search_model(policy, patterns, snapshot),
            entries_of(snapshot)[i]->File_path,
        ) == 1,
{
    let entries = entries_of(snapshot);
    let path = entries[i]->File_path;
    let size = entries[i]->File_size;
    let queue = filter_entries(policy, entries);
    let start = ResultsView { skipped: queue.skipped, ..no_results() };
    let results = search_model(policy, patterns, snapshot);
    let record = SkippedFileView { path, reason: SkipReason::SizeExceeded };
    let before = filter_entries(policy, entries.take(i + 1).drop_last());
    let after = filter_entries(policy, entries.take(i + 1));

    lemma_each_visited_file_has_one_record(policy, patterns, snapshot, i);
    lemma_filter_records_are_justified(policy, entries);
    lemma_filter_keeps_records(policy, entries, i + 1);
    lemma_scan_skips_are_read_failures(
        patterns,
        queue.queued,
        queued_reads(policy, snapshot),
        start,
    );
    assert(entries.take(i + 1).last() == entries[i]);
    assert(!before.stopped);
    assert(after == step(policy, before, entries[i]));

    // every skip record under this path that the filter made is this file's record for its size
    assert forall|k: int| 0 <= k < queue.skipped.len() && (#[trigger] queue.skipped[k]).path
        == path implies queue.skipped[k] == record && size > limit by {
        assert(is_justified(policy, entries, queue.skipped[k]));
        lemma_filter_skip_of_owned_file(policy, entries, i, queue.skipped[k]);
    }
    if size > limit {
        let at = after.skipped.len() - 1;
        assert(after.skipped[at] == record);
        assert(queue.skipped[at] == record);
        assert(results.skipped[at] == record);
    } else {
        let at = after.queued.len() - 1;
        assert(after.queued[at] == path);
        assert(queue.queued[at] == path);
    }
    if results.skipped.contains(record) {
        let k = choose|k: int| 0 <= k < results.skipped.len() && results.skipped[k] == record;
        assert(k < queue.skipped.len());
        assert(results.skipped[k] == start.skipped[k]);
        assert(queue.skipped[k].path == path);
    }
    assert forall|k: int|
        0 <= k < results.skipped.len() && (#[trigger] results.skipped[k]).path == path && size
            <= limit implies results.skipped[k].reason == SkipReason::OpenError
        || results.skipped[k].reason == SkipReason::ReadError by {
        if k < queue.skipped.len() {
            assert(results.skipped[k] == start.skipped[k]);
            assert(queue.skipped[k].path == path);
        }
    }
}

} // verus!
