//! The staged pipeline: filter every enumerated entry, then scan every queued
//! file, then hand out the three buckets.

use vstd::prelude::*;
use crate::filter::{decide, filter_entries, FilterPolicy, PolicyView, QueueBuilder};
use crate::matcher::{automaton_builds, start_error, Matcher, SearchError};
use crate::model::{
    texts, Entry, EntryView, MatchedFile, MatchedFileView, ReadOutcome, ReadView, SkipReason,
    SkippedFile, SkippedFileView,
};
use crate::report::{
    is_faithful, is_match_report, match_report, needle, needles, occurs_in,
};
use crate::results::{no_results, record, Outcome, OutcomeView, ResultsView, SearchResults};

verus! {

/// Whether any of `patterns` occurs in `content`.
pub open spec fn any_occurs(patterns: Seq<Seq<char>>, content: Seq<u8>) -> bool {
    exists|i: int| 0 <= i < patterns.len() && occurs_in(needle(#[trigger] patterns[i]), content)
}

/// A report is empty exactly when no pattern occurs.
pub proof fn lemma_report_empty_iff(
    patterns: Seq<Seq<char>>,
    content: Seq<u8>,
    report: Seq<Seq<char>>,
)
    requires
        is_match_report(patterns, content, report),
    ensures
        report.len() > 0 <==> any_occurs(patterns, content),
{
    if report.len() > 0 {
        assert(patterns.contains(report[0]));
        let i = choose|i: int| 0 <= i < patterns.len() && patterns[i] == report[0];
        assert(occurs_in(needle(patterns[i]), content));
    }
    if any_occurs(patterns, content) {
        let i = choose|i: int|
            0 <= i < patterns.len() && occurs_in(needle(#[trigger] patterns[i]), content);
        assert(report.contains(patterns[i]));
    }
}

/// What becomes of a queued file at `path`, given what reading it gave: a
/// failed open or read is a skip; a content in which a pattern occurs is a
/// match with its report; any other content is unmatched.
pub open spec fn scan_outcome(
    patterns: Seq<Seq<char>>,
    path: Seq<char>,
    read: ReadView,
) -> OutcomeView {
    match read {
        ReadView::OpenFailed => OutcomeView::Skipped(
            SkippedFileView { path, reason: SkipReason::OpenError },
        ),
        ReadView::ReadFailed => OutcomeView::Skipped(
            SkippedFileView { path, reason: SkipReason::ReadError },
        ),
        ReadView::Content(bytes) => {
            let report = match_report(patterns, bytes);
            if report.len() > 0 {
                OutcomeView::Matched(MatchedFileView { path, patterns: report })
            } else {
                OutcomeView::Unmatched(path)
            }
        },
    }
}

/// Classifies one queued file from what reading it gave.
pub fn scan_file(matcher: &Matcher, path: String, read: &ReadOutcome) -> (outcome: Outcome)
    requires
        matcher.wf(),
    ensures
        outcome@ == scan_outcome(matcher.patterns(), path@, read@),
        outcome matches Outcome::Matched(file) ==> read matches ReadOutcome::Content(bytes)
            && is_match_report(matcher.patterns(), bytes@, file@.patterns) && is_faithful(
            matcher.patterns(),
            file@.patterns,
        ),
        read matches ReadOutcome::Content(bytes) ==> (outcome is Matched <==> any_occurs(
            matcher.patterns(),
            bytes@,
        )),
{
    match read {
        ReadOutcome::OpenFailed => Outcome::Skipped(
            SkippedFile { path, reason: SkipReason::OpenError },
        ),
        ReadOutcome::ReadFailed => Outcome::Skipped(
            SkippedFile { path, reason: SkipReason::ReadError },
        ),
        ReadOutcome::Content(bytes) => {
            let patterns = matcher.scan(bytes.as_slice());
            proof {
                lemma_report_empty_iff(matcher.patterns(), bytes@, texts(patterns@));
            }
            if patterns.len() > 0 {
                Outcome::Matched(MatchedFile { path, patterns })
            } else {
                Outcome::Unmatched(path)
            }
        },
    }
}

/// One entry of a file system snapshot: what enumeration sees, and what
/// reading the file gives. The read outcome counts only if the entry is
/// queued.
#[derive(Debug, PartialEq, Eq)]
pub struct Observation {
    pub entry: Entry,
    pub read: ReadOutcome,
}

/// Mathematical value of an [`Observation`].
pub struct ObservationView {
    pub entry: EntryView,
    pub read: ReadView,
}

impl View for Observation {
    type V = ObservationView;

    open spec fn view(&self) -> ObservationView {
        ObservationView { entry: self.entry@, read: self.read@ }
    }
}

/// The values of a snapshot, in enumeration order.
pub open spec fn observed(snapshot: Seq<Observation>) -> Seq<ObservationView> {
    snapshot.map_values(|seen: Observation| seen@)
}

/// The entries of a snapshot, in enumeration order.
pub open spec fn entries_of(snapshot: Seq<ObservationView>) -> Seq<EntryView> {
    snapshot.map_values(|seen: ObservationView| seen.entry)
}

/// Whether the filter queues the last entry of a snapshot that is not empty.
pub open spec fn queues_last(policy: PolicyView, snapshot: Seq<ObservationView>) -> bool {
    let state = filter_entries(policy, entries_of(snapshot.drop_last()));
    !state.stopped && decide(policy, state.queued.len(), snapshot.last().entry) is Enqueue
}

/// The read outcomes of the entries that the filter queues, in queue order.
pub open spec fn queued_reads(policy: PolicyView, snapshot: Seq<ObservationView>) -> Seq<ReadView>
    decreases snapshot.len(),
{
    if snapshot.len() == 0 {
        Seq::empty()
    } else if queues_last(policy, snapshot) {
        queued_reads(policy, snapshot.drop_last()).push(snapshot.last().read)
    } else {
        queued_reads(policy, snapshot.drop_last())
    }
}

/// The results after the files at `paths` were scanned in order, starting
/// from `start`; `reads` holds what reading each of them gave.
pub open spec fn scan_all(
    patterns: Seq<Seq<char>>,
    paths: Seq<Seq<char>>,
    reads: Seq<ReadView>,
    start: ResultsView,
) -> ResultsView
    decreases paths.len(),
{
    if paths.len() == 0 || reads.len() != paths.len() {
        start
    } else {
        record(
            scan_all(patterns, paths.drop_last(), reads.drop_last(), start),
            scan_outcome(patterns, paths.last(), reads.last()),
        )
    }
}

/// The results of a whole search over a snapshot: the filter stage runs over
/// all entries first, then the queued files are scanned in queue order. The
/// skipped bucket holds the filter's records followed by the scan's.
pub open spec fn search_model(
    policy: PolicyView,
    patterns: Seq<Seq<char>>,
    snapshot: Seq<ObservationView>,
) -> ResultsView {
    let queue = filter_entries(policy, entries_of(snapshot));
    scan_all(
        patterns,
        queue.queued,
        queued_reads(policy, snapshot),
        ResultsView { skipped: queue.skipped, ..no_results() },
    )
}

/// What a whole search returns: the error that keeps it from starting, or
/// the results of `search_model`.
pub open spec fn run_model(
    policy: PolicyView,
    patterns: Seq<Seq<char>>,
    snapshot: Seq<ObservationView>,
) -> Result<ResultsView, SearchError> {
    match start_error(patterns) {
        Some(error) => Err(error),
        None => Ok(search_model(policy, patterns, snapshot)),
    }
}

/// The value of what a search returned.
pub open spec fn run_view(run: Result<SearchResults, SearchError>) -> Result<
    ResultsView,
    SearchError,
> {
    match run {
        Ok(results) => Ok(results@),
        Err(error) => Err(error),
    }
}

/// There is one read outcome for each queued file.
pub proof fn lemma_one_read_per_queued(policy: PolicyView, snapshot: Seq<ObservationView>)
    ensures
        queued_reads(policy, snapshot).len() == filter_entries(
            policy,
            entries_of(snapshot),
        ).queued.len(),
    decreases snapshot.len(),
{
    if snapshot.len() > 0 {
        lemma_one_read_per_queued(policy, snapshot.drop_last());
        assert(entries_of(snapshot).drop_last() =~= entries_of(snapshot.drop_last()));
        assert(entries_of(snapshot).last() == snapshot.last().entry);
    }
}

/// Runs the whole search over a snapshot held in memory.
///
/// An empty pattern list is rejected before anything is filtered or scanned,
/// and so is a list for which no automaton can be built. Every other search
/// succeeds.
pub fn perform_search(
    policy: FilterPolicy,
    patterns: Vec<String>,
    snapshot: &Vec<Observation>,
) -> (run: Result<SearchResults, SearchError>)
    ensures
        run is Ok <==> patterns@.len() > 0 && automaton_builds(needles(texts(patterns@))),
        run_view(run) == run_model(policy@, texts(patterns@), observed(snapshot@)),
        patterns@.len() == 0 ==> run == Err::<SearchResults, SearchError>(
            SearchError::EmptyPatternSet,
        ),
        run matches Ok(results) ==> forall|k: int|
            0 <= k < results@.matched.len() ==> is_faithful(
                texts(patterns@),
                (#[trigger] results@.matched[k]).patterns,
            ),
{
    let ghost listed = texts(patterns@);
    let ghost rules = policy@;
    let ghost all = observed(snapshot@);
    let matcher = match Matcher::new(patterns) {
        Ok(matcher) => matcher,
        Err(error) => {
            return Err(error);
        },
    };
    let mut builder = QueueBuilder::new(policy);
    let mut picked: Vec<usize> = Vec::new();
    let mut i: usize = 0;
    assert(entries_of(all.take(0)) =~= Seq::empty());
    while i < snapshot.len()
        invariant
            i <= snapshot@.len(),
            all == observed(snapshot@),
            builder.policy() == rules,
            builder@ == filter_entries(rules, entries_of(all.take(i as int))),
            picked@.len() == queued_reads(rules, all.take(i as int)).len(),
            picked@.len() == builder@.queued.len(),
            forall|k: int|
                0 <= k < picked@.len() ==> (#[trigger] picked@[k]) < snapshot@.len()
                    && snapshot@[picked@[k] as int].read@ == queued_reads(
                    rules,
                    all.take(i as int),
                )[k],
        decreases snapshot@.len() - i,
    {
        let before = builder.queued_len();
        let ghost seen = all.take(i as int);
        let ghost next = all.take(i + 1);
        proof {
            assert(next.drop_last() =~= seen);
            assert(next.last() == snapshot@[i as int]@);
            assert(entries_of(next).drop_last() =~= entries_of(seen));
            assert(entries_of(next).last() == snapshot@[i as int].entry@);
        }
        builder.offer(&snapshot[i].entry);
        if builder.queued_len() > before {
            picked.push(i);
        }
        i += 1;
    }
    assert(all.take(snapshot@.len() as int) =~= all);
    let ghost reads = queued_reads(rules, all);
    let (queue, skipped) = builder.finish();
    let mut results = SearchResults::with_skipped(skipped);
    let ghost start = results@;
    let mut k: usize = 0;
    assert(texts(queue@).take(0) =~= Seq::empty());
    while k < queue.len()
        invariant
            k <= queue@.len(),
            matcher.wf(),
            matcher.patterns() == listed,
            picked@.len() == queue@.len(),
            reads.len() == queue@.len(),
            forall|j: int|
                0 <= j < picked@.len() ==> (#[trigger] picked@[j]) < snapshot@.len()
                    && snapshot@[picked@[j] as int].read@ == reads[j],
            results@ == scan_all(
                listed,
                texts(queue@).take(k as int),
                reads.take(k as int),
                start,
            ),
            forall|j: int|
                0 <= j < results@.matched.len() ==> is_faithful(
                    listed,
                    (#[trigger] results@.matched[j]).patterns,
                ),
        decreases queue@.len() - k,
    {
        proof {
            let paths = texts(queue@).take(k + 1);
            let these = reads.take(k + 1);
            assert(paths.drop_last() =~= texts(queue@).take(k as int));
            assert(these.drop_last() =~= reads.take(k as int));
            assert(paths.last() == queue@[k as int]@);
            assert(these.last() == reads[k as int]);
        }
        let outcome = scan_file(&matcher, queue[k].clone(), &snapshot[picked[k]].read);
        results.record(outcome);
        k += 1;
    }
    assert(texts(queue@).take(queue@.len() as int) =~= texts(queue@));
    assert(reads.take(queue@.len() as int) =~= reads);
    Ok(results)
}

} // verus!
