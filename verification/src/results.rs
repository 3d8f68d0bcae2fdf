//! The result aggregator: three ordered buckets that take one outcome per
//! file, in processing order.

use vstd::prelude::*;
use crate::model::{
    matched_views, skipped_views, texts, MatchedFile, MatchedFileView, SkippedFile,
    SkippedFileView,
};

verus! {

/// What became of one file.
#[derive(Debug, PartialEq, Eq)]
pub enum Outcome {
    /// At least one pattern occurs in the file.
    Matched(MatchedFile),
    /// The file was scanned and no pattern occurs in it; holds its path.
    Unmatched(String),
    /// The file was not scanned to the end.
    Skipped(SkippedFile),
}

/// Mathematical value of an [`Outcome`].
pub enum OutcomeView {
    Matched(MatchedFileView),
    Unmatched(Seq<char>),
    Skipped(SkippedFileView),
}

impl View for Outcome {
    type V = OutcomeView;

    open spec fn view(&self) -> OutcomeView {
        match *self {
            Outcome::Matched(file) => OutcomeView::Matched(file@),
            Outcome::Unmatched(path) => OutcomeView::Unmatched(path@),
            Outcome::Skipped(file) => OutcomeView::Skipped(file@),
        }
    }
}

/// Mathematical value of [`SearchResults`]: the three buckets, each in
/// first-seen order.
pub struct ResultsView {
    pub matched: Seq<MatchedFileView>,
    pub skipped: Seq<SkippedFileView>,
    pub unmatched: Seq<Seq<char>>,
}

/// The results before any outcome was recorded.
pub open spec fn no_results() -> ResultsView {
    ResultsView { matched: Seq::empty(), skipped: Seq::empty(), unmatched: Seq::empty() }
}

/// The results after `outcome` is appended to its bucket.
pub open spec fn record(results: ResultsView, outcome: OutcomeView) -> ResultsView {
    match outcome {
        OutcomeView::Matched(file) => ResultsView {
            matched: results.matched.push(file),
            ..results
        },
        OutcomeView::Unmatched(path) => ResultsView {
            unmatched: results.unmatched.push(path),
            ..results
        },
        OutcomeView::Skipped(file) => ResultsView {
            skipped: results.skipped.push(file),
            ..results
        },
    }
}

/// Number of records in all three buckets.
pub open spec fn total(results: ResultsView) -> nat {
    results.matched.len() + results.skipped.len() + results.unmatched.len()
}

/// The outcome of a search.
#[derive(Debug, PartialEq, Eq)]
pub struct SearchResults {
    matched: Vec<MatchedFile>,
    skipped: Vec<SkippedFile>,
    unmatched: Vec<String>,
}

impl View for SearchResults {
    type V = ResultsView;

    closed spec fn view(&self) -> ResultsView {
        ResultsView {
            matched: matched_views(self.matched@),
            skipped: skipped_views(self.skipped@),
            unmatched: texts(self.unmatched@),
        }
    }
}

impl SearchResults {
    /// Results with three empty buckets.
    pub fn new() -> (results: SearchResults)
        ensures
            results@ == no_results(),
    {
        let skipped: Vec<SkippedFile> = Vec::new();
        assert(skipped_views(skipped@) =~= Seq::empty());
        SearchResults::with_skipped(skipped)
    }

    /// Results that start from the skip records of the filter stage.
    pub fn with_skipped(skipped: Vec<SkippedFile>) -> (results: SearchResults)
        ensures
            results@ == (ResultsView { skipped: skipped_views(skipped@), ..no_results() }),
    {
        let results = SearchResults { matched: Vec::new(), skipped, unmatched: Vec::new() };
        assert(matched_views(results.matched@) =~= Seq::empty());
        assert(texts(results.unmatched@) =~= Seq::empty());
        results
    }

    /// Appends `outcome` to its bucket; the other two stay as they are.
    pub fn record(&mut self, outcome: Outcome)
        ensures
            final(self)@ == record(old(self)@, outcome@),
    {
        match outcome {
            Outcome::Matched(file) => {
                self.matched.push(file);
                assert(matched_views(self.matched@) =~= matched_views(old(self).matched@).push(
                    file@,
                ));
            },
            Outcome::Unmatched(path) => {
                self.unmatched.push(path);
                assert(texts(self.unmatched@) =~= texts(old(self).unmatched@).push(path@));
            },
            Outcome::Skipped(file) => {
                self.skipped.push(file);
                assert(skipped_views(self.skipped@) =~= skipped_views(old(self).skipped@).push(
                    file@,
                ));
            },
        }
    }

    /// The matched files, in first-seen order.
    pub fn matched(&self) -> (bucket: &Vec<MatchedFile>)
        ensures
            matched_views(bucket@) == self@.matched,
    {
        &self.matched
    }

    /// The skipped files, in first-seen order.
    pub fn skipped(&self) -> (bucket: &Vec<SkippedFile>)
        ensures
            skipped_views(bucket@) == self@.skipped,
    {
        &self.skipped
    }

    /// The paths of the scanned files in which no pattern occurs, in
    /// first-seen order.
    pub fn unmatched(&self) -> (bucket: &Vec<String>)
        ensures
            texts(bucket@) == self@.unmatched,
    {
        &self.unmatched
    }

    /// Number of matched files.
    pub fn matched_len(&self) -> (n: usize)
        ensures
            n == self@.matched.len(),
    {
        self.matched.len()
    }

    /// Number of skipped files.
    pub fn skipped_len(&self) -> (n: usize)
        ensures
            n == self@.skipped.len(),
    {
        self.skipped.len()
    }

    /// Number of unmatched files.
    pub fn unmatched_len(&self) -> (n: usize)
        ensures
            n == self@.unmatched.len(),
    {
        self.unmatched.len()
    }
}

} // verus!
