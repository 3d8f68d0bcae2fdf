//! The candidate filter: decides, entry by entry, whether a file is queued for
//! scanning or skipped, and when enumeration stops.

use vstd::prelude::*;
use crate::model::{
    path_or_unknown, skipped_views, texts, unknown_path, unknown_path_string, Entry, EntryView,
    SkipReason, SkippedFile, SkippedFileView,
};
use crate::paths::ends_with;

verus! {

/// The filter configuration of one search.
#[derive(Debug)]
pub struct FilterPolicy {
    /// Allowed path suffixes; empty means every path is allowed.
    pub extensions: Vec<String>,
    /// Largest size in bytes of a file that is queued; `None` and `Some(0)`
    /// mean no limit.
    pub max_size: Option<u64>,
    /// Largest number of files that are queued; `None` and `Some(0)` mean no
    /// limit. With a limit of `n`, at most `n` files are queued: the first
    /// regular file that arrives once `n` are queued ends the enumeration.
    pub max_queued: Option<usize>,
}

/// Mathematical value of a [`FilterPolicy`].
pub struct PolicyView {
    pub extensions: Seq<Seq<char>>,
    pub max_size: Option<u64>,
    pub max_queued: Option<usize>,
}

impl View for FilterPolicy {
    type V = PolicyView;

    open spec fn view(&self) -> PolicyView {
        PolicyView {
            extensions: texts(self.extensions@),
            max_size: self.max_size,
            max_queued: self.max_queued,
        }
    }
}

impl PolicyView {
    /// Whether the extension allow-list lets `path` through: the list is
    /// empty, or `path` ends with one of its items.
    pub open spec fn admits_extension(self, path: Seq<char>) -> bool {
        self.extensions.len() == 0 || exists|i: int|
            0 <= i < self.extensions.len() && (#[trigger] self.extensions[i]).is_suffix_of(path)
    }

    /// Whether the size limit lets a file of `size` bytes through: there is
    /// no limit, or `size` is not above it.
    pub open spec fn admits_size(self, size: u64) -> bool {
        match self.max_size {
            Some(limit) => limit == 0 || size <= limit,
            None => true,
        }
    }

    /// Whether `queued` files already fill the queue.
    pub open spec fn queue_full(self, queued: nat) -> bool {
        match self.max_queued {
            Some(limit) => limit > 0 && queued >= limit,
            None => false,
        }
    }
}

impl FilterPolicy {
    /// Tests `path` against the extension allow-list.
    pub fn allows_extension(&self, path: &str) -> (allowed: bool)
        ensures
            allowed == self@.admits_extension(path@),
    {
        if self.extensions.len() == 0 {
            return true;
        }
        let mut i: usize = 0;
        while i < self.extensions.len()
            invariant
                i <= self.extensions@.len(),
                self@.extensions.len() == self.extensions@.len(),
                forall|j: int| 0 <= j < i ==> !(#[trigger] self@.extensions[j]).is_suffix_of(path@),
            decreases self.extensions@.len() - i,
        {
            if ends_with(path, self.extensions[i].as_str()) {
                assert(self@.extensions[i as int] == self.extensions@[i as int]@);
                return true;
            }
            assert(self@.extensions[i as int] == self.extensions@[i as int]@);
            i += 1;
        }
        false
    }

    /// Tests a file size against the size limit.
    pub fn allows_size(&self, size: u64) -> (allowed: bool)
        ensures
            allowed == self@.admits_size(size),
    {
        match self.max_size {
            Some(limit) => limit == 0 || size <= limit,
            None => true,
        }
    }

    /// Tests whether a queue of `queued` files is full.
    pub fn is_full(&self, queued: usize) -> (full: bool)
        ensures
            full == self@.queue_full(queued as nat),
    {
        match self.max_queued {
            Some(limit) => limit > 0 && queued >= limit,
            None => false,
        }
    }
}

/// What the filter does with one enumerated entry.
pub enum Decision {
    /// Not a regular file: nothing is recorded.
    Ignore,
    /// The file is skipped and the record kept.
    Skip(SkippedFileView),
    /// The file, given by its path, is queued for scanning.
    Enqueue(Seq<char>),
    /// The queue is full: this entry and all later ones are not considered.
    Stop,
}

/// The decision for `entry` when `queued` files are already queued.
///
/// A failed entry, a path that is not text and a size that cannot be read
/// are recorded before
/// the queue limit is looked at; the limit comes before the extension test, and
/// the extension test before the size test.
pub open spec fn decide(policy: PolicyView, queued: nat, entry: EntryView) -> Decision {
    match entry {
        EntryView::Unreadable { path } => Decision::Skip(
            SkippedFileView { path: path_or_unknown(path), reason: SkipReason::EnumerationError },
        ),
        EntryView::NotAFile => Decision::Ignore,
        EntryView::NonTextPath => Decision::Skip(
            SkippedFileView { path: unknown_path(), reason: SkipReason::PathEncodingError },
        ),
        EntryView::NoMetadata { path } => Decision::Skip(
            SkippedFileView { path, reason: SkipReason::MetadataError },
        ),
        EntryView::File { path, size } => if policy.queue_full(queued) {
            Decision::Stop
        } else if !policy.admits_extension(path) {
            Decision::Skip(SkippedFileView { path, reason: SkipReason::ExtensionMismatch })
        } else if !policy.admits_size(size) {
            Decision::Skip(SkippedFileView { path, reason: SkipReason::SizeExceeded })
        } else {
            Decision::Enqueue(path)
        },
    }
}

/// The state of the filter: the queue, the skip records, and whether the queue
/// limit has ended the enumeration.
pub struct QueueView {
    pub queued: Seq<Seq<char>>,
    pub skipped: Seq<SkippedFileView>,
    pub stopped: bool,
}

/// The state before any entry was offered.
pub open spec fn empty_queue() -> QueueView {
    QueueView { queued: Seq::empty(), skipped: Seq::empty(), stopped: false }
}

/// The state after `entry` is offered in `state`. Once stopped, the state no
/// longer changes.
pub open spec fn step(policy: PolicyView, state: QueueView, entry: EntryView) -> QueueView {
    if state.stopped {
        state
    } else {
        match decide(policy, state.queued.len(), entry) {
            Decision::Ignore => state,
            Decision::Skip(record) => QueueView { skipped: state.skipped.push(record), ..state },
            Decision::Enqueue(path) => QueueView { queued: state.queued.push(path), ..state },
            Decision::Stop => QueueView { stopped: true, ..state },
        }
    }
}

/// The state after all of `entries` were offered in order.
pub open spec fn filter_entries(policy: PolicyView, entries: Seq<EntryView>) -> QueueView
    decreases entries.len(),
{
    if entries.len() == 0 {
        empty_queue()
    } else {
        step(policy, filter_entries(policy, entries.drop_last()), entries.last())
    }
}

/// Builds the scan queue from the entries that enumeration yields.
pub struct QueueBuilder {
    policy: FilterPolicy,
    queued: Vec<String>,
    skipped: Vec<SkippedFile>,
    stopped: bool,
}

impl View for QueueBuilder {
    type V = QueueView;

    closed spec fn view(&self) -> QueueView {
        QueueView {
            queued: texts(self.queued@),
            skipped: skipped_views(self.skipped@),
            stopped: self.stopped,
        }
    }
}

impl QueueBuilder {
    /// The policy the builder decides by.
    pub closed spec fn policy(&self) -> PolicyView {
        self.policy@
    }

    /// Starts with an empty queue.
    pub fn new(policy: FilterPolicy) -> (builder: QueueBuilder)
        ensures
            builder@ == empty_queue(),
            builder.policy() == policy@,
    {
        let builder = QueueBuilder {
            policy,
            queued: Vec::new(),
            skipped: Vec::new(),
            stopped: false,
        };
        assert(texts(builder.queued@) =~= Seq::empty());
        assert(skipped_views(builder.skipped@) =~= Seq::empty());
        builder
    }

    /// Number of files queued so far.
    pub fn queued_len(&self) -> (n: usize)
        ensures
            n == self@.queued.len(),
    {
        self.queued.len()
    }

    /// Number of files skipped so far.
    pub fn skipped_len(&self) -> (n: usize)
        ensures
            n == self@.skipped.len(),
    {
        self.skipped.len()
    }

    /// Whether the queue limit has ended the enumeration.
    pub fn is_stopped(&self) -> (stopped: bool)
        ensures
            stopped == self@.stopped,
    {
        self.stopped
    }

    fn skip(&mut self, path: String, reason: SkipReason)
        ensures
            final(self).policy == old(self).policy,
            final(self).queued == old(self).queued,
            final(self).stopped == old(self).stopped,
            skipped_views(final(self).skipped@) == skipped_views(old(self).skipped@).push(
                SkippedFileView { path: path@, reason },
            ),
    {
        let record = SkippedFile { path, reason };
        self.skipped.push(record);
        assert(skipped_views(self.skipped@) =~= skipped_views(old(self).skipped@).push(record@));
    }

    /// Classifies one enumerated entry. Returns whether enumeration goes on:
    /// `false` once the queue limit is reached, after which further entries
    /// change nothing.
    pub fn offer(&mut self, entry: &Entry) -> (more: bool)
        ensures
            final(self).policy() == old(self).policy(),
            final(self)@ == step(old(self).policy(), old(self)@, entry@),
            more == !final(self)@.stopped,
    {
        if self.stopped {
            return false;
        }
        match entry {
            Entry::Unreadable { path } => {
                let recorded = match path {
                    Some(text) => text.clone(),
                    None => unknown_path_string(),
                };
                self.skip(recorded, SkipReason::EnumerationError);
            },
            Entry::NotAFile => {},
            Entry::NonTextPath => {
                self.skip(unknown_path_string(), SkipReason::PathEncodingError);
            },
            Entry::NoMetadata { path } => {
                self.skip(path.clone(), SkipReason::MetadataError);
            },
            Entry::File(file) => {
                if self.policy.is_full(self.queued.len()) {
                    self.stopped = true;
                } else if !self.policy.allows_extension(file.path.as_str()) {
                    self.skip(file.path.clone(), SkipReason::ExtensionMismatch);
                } else if !self.policy.allows_size(file.size) {
                    self.skip(file.path.clone(), SkipReason::SizeExceeded);
                } else {
                    self.queued.push(file.path.clone());
                    assert(texts(self.queued@) =~= texts(old(self).queued@).push(file.path@));
                }
            },
        }
        !self.stopped
    }

    /// Ends the filter stage and hands out the queue and the skip records.
    pub fn finish(self) -> (out: (Vec<String>, Vec<SkippedFile>))
        ensures
            texts(out.0@) == self@.queued,
            skipped_views(out.1@) == self@.skipped,
    {
        (self.queued, self.skipped)
    }
}

} // verus!
