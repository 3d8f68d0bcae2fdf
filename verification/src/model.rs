//! The data the search works on and reports.

use vstd::prelude::*;

verus! {

/// Why a file did not reach the matched / unmatched classification.
#[derive(Clone, Copy, Debug, PartialEq, Eq, Structural)]
pub enum SkipReason {
    /// Traversal could not yield the entry.
    EnumerationError,
    /// The file's path is not valid text.
    PathEncodingError,
    /// The file's size could not be read.
    MetadataError,
    /// The path ends with none of the allowed extensions.
    ExtensionMismatch,
    /// The file is larger than the configured maximum.
    SizeExceeded,
    /// The queued file could not be opened.
    OpenError,
    /// The queued file could not be read to its end.
    ReadError,
}

/// A regular file found by enumeration, not yet classified.
#[derive(Debug, PartialEq, Eq)]
pub struct Candidate {
    /// Path of the file, as text.
    pub path: String,
    /// Size of the file in bytes.
    pub size: u64,
}

/// What enumeration saw at one step of the traversal.
#[derive(Debug, PartialEq, Eq)]
pub enum Entry {
    /// The traversal failed to yield this entry; holds the entry's path
    /// where the failure still tells it.
    Unreadable { path: Option<String> },
    /// A directory or another entry that is not a regular file.
    NotAFile,
    /// A regular file whose path is not valid text.
    NonTextPath,
    /// A regular file whose size could not be read.
    NoMetadata { path: String },
    /// A regular file with its path and size.
    File(Candidate),
}

/// What reading a queued file gave.
#[derive(Debug, PartialEq, Eq)]
pub enum ReadOutcome {
    /// The file could not be opened.
    OpenFailed,
    /// The file was opened but reading it failed.
    ReadFailed,
    /// The whole content of the file.
    Content(Vec<u8>),
}

/// A file that was skipped, and why.
#[derive(Debug, PartialEq, Eq)]
pub struct SkippedFile {
    /// Path of the file, or [`unknown_path`] where it could not be recovered.
    pub path: String,
    /// The reason, exactly one.
    pub reason: SkipReason,
}

/// A file in which at least one pattern occurs.
#[derive(Debug, PartialEq, Eq)]
pub struct MatchedFile {
    /// Path of the file.
    pub path: String,
    /// The patterns that occur in it, each once, ordered by the offset of
    /// their first occurrence.
    pub patterns: Vec<String>,
}

/// Mathematical value of an [`Entry`].
pub enum EntryView {
    Unreadable { path: Option<Seq<char>> },
    NotAFile,
    NonTextPath,
    NoMetadata { path: Seq<char> },
    File { path: Seq<char>, size: u64 },
}

impl View for Entry {
    type V = EntryView;

    open spec fn view(&self) -> EntryView {
        match *self {
            Entry::Unreadable { path } => EntryView::Unreadable {
                path: match path {
                    Some(text) => Some(text@),
                    None => None,
                },
            },
            Entry::NotAFile => EntryView::NotAFile,
            Entry::NonTextPath => EntryView::NonTextPath,
            Entry::NoMetadata { path } => EntryView::NoMetadata { path: path@ },
            Entry::File(file) => EntryView::File { path: file.path@, size: file.size },
        }
    }
}

/// Mathematical value of a [`ReadOutcome`].
pub enum ReadView {
    OpenFailed,
    ReadFailed,
    Content(Seq<u8>),
}

impl View for ReadOutcome {
    type V = ReadView;

    open spec fn view(&self) -> ReadView {
        match *self {
            ReadOutcome::OpenFailed => ReadView::OpenFailed,
            ReadOutcome::ReadFailed => ReadView::ReadFailed,
            ReadOutcome::Content(bytes) => ReadView::Content(bytes@),
        }
    }
}

/// Mathematical value of a [`SkippedFile`].
pub struct SkippedFileView {
    pub path: Seq<char>,
    pub reason: SkipReason,
}

/// Mathematical value of a [`MatchedFile`].
pub struct MatchedFileView {
    pub path: Seq<char>,
    pub patterns: Seq<Seq<char>>,
}

impl View for SkippedFile {
    type V = SkippedFileView;

    open spec fn view(&self) -> SkippedFileView {
        SkippedFileView { path: self.path@, reason: self.reason }
    }
}

impl View for MatchedFile {
    type V = MatchedFileView;

    open spec fn view(&self) -> MatchedFileView {
        MatchedFileView { path: self.path@, patterns: texts(self.patterns@) }
    }
}

/// The texts of a sequence of strings.
pub open spec fn texts(strings: Seq<String>) -> Seq<Seq<char>> {
    strings.map_values(|s: String| s@)
}

/// The values of a sequence of skip records.
pub open spec fn skipped_views(records: Seq<SkippedFile>) -> Seq<SkippedFileView> {
    records.map_values(|r: SkippedFile| r@)
}

/// The values of a sequence of match records.
pub open spec fn matched_views(records: Seq<MatchedFile>) -> Seq<MatchedFileView> {
    records.map_values(|r: MatchedFile| r@)
}

/// The path recorded for a file whose own path could not be recovered.
pub open spec fn unknown_path() -> Seq<char> {
    seq!['u', 'n', 'k', 'n', 'o', 'w', 'n']
}

/// The path recorded for a failed entry: its own where it is known, the
/// placeholder where it is not.
pub open spec fn path_or_unknown(path: Option<Seq<char>>) -> Seq<char> {
    match path {
        Some(text) => text,
        None => unknown_path(),
    }
}

/// Returns the placeholder path `"unknown"`.
pub fn unknown_path_string() -> (path: String)
    ensures
        path@ == unknown_path(),
{
    proof {
        reveal_strlit("unknown");
    }
    let path = "unknown".to_string();
    assert(path@ =~= unknown_path());
    path
}

} // verus!
