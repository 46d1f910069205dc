//! The review's records: where a comment points (anchors), the digests of the
//! file versions a revision's diff is between, and the review's settings.
//!
//! One review is one append-only event log; an anchor is a *place* -- a line
//! range of an immutable file version, named by the digest of its full text --
//! never text.

use crate::text::{copy_opt, copy_string, opt_view};
use vstd::prelude::*;

verus! {

/// Which side of the diff an anchor's line numbers refer to.
#[derive(Debug, Clone, Copy, PartialEq, Eq, Hash, Structural)]
pub enum Side {
    Old,
    New,
}

/// What to snapshot into a bundle the first time a new diff digest is
/// captured.
#[derive(Debug, Clone, Copy, PartialEq, Eq, Structural)]
pub enum SnapshotMode {
    /// Both sides of every file the diff touches, and every file a comment
    /// refers to.
    Changed,
    /// What `Changed` keeps, and the whole head tree.
    Full,
}

/// What an attached file may weigh unless the review says otherwise (5 MB).
pub const DEFAULT_ATTACHMENT_LIMIT: u64 = 5242880;

/// The review's settings: state, not history.
#[derive(Debug, Clone, PartialEq, Eq)]
pub struct Settings {
    /// The most a file attached to a comment may weigh, in bytes.
    pub attachment_limit: u64,
    /// The review's title. `None`: none.
    pub title: Option<String>,
    /// Whether the page shows lines that differ only in white space as
    /// unchanged.
    pub ignore_whitespace: bool,
}

pub fn default_attachment_limit() -> (r: u64)
    ensures
        r == DEFAULT_ATTACHMENT_LIMIT,
{
    DEFAULT_ATTACHMENT_LIMIT
}

impl Default for Settings {
    fn default() -> (r: Settings)
        ensures
            r.attachment_limit == DEFAULT_ATTACHMENT_LIMIT,
            r.title is None,
            !r.ignore_whitespace,
    {
        Settings { attachment_limit: DEFAULT_ATTACHMENT_LIMIT, title: None, ignore_whitespace: false }
    }
}

/// The commits a git-backed review was made against, resolved to full ids.
#[derive(Debug, Clone, PartialEq, Eq)]
pub struct GitSource {
    pub base: String,
    pub head: String,
    /// What the user typed (`HEAD~3..HEAD`), for display only.
    pub spec: String,
}

/// What a revision's content was taken from.
#[derive(Debug, Clone, PartialEq, Eq)]
pub enum Source {
    Git(GitSource),
    /// A plain directory, compared against the bundle's previous snapshot;
    /// `base` is that snapshot's tree digest (`None` for the first one).
    Files { base: Option<String> },
}

impl Source {
    /// The (base, head) revision ids a revision with this `digest` compares.
    pub fn revisions(&self, digest: &str) -> (r: (Option<String>, Option<String>))
        ensures
            match self {
                Source::Git(g) => opt_view(r.0) == Some(g.base@) && opt_view(r.1) == Some(g.head@),
                Source::Files { base } => opt_view(r.0) == opt_view(*base) && opt_view(r.1)
                    == Some(digest@),
            },
    {
        match self {
            Source::Git(g) => (Some(copy_string(&g.base)), Some(copy_string(&g.head))),
            Source::Files { base } => (copy_opt(base), Some(digest.to_owned())),
        }
    }
}

/// Where a comment points, against the two revisions of the diff it was
/// written on. A `None` side means that revision has no such thing.
#[derive(Debug, Clone, PartialEq, Eq)]
#[allow(inconsistent_fields)]
pub enum Anchor {
    /// The change as a whole: the ids of its two revisions.
    Global { base: Option<String>, head: Option<String> },
    /// A whole file: its base and head versions.
    File { base: Option<FileRef>, head: Option<FileRef> },
    /// Lines of a file. At least one side has a non-empty range.
    Span { base: Option<LineRange>, head: Option<LineRange> },
}

/// One version of one file: its path and the digest of its full text.
#[derive(Debug, Clone, PartialEq, Eq)]
pub struct FileRef {
    pub file: String,
    pub digest: String,
}

/// A run of lines in one version of one file.
#[derive(Debug, Clone, PartialEq, Eq)]
pub struct LineRange {
    pub file: String,
    /// Digest (`sha256:...`) of the full text of `file` in this version.
    pub digest: String,
    /// First line of the range (1-based). For an empty range, the line the
    /// point sits *before*.
    pub start: u32,
    /// Number of lines; 0 is an insertion or deletion point.
    pub len: u32,
}

impl LineRange {
    pub fn is_empty(&self) -> (r: bool)
        ensures
            r == (self.len == 0),
    {
        self.len == 0
    }

    /// Last line of a non-empty range (its start for an empty one).
    pub fn end(&self) -> (r: u32)
        requires
            self.start + self.len <= u32::MAX + 1,
        ensures
            r == if self.len == 0 {
                self.start as int
            } else {
                self.start + self.len - 1
            },
    {
        self.start + self.len.saturating_sub(1)
    }

    pub fn duplicate(&self) -> (r: LineRange)
        ensures
            r.file@ == self.file@,
            r.digest@ == self.digest@,
            r.start == self.start,
            r.len == self.len,
    {
        LineRange {
            file: copy_string(&self.file),
            digest: copy_string(&self.digest),
            start: self.start,
            len: self.len,
        }
    }
}

/// The digests of one file touched by a revision's diff, keyed by the same
/// paths as the diff's `---`/`+++` lines (`None`: no such side).
#[derive(Debug, Clone, PartialEq, Eq)]
pub struct FileDigest {
    pub old_path: Option<String>,
    pub new_path: Option<String>,
    pub old: Option<String>,
    pub new: Option<String>,
}

/// One file of a revision's recorded head tree.
#[derive(Debug, Clone, PartialEq, Eq)]
pub struct TreeFile {
    pub path: String,
    /// Digest of the file's full text at this revision's head.
    pub digest: String,
}

/// Who reacted to a comment with one emoji.
#[derive(Debug, Clone, PartialEq, Eq)]
pub struct Reaction {
    pub emoji: String,
    pub authors: Vec<String>,
}

/// The reactions to the comments, by comment id, each in the order its emoji
/// was first used.
#[derive(Debug, Clone, PartialEq, Eq)]
pub struct Reactions {
    pub entries: Vec<(String, Vec<Reaction>)>,
}

/// One file a commit touched: where it is, where it was (a rename or a
/// copy), and what happened to it (`added`, `deleted`, `modified`,
/// `renamed`, `copied`, or `changed`).
#[derive(Debug, Clone, PartialEq, Eq)]
pub struct CommitFile {
    pub path: String,
    pub old_path: Option<String>,
    pub status: String,
}

/// What a commit from a review's base to its head says and touched. Its time
/// is the RFC 3339 text git gave.
#[derive(Debug, Clone, PartialEq, Eq)]
pub struct CommitInfo {
    pub author: String,
    pub at: String,
    pub subject: String,
    pub body: String,
    pub files: Vec<CommitFile>,
}

// ---- anchors as values --------------------------------------------------------------

pub struct FileRefV {
    pub file: Seq<char>,
    pub digest: Seq<char>,
}

pub struct LineRangeV {
    pub file: Seq<char>,
    pub digest: Seq<char>,
    pub start: u32,
    pub len: u32,
}

pub enum AnchorV {
    Global { base: Option<Seq<char>>, head: Option<Seq<char>> },
    File { base: Option<FileRefV>, head: Option<FileRefV> },
    Span { base: Option<LineRangeV>, head: Option<LineRangeV> },
}

pub open spec fn file_ref_view(f: Option<FileRef>) -> Option<FileRefV> {
    match f {
        Some(f) => Some(FileRefV { file: f.file@, digest: f.digest@ }),
        None => None,
    }
}

pub open spec fn line_range_view(r: Option<LineRange>) -> Option<LineRangeV> {
    match r {
        Some(r) => Some(LineRangeV { file: r.file@, digest: r.digest@, start: r.start, len: r.len }),
        None => None,
    }
}

impl View for Anchor {
    type V = AnchorV;

    open spec fn view(&self) -> AnchorV {
        match self {
            Anchor::Global { base, head } => AnchorV::Global { base: opt_view(*base), head: opt_view(*head) },
            Anchor::File { base, head } => AnchorV::File { base: file_ref_view(*base), head: file_ref_view(*head) },
            Anchor::Span { base, head } => AnchorV::Span { base: line_range_view(*base), head: line_range_view(*head) },
        }
    }
}

fn copy_file_ref(f: &Option<FileRef>) -> (r: Option<FileRef>)
    ensures
        file_ref_view(r) == file_ref_view(*f),
{
    match f {
        Some(f) => Some(FileRef { file: copy_string(&f.file), digest: copy_string(&f.digest) }),
        None => None,
    }
}

fn copy_range(r: &Option<LineRange>) -> (c: Option<LineRange>)
    ensures
        line_range_view(c) == line_range_view(*r),
{
    match r {
        Some(r) => Some(r.duplicate()),
        None => None,
    }
}

/// A copy of an anchor.
pub fn copy_anchor(a: &Anchor) -> (r: Anchor)
    ensures
        r@ == a@,
{
    match a {
        Anchor::Global { base, head } => Anchor::Global { base: copy_opt(base), head: copy_opt(head) },
        Anchor::File { base, head } => Anchor::File { base: copy_file_ref(base), head: copy_file_ref(head) },
        Anchor::Span { base, head } => Anchor::Span { base: copy_range(base), head: copy_range(head) },
    }
}

// ---- the event log ------------------------------------------------------------------

/// A version of the reviewed content that an editing session was made
/// against. Its id is the value of its ULID; its time the RFC 3339 text of
/// when it was recorded.
#[derive(Debug, Clone, PartialEq, Eq)]
pub struct Revision {
    pub id: u128,
    pub created_at: String,
    /// Digest (`sha256:...`) identifying this revision, and the key of its
    /// diff in the bundle.
    pub digest: String,
    pub source: Source,
    pub snapshot_mode: SnapshotMode,
    /// What the diff changed, per file (both sides' digests).
    pub files: Vec<FileDigest>,
    /// The head tree as far as this revision recorded it, by digest. Later
    /// `Pin` events add to it.
    pub tree: Vec<TreeFile>,
}

/// One entry of the review's log. Ids are the values of ULIDs; times the
/// RFC 3339 text of when the entry was written.
#[derive(Debug, Clone)]
pub enum Event {
    Meta { version: u32, created_at: String, description: Option<String>, context_lines: u32 },
    /// The review's title, as it was once kept: read as the last one being
    /// in the settings.
    Title { title: String, author: String, created_at: String },
    /// Whether white space is ignored, as it was once kept.
    IgnoreWhitespace { value: bool, author: String, created_at: String },
    Revision(Revision),
    /// Adds files to the head tree a recorded revision knows.
    Pin { revision: u128, files: Vec<TreeFile> },
    /// A thread's root (no `parent`, with an `anchor`) or a reply (`parent`
    /// the root's id).
    Comment { id: u128, parent: Option<u128>, author: String, created_at: String, anchor: Option<Anchor>, body: String },
    Resolve { parent: u128, author: String, created_at: String },
    Reopen { parent: u128, author: String, created_at: String },
    /// Makes `anchor` the thread's anchor.
    Reanchor { parent: u128, author: String, created_at: String, anchor: Anchor },
}

} // verus!
