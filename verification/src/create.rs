//! Turns the position a comment was placed at (an [`AnchorScope`]: the
//! lines it covers on each side of the diff) into the [`Anchor`] that is
//! persisted: for each side, the file version (its digest) and the line
//! range in it. No text is kept -- the versions themselves are in the
//! bundle.

use crate::anchor::{digest_for, digest_for_spec, entry_index, file_index, find_entry, find_file};
use crate::diff::UnifiedDiff;
use crate::model::{Anchor, FileDigest, FileRef, LineRange, Side};
use crate::text::{copy_string, opt_view};
use vstd::prelude::*;

verus! {

/// A run of lines in one version of a file. `len == 0` is an insertion
/// point: `start` is the line the (absent) text would sit *before*.
#[derive(Debug, Clone, Copy, PartialEq, Eq, Structural)]
pub struct LineSpan {
    pub start: u32,
    pub len: u32,
}

/// Where a new comment is placed.
#[derive(Debug, Clone, PartialEq, Eq)]
pub enum AnchorScope {
    Global,
    File { file: String },
    /// What the comment covers on each side. A context line is a one-line
    /// span on both; an added line an empty `base` and a one-line `head`; a
    /// removed line the reverse; a run of lines the whole run on both
    /// sides. Never empty on both.
    Span { file: String, base: LineSpan, head: LineSpan },
}

/// Why a position could not be turned into an anchor.
#[derive(Debug, Clone, PartialEq, Eq)]
pub enum CreateError {
    /// The position names a file the diff does not touch.
    FileMissing { file: String },
}

/// `r` is the reference to a file version at `path` (if any) with `digest`
/// (empty where the version has none).
pub open spec fn ref_is(r: Option<FileRef>, path: Option<Seq<char>>, digest: Option<Seq<char>>) -> bool {
    match path {
        None => r is None,
        Some(p) => r matches Some(f) && f.file@ == p && f.digest@ == match digest {
            Some(d) => d,
            None => Seq::<char>::empty(),
        },
    }
}

/// `r` is the range `span` of the version at `path` (if any) on `side`, with
/// the digest that `files` give that version (empty where they give none).
pub open spec fn range_is(
    r: Option<LineRange>,
    files: Seq<FileDigest>,
    side: Side,
    path: Option<Seq<char>>,
    span: LineSpan,
) -> bool {
    match path {
        None => r is None,
        Some(p) => r matches Some(l) && l.file@ == p && l.start == span.start && l.len == span.len
            && l.digest@ == match digest_for_spec(files, p, side) {
            Some(d) => d,
            None => Seq::<char>::empty(),
        },
    }
}

fn make_ref(path: &Option<String>, digest: &Option<String>) -> (r: Option<FileRef>)
    ensures
        ref_is(r, opt_view(*path), opt_view(*digest)),
{
    match path {
        Some(p) => Some(
            FileRef {
                file: copy_string(p),
                digest: match digest {
                    Some(d) => copy_string(d),
                    None => String::new(),
                },
            },
        ),
        None => None,
    }
}

fn make_range(files: &[FileDigest], side: Side, path: &Option<String>, span: &LineSpan) -> (r: Option<
    LineRange,
>)
    ensures
        range_is(r, files@, side, opt_view(*path), *span),
{
    match path {
        Some(p) => {
            let digest = match digest_for(files, p.as_str(), side) {
                Some(d) => d.to_owned(),
                None => String::new(),
            };
            Some(LineRange { file: copy_string(p), digest, start: span.start, len: span.len })
        },
        None => None,
    }
}

/// The anchor of a comment placed at `scope`. `revisions` are the (base,
/// head) ids of the reviewed change; `files` the digests of the files the
/// diff touches. A span on a file the diff does not touch is refused.
pub fn build_anchor(
    scope: &AnchorScope,
    parsed_diff: &UnifiedDiff,
    files: &[FileDigest],
    revisions: &(Option<String>, Option<String>),
) -> (r: Result<Anchor, CreateError>)
    ensures
        match scope {
            AnchorScope::Global => r matches Ok(Anchor::Global { base, head }) && opt_view(base)
                == opt_view(revisions.0) && opt_view(head) == opt_view(revisions.1),
            AnchorScope::File { file } => r matches Ok(Anchor::File { base, head }) && match entry_index(
                files@,
                file@,
            ) {
                Some(i) => ref_is(base, opt_view(files@[i].old_path), opt_view(files@[i].old))
                    && ref_is(head, opt_view(files@[i].new_path), opt_view(files@[i].new)),
                None => base is None && ref_is(head, Some(file@), None),
            },
            AnchorScope::Span { file, base: b, head: h } => match file_index(parsed_diff.files@, file@) {
                Some(i) => r matches Ok(Anchor::Span { base, head }) && range_is(
                    base,
                    files@,
                    Side::Old,
                    opt_view(parsed_diff.files@[i].old_path),
                    *b,
                ) && range_is(head, files@, Side::New, opt_view(parsed_diff.files@[i].new_path), *h),
                None => r matches Err(CreateError::FileMissing { file: f }) && f@ == file@,
            },
        },
{
    match scope {
        AnchorScope::Global => Ok(
            Anchor::Global {
                base: crate::text::copy_opt(&revisions.0),
                head: crate::text::copy_opt(&revisions.1),
            },
        ),
        AnchorScope::File { file } => match find_entry(files, file.as_str()) {
            Some(i) => Ok(
                Anchor::File {
                    base: make_ref(&files[i].old_path, &files[i].old),
                    head: make_ref(&files[i].new_path, &files[i].new),
                },
            ),
            None => Ok(Anchor::File { base: None, head: make_ref(&Some(copy_string(file)), &None) }),
        },
        AnchorScope::Span { file, base, head } => match find_file(parsed_diff, file.as_str()) {
            Some(f) => Ok(
                Anchor::Span {
                    base: make_range(files, Side::Old, &f.old_path, base),
                    head: make_range(files, Side::New, &f.new_path, head),
                },
            ),
            None => Err(CreateError::FileMissing { file: copy_string(file) }),
        },
    }
}

} // verus!
