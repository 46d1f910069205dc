use diffnote::create::{build_anchor, AnchorScope, CreateError, LineSpan};
use diffnote::diff::{self, UnifiedDiff};
use diffnote::digest::digest;
use diffnote::files::{diff_trees, Tree};
use diffnote::model::{Anchor, FileDigest, LineRange};

/// A one-file change: the unified diff between `old` and `new` and the
/// digests of both versions.
struct Change {
    diff: UnifiedDiff,
    files: Vec<FileDigest>,
}

fn change(old: Option<&str>, new: Option<&str>) -> Change {
    let tree = |t: Option<&str>| -> Tree {
        Tree::from_entries(t.map(|t| ("f.txt".to_string(), t.as_bytes().to_vec())).into_iter().collect())
    };
    let (text, files) = diff_trees(&tree(old), &tree(new));
    Change { diff: diff::parse(&text).unwrap(), files }
}

fn revisions() -> (Option<String>, Option<String>) {
    (Some("base-rev".into()), Some("head-rev".into()))
}

fn span(c: &Change, base: (u32, u32), head: (u32, u32)) -> Anchor {
    let scope = AnchorScope::Span {
        file: "f.txt".into(),
        base: LineSpan { start: base.0, len: base.1 },
        head: LineSpan { start: head.0, len: head.1 },
    };
    build_anchor(&scope, &c.diff, &c.files, &revisions()).unwrap()
}

fn ranges(a: &Anchor) -> (Option<&LineRange>, Option<&LineRange>) {
    let Anchor::Span { base, head } = a else { panic!("expected a span, got {a:?}") };
    (base.as_ref(), head.as_ref())
}

fn at(r: Option<&LineRange>) -> (u32, u32) {
    let r = r.expect("that side exists");
    (r.start, r.len)
}

#[test]
fn each_side_keeps_its_lines_and_the_digest_of_its_own_version() {
    let c = change(Some("a\nb\nc\n"), Some("a\nB\nc\nd\n"));
    let a = span(&c, (2, 1), (2, 2));
    let (base, head) = ranges(&a);
    assert_eq!((at(base), at(head)), ((2, 1), (2, 2)));
    assert_eq!(base.unwrap().file, "f.txt");
    assert_eq!(base.unwrap().digest, digest(b"a\nb\nc\n"));
    assert_eq!(head.unwrap().digest, digest(b"a\nB\nc\nd\n"));
}

#[test]
fn an_insertion_point_is_kept_as_an_empty_range() {
    let c = change(Some("a\nb\n"), Some("a\nX\nb\n"));
    let a = span(&c, (2, 0), (2, 1));
    let (base, head) = ranges(&a);
    assert_eq!(at(base), (2, 0));
    assert!(base.unwrap().is_empty());
    assert_eq!(at(head), (2, 1));
}

#[test]
fn added_and_deleted_files_have_only_one_side() {
    let added = change(None, Some("a\nb\nc\n"));
    let a = span(&added, (1, 0), (2, 1));
    let (base, head) = ranges(&a);
    assert!(base.is_none());
    assert_eq!(at(head), (2, 1));
    assert_eq!(head.unwrap().digest, digest(b"a\nb\nc\n"));

    let deleted = change(Some("a\nb\nc\n"), None);
    let a = span(&deleted, (2, 1), (1, 0));
    let (base, head) = ranges(&a);
    assert!(head.is_none());
    assert_eq!(at(base), (2, 1));
    assert_eq!(base.unwrap().digest, digest(b"a\nb\nc\n"));
}

#[test]
fn a_renamed_file_has_each_side_under_its_own_path_and_digest() {
    let text = "\
diff --git a/old.txt b/new.txt
similarity index 90%
rename from old.txt
rename to new.txt
--- a/old.txt
+++ b/new.txt
@@ -1,3 +1,3 @@
 a
-b
+B
 c
";
    let parsed = diff::parse(text).unwrap();
    let files = vec![FileDigest {
        old_path: Some("old.txt".into()),
        new_path: Some("new.txt".into()),
        old: Some(digest(b"a\nb\nc\n")),
        new: Some(digest(b"a\nB\nc\n")),
    }];
    let scope = AnchorScope::Span {
        file: "new.txt".into(),
        base: LineSpan { start: 3, len: 1 },
        head: LineSpan { start: 3, len: 1 },
    };
    let a = build_anchor(&scope, &parsed, &files, &revisions()).unwrap();
    let (base, head) = ranges(&a);
    let (base, head) = (base.unwrap(), head.unwrap());
    assert_eq!((base.file.as_str(), head.file.as_str()), ("old.txt", "new.txt"));
    assert_eq!(base.digest, digest(b"a\nb\nc\n"));
    assert_eq!(head.digest, digest(b"a\nB\nc\n"));
}

#[test]
fn global_and_file_anchors_record_the_revisions_and_both_file_versions() {
    let c = change(Some("a\nb\n"), Some("a\nB\n"));
    let g = build_anchor(&AnchorScope::Global, &c.diff, &c.files, &revisions()).unwrap();
    assert_eq!(g, Anchor::Global { base: Some("base-rev".into()), head: Some("head-rev".into()) });
    let file = AnchorScope::File { file: "f.txt".into() };
    let Anchor::File { base, head } = build_anchor(&file, &c.diff, &c.files, &revisions()).unwrap() else {
        panic!()
    };
    assert_eq!(base.unwrap().digest, digest(b"a\nb\n"));
    assert_eq!(head.unwrap().digest, digest(b"a\nB\n"));
}

#[test]
fn a_span_in_a_file_the_diff_does_not_have_is_refused() {
    let c = change(Some("a\n"), Some("b\n"));
    let scope = AnchorScope::Span {
        file: "other.txt".into(),
        base: LineSpan { start: 1, len: 1 },
        head: LineSpan { start: 1, len: 1 },
    };
    assert_eq!(
        build_anchor(&scope, &c.diff, &c.files, &revisions()),
        Err(CreateError::FileMissing { file: "other.txt".into() })
    );
}

#[test]
fn a_file_the_diff_does_not_touch_is_anchored_by_its_path_alone() {
    let c = change(Some("a\n"), Some("b\n"));
    let file = AnchorScope::File { file: "README.md".into() };
    let Anchor::File { base, head } = build_anchor(&file, &c.diff, &c.files, &revisions()).unwrap() else {
        panic!()
    };
    assert!(base.is_none());
    let head = head.unwrap();
    assert_eq!((head.file.as_str(), head.digest.as_str()), ("README.md", ""));
}
