use diffnote::digest::digest;
use diffnote::record::tree_file;

#[test]
fn a_tree_file_is_its_path_and_the_digest_of_its_bytes() {
    let f = tree_file("docs/a.md", b"hello\n");
    assert_eq!(f.path, "docs/a.md");
    assert_eq!(f.digest, digest(b"hello\n"));
}

use diffnote::model::{Anchor, FileDigest, FileRef, LineRange, TreeFile};
use diffnote::record::{missing_files, referenced_files, untouched_files};

fn span_on(file: &str) -> Anchor {
    let side = LineRange { file: file.to_string(), digest: "sha256:whatever".to_string(), start: 1, len: 1 };
    Anchor::Span { base: Some(side.clone()), head: Some(side) }
}

#[test]
fn the_files_comments_refer_to_are_listed_once_sorted() {
    let anchors = vec![
        span_on("b.txt"),
        Anchor::Global { base: None, head: None },
        Anchor::File { base: None, head: Some(FileRef { file: "a.txt".into(), digest: "d".into() }) },
        span_on("b.txt"),
    ];
    assert_eq!(referenced_files(&anchors), ["a.txt", "b.txt"]);
}

#[test]
fn files_the_diff_does_not_touch_and_the_revision_does_not_know_are_pinned() {
    let referenced = vec!["README.md".to_string(), "a.txt".to_string(), "docs/x.md".to_string()];
    let touched = vec![FileDigest { old_path: Some("a.txt".into()), new_path: Some("a.txt".into()), old: None, new: None }];
    let untouched = untouched_files(&referenced, &touched);
    assert_eq!(untouched, ["README.md", "docs/x.md"]);
    let manifest = vec![TreeFile { path: "README.md".into(), digest: "sha256:r".into() }];
    assert_eq!(missing_files(&untouched, &manifest), ["docs/x.md"]);
}

use diffnote::files::Tree;
use diffnote::model::{Event, Revision, SnapshotMode, Source};
use diffnote::record::{session_additions, session_plan, Capture, Plan};

fn comment_on(id: u128, file: &str) -> Event {
    Event::Comment {
        id,
        parent: None,
        author: "a".into(),
        created_at: "2024-01-01T00:00:00Z".into(),
        anchor: Some(span_on(file)),
        body: "note".into(),
    }
}

fn meta() -> Event {
    Event::Meta { version: 1, created_at: "2024-01-01T00:00:00Z".into(), description: None, context_lines: 3 }
}

fn touched(path: &str) -> FileDigest {
    FileDigest { old_path: Some(path.into()), new_path: Some(path.into()), old: Some("o".into()), new: Some("n".into()) }
}

#[test]
fn a_new_diff_reads_the_referenced_files_it_does_not_touch_and_records_a_revision() {
    let files = vec![touched("src/a.rs")];
    let mut new_files = Tree::new();
    new_files.insert("src/a.rs".to_string(), b"new a".to_vec());
    let mut base_files = Tree::new();
    base_files.insert("src/a.rs".to_string(), b"old a".to_vec());
    let capture = Capture {
        diff_text: "the diff",
        diff_digest: "sha256:d",
        source: Source::Files { base: None },
        files: &files,
        new_files: &new_files,
        base_files: &base_files,
    };
    let events = vec![comment_on(1, "README.md"), comment_on(2, "src/a.rs")];
    let mut new_events = vec![meta(), comment_on(3, "LICENSE")];
    let plan = session_plan(&events, &new_events, &capture);
    let Plan::Record { paths } = &plan else { panic!("a new diff is recorded") };
    assert_eq!(paths, &["LICENSE", "README.md"]);
    let read = vec![("LICENSE".to_string(), b"mit".to_vec()), ("README.md".to_string(), b"hi".to_vec())];
    let added = session_additions(plan, capture, SnapshotMode::Changed, read, 7, "2024-01-02T00:00:00Z".into(), &mut new_events);
    assert_eq!(added.diff, Some(("sha256:d".to_string(), "the diff".to_string())));
    assert_eq!(added.blobs, vec![b"new a".to_vec(), b"mit".to_vec(), b"hi".to_vec(), b"old a".to_vec()]);
    assert_eq!(new_events.len(), 3);
    assert!(matches!(new_events[0], Event::Meta { .. }));
    let Event::Revision(r) = &new_events[1] else { panic!("the revision comes right after Meta") };
    assert_eq!(r.id, 7);
    assert_eq!(r.digest, "sha256:d");
    assert_eq!(r.snapshot_mode, SnapshotMode::Changed);
    let tree: Vec<&str> = r.tree.iter().map(|t| t.path.as_str()).collect();
    assert_eq!(tree, ["src/a.rs", "LICENSE", "README.md"]);
    assert_eq!(r.tree[1].digest, digest(b"mit"));
    assert_eq!(r.files, files);
}

#[test]
fn a_full_snapshot_keeps_what_was_read_and_the_base_files() {
    let files = vec![touched("x")];
    let mut new_files = Tree::new();
    new_files.insert("x".to_string(), b"x2".to_vec());
    let base_files = Tree::new();
    let capture = Capture {
        diff_text: "d",
        diff_digest: "sha256:e",
        source: Source::Files { base: None },
        files: &files,
        new_files: &new_files,
        base_files: &base_files,
    };
    let mut new_events: Vec<Event> = Vec::new();
    let plan = session_plan(&[], &new_events, &capture);
    let read = vec![("x".to_string(), b"x2".to_vec()), ("y".to_string(), b"y".to_vec())];
    let added = session_additions(plan, capture, SnapshotMode::Full, read, 9, "t".into(), &mut new_events);
    assert_eq!(added.blobs, vec![b"x2".to_vec(), b"y".to_vec()]);
    let Event::Revision(r) = &new_events[0] else { panic!("first when there is no Meta") };
    assert_eq!(r.tree.len(), 2);
    assert_eq!(r.snapshot_mode, SnapshotMode::Full);
}

#[test]
fn a_recorded_diff_pins_only_the_referenced_files_its_revision_does_not_know() {
    let revision = Revision {
        id: 5,
        created_at: "2024-01-01T00:00:00Z".into(),
        digest: "sha256:d".into(),
        source: Source::Files { base: None },
        snapshot_mode: SnapshotMode::Changed,
        files: vec![touched("src/a.rs")],
        tree: vec![TreeFile { path: "README.md".into(), digest: "sha256:r".into() }],
    };
    let events = vec![Event::Revision(revision), comment_on(1, "README.md")];
    let files = vec![touched("src/a.rs")];
    let empty = Tree::new();
    let capture = Capture {
        diff_text: "the diff",
        diff_digest: "sha256:d",
        source: Source::Files { base: None },
        files: &files,
        new_files: &empty,
        base_files: &empty,
    };
    let mut new_events = vec![comment_on(2, "NOTES.md"), comment_on(3, "src/a.rs")];
    let plan = session_plan(&events, &new_events, &capture);
    let Plan::Pin { revision, paths } = &plan else { panic!("the diff is recorded") };
    assert_eq!(*revision, 5);
    assert_eq!(paths, &["NOTES.md"]);
    let added = session_additions(plan, capture, SnapshotMode::Changed, vec![("NOTES.md".to_string(), b"n".to_vec())], 0, String::new(), &mut new_events);
    assert!(added.diff.is_none());
    assert_eq!(added.blobs, vec![b"n".to_vec()]);
    assert_eq!(new_events.len(), 3);
    let Event::Pin { revision, files } = &new_events[2] else { panic!("a pin is added") };
    assert_eq!(*revision, 5);
    assert_eq!(files[0].path, "NOTES.md");
    assert_eq!(files[0].digest, digest(b"n"));
}

#[test]
fn nothing_read_for_a_recorded_diff_adds_no_event() {
    let revision = Revision {
        id: 5,
        created_at: "t".into(),
        digest: "sha256:d".into(),
        source: Source::Files { base: None },
        snapshot_mode: SnapshotMode::Changed,
        files: Vec::new(),
        tree: Vec::new(),
    };
    let events = vec![Event::Revision(revision)];
    let empty = Tree::new();
    let capture = Capture {
        diff_text: "",
        diff_digest: "sha256:d",
        source: Source::Files { base: None },
        files: &[],
        new_files: &empty,
        base_files: &empty,
    };
    let mut new_events: Vec<Event> = Vec::new();
    let plan = session_plan(&events, &new_events, &capture);
    let added = session_additions(plan, capture, SnapshotMode::Changed, Vec::new(), 0, String::new(), &mut new_events);
    assert!(new_events.is_empty());
    assert!(added.blobs.is_empty() && added.diff.is_none());
}
