use diffnote::html::{tree_data, TreeItem};

fn files(paths: &[&str]) -> Vec<String> {
    paths.iter().map(|p| p.to_string()).collect()
}

fn shown(items: &[TreeItem]) -> Vec<String> {
    items
        .iter()
        .map(|i| match i {
            TreeItem::Dir { path, name, count } => format!("dir {path} {name} {count}"),
            TreeItem::File { path, label } => format!("file {path} {label}"),
        })
        .collect()
}

#[test]
fn a_directory_lists_its_sub_directories_with_counts_then_its_files() {
    let fs = files(&["README.md", "docs/a.md", "docs/b.md", "src/lib.rs", "src/x/y.rs"]);
    let d = tree_data(&fs, "", "", Some("html.no_repo_notice"));
    assert_eq!(shown(&d.items), ["dir docs docs 2", "dir src src 2", "file README.md README.md"]);
    assert_eq!(d.message, None);
    assert_eq!(d.note, Some("html.no_repo_notice"));
    assert_eq!(d.more, 0);

    let d = tree_data(&fs, "src", "", Some("html.no_repo_notice"));
    assert_eq!(shown(&d.items), ["dir src/x x 1", "file src/lib.rs lib.rs"]);
    assert_eq!(d.note, None, "the note is for the top level");
}

#[test]
fn sub_directories_come_sorted_by_name_whatever_order_the_files_are_in() {
    let fs = files(&["a-b/z", "a/x"]);
    let d = tree_data(&fs, "", "", None);
    assert_eq!(shown(&d.items), ["dir a a 1", "dir a-b a-b 1"]);
}

#[test]
fn a_query_lists_the_files_that_have_it_in_any_case() {
    let fs = files(&["README.md", "docs/Readme.txt", "src/lib.rs"]);
    let d = tree_data(&fs, "", "  readme ", None);
    assert_eq!(shown(&d.items), ["file README.md README.md", "file docs/Readme.txt docs/Readme.txt"]);
    let d = tree_data(&fs, "", "nothing like it", None);
    assert!(d.items.is_empty());
    assert_eq!(d.message, Some("html.not_found"));
}

#[test]
fn no_files_is_a_message_and_the_note() {
    let d = tree_data(&Vec::new(), "", "", Some("html.no_repo_notice"));
    assert!(d.items.is_empty());
    assert_eq!(d.message, Some("html.nothing_else_openable"));
    assert_eq!(d.note, Some("html.no_repo_notice"));
}

#[test]
fn at_most_five_hundred_entries_are_listed_and_the_rest_counted() {
    let fs: Vec<String> = (0..700).map(|i| format!("f{i:04}.txt")).collect();
    let d = tree_data(&fs, "", "", None);
    assert_eq!(d.items.len(), 500);
    assert_eq!(d.more, 200);
    let d = tree_data(&fs, "", "F06", None);
    assert_eq!(d.items.len(), 100);
    assert_eq!(d.more, 0);
}

use diffnote::anchor::Placement;
use diffnote::diff;
use diffnote::digest::{digest, Blobs};
use diffnote::html::{place, RevisionView};
use diffnote::model::{Anchor, FileDigest, LineRange};
use diffnote::review::Thread;

const BASE: &str = "\
diff --git a/src/lib.rs b/src/lib.rs
--- a/src/lib.rs
+++ b/src/lib.rs
@@ -1,2 +1,3 @@
 one
+two
 three
";

fn thread(id: u128, anchor: Anchor) -> Thread {
    Thread {
        root_id: id,
        author: "r".to_string(),
        created_at: "1970-01-01T00:00:00Z".to_string(),
        body: "b".to_string(),
        anchor,
        resolved: false,
        replies: Vec::new(),
    }
}

fn on(file: &str, text: &str, start: u32, len: u32) -> Anchor {
    Anchor::Span {
        base: None,
        head: Some(LineRange { file: file.to_string(), digest: digest(text.as_bytes()), start, len }),
    }
}

#[test]
fn threads_get_colors_in_order_and_their_files_come_after_the_diffs() {
    let (old, new, readme) = ("one\nthree\n", "one\ntwo\nthree\n", "r1\nr2\n");
    let d = diff::parse(BASE).unwrap();
    let files = vec![FileDigest {
        old_path: Some("src/lib.rs".into()),
        new_path: Some("src/lib.rs".into()),
        old: Some(digest(old.as_bytes())),
        new: Some(digest(new.as_bytes())),
    }];
    let tree = vec![diffnote::model::TreeFile { path: "README.md".into(), digest: digest(readme.as_bytes()) }];
    let mut blobs = Blobs::new();
    for t in [old, new, readme] {
        blobs.add(t.as_bytes().to_vec());
    }
    let threads = vec![
        thread(1, on("src/lib.rs", new, 2, 1)),
        thread(2, Anchor::Global { base: None, head: None }),
        thread(3, on("README.md", readme, 2, 1)),
        thread(4, on("src/lib.rs", new, 1, 1)),
    ];
    let view = RevisionView { label: "r".into(), diff: &d, files: &files, tree: &tree };
    let placed = place(&threads, &view, &blobs);
    assert!(matches!(placed.placements[0], Placement::Line { line_start: 2, line_end: 2, .. }));
    assert_eq!(placed.placements[1], Placement::Global);
    let colors: Vec<Option<usize>> = placed.marks.iter().map(|m| m.color).collect();
    assert_eq!(colors, [Some(0), None, Some(1), Some(2)]);
    assert_eq!(placed.marks[1].file, None);
    assert_eq!(placed.marks[2].file.as_deref(), Some("README.md"));
    assert_eq!(placed.file_order, ["src/lib.rs", "README.md"]);
    assert_eq!(placed.synthetic_files.len(), 1);
    assert_eq!(placed.synthetic_files[0].new, Some(digest(readme.as_bytes())));
}

use diffnote::bundle::Store;
use diffnote::git::TreeEntry;
use diffnote::html::other_files;
use diffnote::model::TreeFile;

#[test]
fn the_other_files_are_the_stored_ones_and_the_commits_rest_not_shown_sorted_once() {
    let store = Store {
        entries: vec![
            ("blobs/aaa".to_string(), b"a".to_vec()),
            ("blobs/ccc".to_string(), b"c".to_vec()),
        ],
    };
    let tf = |p: &str, d: &str| TreeFile { path: p.to_string(), digest: d.to_string() };
    let manifest = vec![
        tf("z.txt", "sha256:aaa"),
        tf("shown.rs", "sha256:ccc"),
        // Recorded but not stored: not openable from the bundle.
        tf("lost.txt", "sha256:bbb"),
    ];
    let shown = vec!["shown.rs".to_string()];
    assert_eq!(other_files(&store, &manifest, &shown, None), ["z.txt"]);
    let te = |p: &str| TreeEntry { path: p.to_string(), oid: "o".to_string(), size: 1 };
    let commit = vec![te("b/c.rs"), te("z.txt"), te("shown.rs"), te("lost.txt"), te("a.md"), te("a.md")];
    // A file the tree records is not taken from the commit.
    assert_eq!(other_files(&store, &manifest, &shown, Some(&commit)), ["a.md", "b/c.rs", "z.txt"]);
}
