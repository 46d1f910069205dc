use diffnote::anchor::ViewVersions;
use diffnote::annotation::{parse, render_for_edit, Item, ThreadRef};
use diffnote::diff;
use diffnote::digest::{digest, Blobs};
use diffnote::model::{Anchor, FileDigest, FileRef, LineRange};
use diffnote::review::Thread;

const BASE: &str = "\
diff --git a/src/lib.rs b/src/lib.rs
index 83db48f..bf269c9 100644
--- a/src/lib.rs
+++ b/src/lib.rs
@@ -10,4 +10,8 @@ impl Foo {
     fn bar(&self) -> i32 {
         self.value
     }
+
+    fn baz(&self) -> i32 {
+        self.value * 2
+    }
 }
";

fn thread_with(root_id: u128, anchor: Anchor, body: &str) -> Thread {
    Thread {
        root_id,
        author: "ann@example.com".to_string(),
        created_at: "1970-01-01T00:00:00Z".to_string(),
        body: body.to_string(),
        anchor,
        resolved: false,
        replies: Vec::new(),
    }
}

fn id_text(id: u128) -> String {
    ulid::Ulid(id).to_string()
}

fn range(start: u32, len: u32, text: &str) -> LineRange {
    LineRange {
        file: "src/lib.rs".to_string(),
        digest: digest(text.as_bytes()),
        start,
        len,
    }
}

/// The file `BASE`'s hunk is an excerpt of: nine filler lines, then the
/// hunk's old side (lines 10-13).
fn old_text() -> String {
    let mut t: String = (1..=9).map(|n| format!("// filler {n}\n")).collect();
    t.push_str("    fn bar(&self) -> i32 {\n        self.value\n    }\n}\n");
    t
}

/// ...and its new side (lines 10-17).
fn new_text() -> String {
    let mut t: String = (1..=9).map(|n| format!("// filler {n}\n")).collect();
    t.push_str(
        "    fn bar(&self) -> i32 {\n        self.value\n    }\n\n    fn baz(&self) -> i32 {\n        self.value * 2\n    }\n}\n",
    );
    t
}

fn render(threads: Vec<Thread>) -> String {
    let diff = diff::parse(BASE).unwrap();
    let files = vec![FileDigest {
        old_path: Some("src/lib.rs".to_string()),
        new_path: Some("src/lib.rs".to_string()),
        old: Some(digest(old_text().as_bytes())),
        new: Some(digest(new_text().as_bytes())),
    }];
    let mut blobs = Blobs::new();
    blobs.add(old_text().into_bytes());
    blobs.add(new_text().into_bytes());
    render_for_edit(BASE, &diff, &ViewVersions { files: &files, tree: &[] }, &blobs, &threads, &Vec::new()).0
}

/// A comment on the added line `self.value * 2` (new line 15).
fn on_baz_line() -> Anchor {
    Anchor::Span {
        base: Some(range(13, 0, &old_text())),
        head: Some(range(15, 1, &new_text())),
    }
}

/// A comment on new lines `start` to `start + len - 1` of the added block.
fn on_new_lines(start: u32, len: u32) -> Anchor {
    Anchor::Span {
        base: Some(range(13, 0, &old_text())),
        head: Some(range(start, len, &new_text())),
    }
}

#[test]
fn render_for_edit_places_global_file_hunk_and_line_threads_at_their_scope() {
    let (global_id, file_id, hunk_id, line_id) = (11u128, 22u128, 33u128, 44u128);
    let threads = vec![
        thread_with(global_id, Anchor::Global { base: None, head: Some("rev".to_string()) }, "global comment"),
        thread_with(
            file_id,
            Anchor::File {
                base: None,
                head: Some(FileRef { file: "src/lib.rs".to_string(), digest: "d".to_string() }),
            },
            "file comment",
        ),
        // The whole hunk: old lines 10-13, new lines 10-17.
        thread_with(
            hunk_id,
            Anchor::Span { base: Some(range(10, 4, &old_text())), head: Some(range(10, 8, &new_text())) },
            "hunk comment",
        ),
        thread_with(line_id, on_baz_line(), "line comment"),
    ];
    let rendered = render(threads);
    assert!(!rendered.contains("[削除済み]"));

    let global_pos = rendered.find(&format!(">#@{}", id_text(global_id))).unwrap();
    let diff_git_pos = rendered.find("diff --git").unwrap();
    assert!(global_pos < diff_git_pos, "global comment must render before the first file");

    let file_pos = rendered.find(&format!(">#@{}", id_text(file_id))).unwrap();
    let plusplus_pos = rendered.find("+++ b/src/lib.rs").unwrap();
    let at_pos = rendered.find("@@ -10,4").unwrap();
    assert!(plusplus_pos < file_pos && file_pos < at_pos, "file comment must render between +++ and the first hunk");

    let hunk_pos = rendered.find(&format!(">#@{}", id_text(hunk_id))).unwrap();
    let last_line = rendered.rfind("\n }\n").unwrap();
    assert!(last_line < hunk_pos, "a span comment must render after its lines");

    let line_pos = rendered.find(&format!(">#@{}", id_text(line_id))).unwrap();
    let target_line_pos = rendered.find("self.value * 2").unwrap();
    assert!(target_line_pos < line_pos, "line comment must render after its target line");
}

#[test]
fn a_thread_over_several_rows_has_a_start_marker_before_its_first_row() {
    // `fn baz` (14) and `self.value * 2` (15).
    let id = 7u128;
    let rendered = render(vec![thread_with(id, on_new_lines(14, 2), "about baz")]);
    let (marker, card) = (format!(">#[{}\n", id_text(id)), format!(">#]{}\n>#@{}", id_text(id), id_text(id)));
    let (m, c) = (rendered.find(&marker).unwrap(), rendered.find(&card).unwrap());
    let first = rendered.find("+    fn baz").unwrap();
    let last = rendered.find("        self.value * 2").unwrap();
    // Marker, then the first row, then the last row, then the card.
    assert!(m < first && first < last && last < c, "{rendered}");
    // The row before the range is not inside it.
    assert!(rendered.find("+\n").unwrap() < m, "{rendered}");
    assert_eq!(rendered.matches(&marker).count(), 1);
}

#[test]
fn a_thread_on_one_row_has_no_start_marker() {
    let id = 9u128;
    let rendered = render(vec![thread_with(id, on_baz_line(), "one line")]);
    assert!(rendered.contains(&format!(">#@{}", id_text(id))));
    assert!(!rendered.contains(">#["), "{rendered}");
}

#[test]
fn render_then_reparse_round_trips_a_reply_to_an_existing_thread() {
    let root_id = 0x0123_4567_89ab_cdef_0123_4567_89ab_cdefu128;
    let rendered = render(vec![thread_with(root_id, on_baz_line(), "original")]);
    let annotated = format!("{rendered}>> 承知しました\n");
    let parsed = parse(&annotated).expect("valid annotation");
    assert_eq!(parsed.items.len(), 1);
    let Item::Reply { target, body, .. } = &parsed.items[0] else {
        panic!("expected a reply");
    };
    assert_eq!(*target, ThreadRef::Existing(root_id));
    assert_eq!(body.as_deref(), Some("承知しました"));
}

#[test]
fn the_rendered_buffer_reparses_to_the_same_diff_and_nothing_new() {
    let mut t = thread_with(5, on_new_lines(14, 2), "about baz\nsecond line");
    t.resolved = true;
    t.replies.push(diffnote::review::Reply {
        author: "other@example.com".to_string(),
        created_at: "1970-01-02T00:00:00Z".to_string(),
        body: "agreed".to_string(),
    });
    let rendered = render(vec![t, thread_with(6, Anchor::Global { base: None, head: None }, "overall")]);
    assert!(rendered.contains(" [解決済み]"), "{rendered}");
    let reparsed = parse(&rendered).expect("the rendered buffer parses");
    assert!(reparsed.items.is_empty(), "{:?}", reparsed.items);
    assert_eq!(reparsed.diff, diff::parse(BASE).unwrap());
}

#[test]
fn a_thread_whose_versions_are_not_held_is_listed_first_as_not_placeable() {
    let lost = Anchor::Span { base: None, head: Some(range(2, 1, "some other text\nline\n")) };
    let rendered = render(vec![thread_with(3, lost, "lost")]);
    let banner = rendered.find(">#--- ").unwrap();
    let header = rendered.find(&format!(">#@{}", id_text(3))).unwrap();
    assert!(banner < header && header < rendered.find("diff --git").unwrap(), "{rendered}");
}
