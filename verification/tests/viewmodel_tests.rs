use diffnote::anchor::{Absence, Placement};
use diffnote::diff::{FileDiff, LineKind};
use diffnote::model::Side;
use diffnote::html::{context_chunk, escape_html, file_key};
use diffnote::viewmodel::{file_status, mark_words, placement_data, PlacementData};
use diffnote::diff::parse;

#[test]
fn the_status_of_a_file_says_what_happened_to_it() {
    let file = |old: Option<&str>, new: Option<&str>, rename: bool, binary: bool| FileDiff {
        old_path: old.map(str::to_string),
        new_path: new.map(str::to_string),
        is_rename: rename,
        is_binary: binary,
        hunks: Vec::new(),
    };
    assert_eq!(file_status(Some(&file(Some("a"), Some("a"), false, false)), true), "modified");
    assert_eq!(file_status(Some(&file(None, Some("a"), false, false)), true), "added");
    assert_eq!(file_status(Some(&file(Some("a"), None, false, false)), true), "deleted");
    assert_eq!(file_status(Some(&file(Some("a"), Some("b"), true, false)), true), "renamed");
    assert_eq!(file_status(Some(&file(Some("a"), Some("a"), false, true)), true), "binary");
    assert_eq!(file_status(Some(&file(Some("a"), Some("a"), false, false)), false), "context");
    assert_eq!(file_status(None, false), "context");
}

#[test]
fn a_file_goes_by_its_new_path_else_its_old_one() {
    let f = |old: Option<&str>, new: Option<&str>| FileDiff {
        old_path: old.map(str::to_string),
        new_path: new.map(str::to_string),
        is_rename: false,
        is_binary: false,
        hunks: Vec::new(),
    };
    assert_eq!(file_key(&f(Some("a"), Some("b"))), "b");
    assert_eq!(file_key(&f(Some("a"), None)), "a");
    assert_eq!(file_key(&f(None, None)), "?");
}

#[test]
fn html_text_has_its_special_characters_escaped() {
    assert_eq!(escape_html(r#"a < b & "c" > d"#), "a &lt; b &amp; &quot;c&quot; &gt; d");
    assert_eq!(escape_html("plain"), "plain");
}

#[test]
fn placements_are_written_in_the_pages_words() {
    let line = Placement::Line {
        file: "f".into(),
        side: Side::New,
        line_start: 3,
        line_end: 5,
        old_range: Some((2, 4)),
    };
    assert_eq!(
        placement_data(&line, Some(2), None),
        PlacementData::Line {
            file: "f".into(),
            side: "new",
            start: 3,
            end: 5,
            old_range: Some([2, 4]),
            color: 2,
        }
    );
    let point = Placement::Point {
        file: "f".into(),
        before: 9,
        was: vec!["x".into()],
        kind: Absence::NotYet,
    };
    assert_eq!(
        placement_data(&point, None, None),
        PlacementData::Point { file: "f".into(), before: 9, absence: "not-yet", was: vec!["x".into()] }
    );
    let was = vec!["y".to_string()];
    assert_eq!(
        placement_data(&Placement::Unplaced { file: "g".into() }, None, Some(&was)),
        PlacementData::Unplaced { file: "g".into(), was: vec!["y".into()] }
    );
    assert_eq!(placement_data(&Placement::Global, None, None), PlacementData::Global);
}

#[test]
fn an_opened_file_comes_in_chunks_of_unchanged_lines() {
    let text: String = (1..=1200).map(|i| format!("line {i}\n")).collect();
    let (hunk, next) = context_chunk(&text, 1);
    assert_eq!((hunk.old_start, hunk.old_lines, hunk.new_start, hunk.new_lines), (1, 500, 1, 500));
    assert_eq!(next, Some(501));
    assert_eq!(hunk.lines[0].content, "line 1");
    assert_eq!(hunk.lines[0].kind, LineKind::Context);
    assert_eq!((hunk.lines[499].old_line, hunk.lines[499].new_line), (Some(500), Some(500)));
    let (hunk, next) = context_chunk(&text, 1001);
    assert_eq!(hunk.lines.len(), 200);
    assert_eq!(hunk.lines[0].content, "line 1001");
    assert_eq!(next, None);
    // Line 0 is read as line 1.
    let (hunk, _) = context_chunk("a\nb\n", 0);
    assert_eq!(hunk.old_start, 1);
    assert_eq!(hunk.lines.len(), 2);
}

#[test]
fn a_removed_run_is_paired_in_order_with_the_added_run_after_it() {
    let text = "--- a/f\n+++ b/f\n@@ -1,3 +1,4 @@\n ctx\n-let a = 1;\n-let b = 2;\n+let a = 10;\n+let b = 20;\n+let c = 3;\n";
    let diff = parse(text).unwrap();
    let hunk = &diff.files[0].hunks[0];
    let w = mark_words(hunk);
    assert_eq!(w.len(), 6);
    assert!(w[0].is_empty());
    assert_eq!(w[1], vec![[8, 9]]);
    assert_eq!(w[2], vec![[8, 9]]);
    assert_eq!(w[3], vec![[8, 10]]);
    assert_eq!(w[4], vec![[8, 10]]);
    // The third added line has no removed line to pair with.
    assert!(w[5].is_empty());
}

#[test]
fn added_lines_with_no_removed_run_before_them_are_not_marked() {
    let text = "--- a/f\n+++ b/f\n@@ -1,1 +1,2 @@\n x = 1\n+x = 2\n";
    let diff = parse(text).unwrap();
    let w = mark_words(&diff.files[0].hunks[0]);
    assert!(w.iter().all(|m| m.is_empty()));
}

use diffnote::markdown::{Kind, Node};
use diffnote::model::Event;
use diffnote::viewmodel::{comment_ids, thread_json};

fn comment(id: u128, parent: Option<u128>, body: &str) -> Event {
    Event::Comment {
        id,
        parent,
        author: format!("a{id}"),
        created_at: "2024-01-01T00:00:00Z".into(),
        anchor: if parent.is_none() { Some(diffnote::model::Anchor::Global { base: None, head: None }) } else { None },
        body: body.into(),
    }
}

#[test]
fn each_threads_reply_ids_are_kept_in_order_by_thread() {
    let events = vec![
        comment(9, None, "root nine"),
        comment(3, None, "root three"),
        comment(10, Some(9), "r"),
        comment(11, Some(3), "r"),
        comment(12, Some(9), "r"),
    ];
    assert_eq!(comment_ids(&events), vec![(3, vec![11]), (9, vec![10, 12])]);
    assert!(comment_ids(&[]).is_empty());
}

#[test]
fn a_thread_as_the_page_has_it_has_its_comments_with_their_ids_and_trees() {
    let events = vec![comment(9, None, "*root*"), comment(10, Some(9), "a reply")];
    let t = thread_json(&events, 9).unwrap();
    assert_eq!(t.id, ulid::Ulid(9).to_string());
    assert!(!t.resolved);
    assert_eq!(t.comments.len(), 2);
    assert_eq!(t.comments[0].author, "a9");
    assert_eq!(t.comments[0].body, "*root*");
    assert_eq!(
        t.comments[0].doc,
        vec![Node::Element(Kind::Paragraph, vec![Node::Element(Kind::Emphasis, vec![Node::Text("root".into())])])]
    );
    assert_eq!(t.comments[1].id, ulid::Ulid(10).to_string());
    assert_eq!(t.comments[1].at, "2024-01-01T00:00:00Z");
    assert!(thread_json(&events, 10).is_none(), "a reply is no thread");
}
