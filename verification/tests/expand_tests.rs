use diffnote::anchor::{Absence, Placement, ViewVersions};
use diffnote::diff::{self, UnifiedDiff};
use diffnote::digest::{digest, Blobs};
use diffnote::expand::{expand, has_row, to_text, want_of, Want};
use diffnote::files::{diff_trees, Tree};
use diffnote::model::{FileDigest, Side, TreeFile};

fn numbered(n: u32) -> String {
    (1..=n).map(|i| format!("l{i}\n")).collect()
}

fn tree(files: &[(&str, &str)]) -> Tree {
    Tree::from_entries(
        files
            .iter()
            .map(|(p, t)| (p.to_string(), t.as_bytes().to_vec()))
            .collect(),
    )
}

/// A view between two trees: the diff text, its parse, the per-file
/// digests, and every text held.
struct Scene {
    text: String,
    diff: UnifiedDiff,
    files: Vec<FileDigest>,
    held: Vec<String>,
    tree: Vec<TreeFile>,
}

fn scene(old: &[(&str, &str)], new: &[(&str, &str)]) -> Scene {
    let (text, files) = diff_trees(&tree(old), &tree(new));
    let held = old.iter().chain(new).map(|(_, t)| t.to_string()).collect();
    let touched: Vec<&str> = files.iter().filter_map(|f| f.new_path.as_deref()).collect();
    let tree = new
        .iter()
        .filter(|(p, _)| !touched.contains(p))
        .map(|(p, t)| TreeFile {
            path: p.to_string(),
            digest: digest(t.as_bytes()),
        })
        .collect();
    Scene {
        diff: diff::parse(&text).unwrap(),
        text,
        files,
        held,
        tree,
    }
}

fn one(old: &str, new: &str) -> Scene {
    scene(&[("f.txt", old)], &[("f.txt", new)])
}

fn run(sc: &Scene, wants: &[Want]) -> (UnifiedDiff, Vec<String>) {
    let mut blobs = Blobs::new();
    for t in &sc.held {
        blobs.add(t.as_bytes().to_vec());
    }
    expand(
        &sc.diff,
        &wants.to_vec(),
        &ViewVersions {
            files: &sc.files,
            tree: &sc.tree,
        },
        &blobs,
    )
}

fn want(file: &str, side: Side, start: u32, end: u32) -> Want {
    Want {
        file: file.into(),
        lines: Some((side, start, end)),
        row: Some((side, end)),
    }
}

/// `old` (30 lines) with lines 3 and 25 edited: hunks at 1..=6 and 22..=28.
fn two_hunks() -> Scene {
    let old = numbered(30);
    let new = old.replace("l3\n", "L3\n").replace("l25\n", "L25\n");
    one(&old, &new)
}

#[test]
fn placements_say_what_to_show_and_where_the_card_goes() {
    let line = Placement::Line {
        file: "f".into(),
        side: Side::Old,
        line_start: 4,
        line_end: 6,
        old_range: None,
    };
    assert_eq!(
        want_of(&line),
        Some(Want {
            file: "f".into(),
            lines: Some((Side::Old, 4, 6)),
            row: Some((Side::Old, 6))
        })
    );
    // A point shows the lines on both sides and is drawn after the first.
    let point = Placement::Point {
        file: "f".into(),
        before: 9,
        was: Vec::new(),
        kind: Absence::Deleted,
    };
    let w = want_of(&point).unwrap();
    assert_eq!((w.lines, w.row), (Some((Side::New, 8, 9)), Some((Side::New, 8))));
    let top = Placement::Point {
        file: "f".into(),
        before: 1,
        was: Vec::new(),
        kind: Absence::Deleted,
    };
    assert_eq!(want_of(&top).unwrap().row, Some((Side::New, 1)));
    assert_eq!(want_of(&Placement::File("f".into())).unwrap().row, None);
    assert_eq!(want_of(&Placement::Global), None);
    assert_eq!(want_of(&Placement::Unplaced { file: "f".into() }), None);
}

#[test]
fn has_row_needs_the_file_and_the_row() {
    let sc = two_hunks();
    assert!(has_row(&sc.diff, &want("f.txt", Side::New, 3, 3)));
    assert!(has_row(&sc.diff, &want("f.txt", Side::Old, 3, 3)), "the removed row");
    assert!(!has_row(&sc.diff, &want("f.txt", Side::New, 12, 12)));
    assert!(!has_row(&sc.diff, &want("nope.txt", Side::New, 3, 3)));
    let file_only = Want {
        file: "f.txt".into(),
        lines: None,
        row: None,
    };
    assert!(has_row(&sc.diff, &file_only));
    // Rows are on the side asked for: added lines have no old row.
    let sc = one("a\n", "a\nb\n");
    assert!(has_row(&sc.diff, &want("f.txt", Side::New, 2, 2)));
    assert!(!has_row(&sc.diff, &want("f.txt", Side::Old, 2, 2)));
}

#[test]
fn unchanged_diff_is_written_back_verbatim() {
    let sc = two_hunks();
    assert_eq!(to_text(&sc.text, &sc.diff, &sc.diff).unwrap(), sc.text);
}

#[test]
fn lines_the_diff_already_shows_change_nothing() {
    let sc = two_hunks();
    for (side, a, b) in [(Side::New, 2, 5), (Side::New, 3, 3), (Side::Old, 1, 6), (Side::New, 22, 28)] {
        let (d, synthetic) = run(&sc, &[want("f.txt", side, a, b)]);
        assert_eq!(d, sc.diff, "{side:?} {a}..={b}");
        assert!(synthetic.is_empty());
    }
}

#[test]
fn an_unseen_line_gets_a_row_and_every_old_row_stays() {
    let sc = two_hunks();
    let w = want("f.txt", Side::New, 12, 12);
    assert!(!has_row(&sc.diff, &w));
    let (d, synthetic) = run(&sc, &[w.clone()]);
    assert!(synthetic.is_empty());
    assert!(has_row(&d, &w));
    for (side, line) in [(Side::New, 3), (Side::Old, 3), (Side::New, 25), (Side::Old, 25)] {
        assert!(has_row(&d, &want("f.txt", side, line, line)));
    }
}

#[test]
fn expanded_text_reparses_to_the_expanded_diff() {
    let sc = two_hunks();
    for wants in [
        vec![want("f.txt", Side::New, 12, 12)],
        vec![want("f.txt", Side::New, 9, 9)],
        vec![
            want("f.txt", Side::New, 10, 10),
            want("f.txt", Side::New, 14, 14),
            want("f.txt", Side::New, 18, 18),
        ],
        vec![want("f.txt", Side::New, 30, 30), want("f.txt", Side::New, 1, 1)],
    ] {
        let (d, _) = run(&sc, &wants);
        let text = to_text(&sc.text, &sc.diff, &d).unwrap();
        assert_eq!(diff::parse(&text).unwrap(), d, "{text}");
    }
}

#[test]
fn a_want_on_an_untouched_file_adds_that_file() {
    let readme = numbered(40);
    let sc = scene(
        &[("f.txt", "a\n"), ("README.md", &readme)],
        &[("f.txt", "b\n"), ("README.md", &readme)],
    );
    let (d, synthetic) = run(&sc, &[want("README.md", Side::New, 30, 30)]);
    assert_eq!(synthetic, ["README.md"]);
    assert_eq!(d.files.len(), 2);
    assert!(has_row(&d, &want("README.md", Side::New, 30, 30)));
}
