use diffnote::diff;
use diffnote::digest::digest;
use diffnote::files::{diff_trees, is_binary, tree_digest, Tree};

fn tree(entries: &[(&str, &[u8])]) -> Tree {
    Tree::from_entries(entries.iter().map(|(p, c)| (p.to_string(), c.to_vec())).collect())
}

#[test]
fn identical_trees_have_no_diff() {
    let t = tree(&[("a.txt", b"x\n")]);
    let (text, files) = diff_trees(&t, &t);
    assert!(text.is_empty());
    assert!(files.is_empty());
}

#[test]
fn diff_covers_modified_added_and_deleted_files_and_parses_back() {
    let old = tree(&[("keep.txt", b"k\n"), ("mod.txt", b"one\ntwo\nthree\n"), ("gone.txt", b"g\n")]);
    let new = tree(&[("keep.txt", b"k\n"), ("mod.txt", b"one\nTWO\nthree\n"), ("new.txt", b"n\n")]);
    let (text, files) = diff_trees(&old, &new);

    let parsed = diff::parse(&text).unwrap();
    let paths: Vec<_> = parsed.files.iter().map(|f| (f.old_path.as_deref(), f.new_path.as_deref())).collect();
    assert_eq!(
        paths,
        [(Some("gone.txt"), None), (Some("mod.txt"), Some("mod.txt")), (None, Some("new.txt"))]
    );
    let mod_hunk = &parsed.files[1].hunks[0];
    assert!(mod_hunk.lines.iter().any(|l| l.content == "TWO"));

    assert_eq!(files.len(), 3);
    assert_eq!(files[1].old, Some(digest(b"one\ntwo\nthree\n")));
    assert_eq!(files[1].new, Some(digest(b"one\nTWO\nthree\n")));
    assert_eq!(files[0].new, None);
    assert_eq!(files[2].old, None);
}

#[test]
fn binary_files_become_a_headers_only_entry() {
    let old = tree(&[("img.png", &[0, 1, 2])]);
    let new = tree(&[("img.png", &[0, 9, 9]), ("bad.txt", &[0xff, 0xfe])]);
    let (text, files) = diff_trees(&old, &new);
    let parsed = diff::parse(&text).unwrap();
    assert_eq!(parsed.files.len(), 2);
    assert!(parsed.files.iter().all(|f| f.is_binary && f.hunks.is_empty()));
    assert_eq!(files.len(), 2);
}

#[test]
fn missing_trailing_newline_is_marked() {
    let (text, _) = diff_trees(&tree(&[("a", b"x\n")]), &tree(&[("a", b"x")]));
    assert!(text.contains("\\ No newline at end of file"));
    diff::parse(&text).unwrap();
}

#[test]
fn empty_new_file_is_listed_without_hunks() {
    let (text, files) = diff_trees(&Tree::new(), &tree(&[("empty", b"")]));
    let parsed = diff::parse(&text).unwrap();
    assert_eq!(parsed.files.len(), 1);
    assert_eq!(files.len(), 1);
}

#[test]
fn tree_digest_depends_on_paths_and_content() {
    let a = tree(&[("a", b"1")]);
    assert_eq!(tree_digest(&a), tree_digest(&tree(&[("a", b"1")])));
    assert_ne!(tree_digest(&a), tree_digest(&tree(&[("a", b"2")])));
    assert_ne!(tree_digest(&a), tree_digest(&tree(&[("b", b"1")])));
}

#[test]
fn a_tree_is_sorted_by_path_and_a_later_entry_wins() {
    let t = tree(&[("b", b"1"), ("a/x", b"2"), ("a-b", b"3"), ("b", b"4")]);
    let paths: Vec<&str> = t.entries.iter().map(|(p, _)| p.as_str()).collect();
    assert_eq!(paths, ["a-b", "a/x", "b"]);
    assert_eq!(t.entries[2].1, b"4");
}

#[test]
fn a_nul_byte_or_bad_utf8_makes_bytes_binary() {
    assert!(!is_binary(b"text\n"));
    assert!(is_binary(b"a\0b"));
    assert!(is_binary(&[0xff, 0xfe]));
    let mut late = vec![b'a'; 9000];
    late[8500] = 0;
    assert!(!is_binary(&late), "a NUL past the first 8000 bytes is not looked for");
}
