use diffnote::git::{is_object_id, tree_entry_of, TreeEntry};

#[test]
fn an_object_id_is_forty_or_sixty_four_hex_digits() {
    assert!(is_object_id(&"a".repeat(40)));
    assert!(is_object_id(&"0F".repeat(32)));
    assert!(!is_object_id(&"a".repeat(41)));
    assert!(!is_object_id(&"g".repeat(40)));
    assert!(!is_object_id(""));
}

#[test]
fn a_tree_listing_record_is_a_blob_with_its_size_and_path() {
    let oid = "e69de29bb2d1d6434b8b29ae775ad8c2e48c5391";
    assert_eq!(
        tree_entry_of(&format!("100644 blob {oid}      12\tsrc/a b.rs")),
        Some(TreeEntry { path: "src/a b.rs".to_string(), oid: oid.to_string(), size: 12 })
    );
    // A submodule is a commit with no size: not an entry.
    assert_eq!(tree_entry_of(&format!("160000 commit {oid}       -\tvendor/lib")), None);
    assert_eq!(tree_entry_of("no tab here"), None);
    assert_eq!(tree_entry_of(&format!("100644 blob {oid}\tshort")), None);
}

use diffnote::git::parse_log;

#[test]
fn the_commits_of_a_range_say_what_they_are_and_what_they_touched() {
    let said = "abc\x1fAnn\x1f2024-01-02T03:04:05+00:00\x1fFix it\x1fBody line\n\n\0\
                def\x1fBob\x1fnot a time\x1fSkipped\x1f\0\
                short\x1fonly two\0\
                ghi\x1fCy\x1f2024-02-01T00:00:00Z\x1fOnly a subject\0";
    let touched = "\x01abc\0\nM\0src/a.rs\0R100\0old.rs\0new.rs\0\
                   \x01zzz\0\nM\0not ours\0\
                   \x01ghi\0\nA\0b.txt\0";
    let log = parse_log(said, touched);
    assert_eq!(log.len(), 2);
    let (id, first) = &log[0];
    assert_eq!(id, "abc");
    assert_eq!(first.author, "Ann");
    assert_eq!(first.at, "2024-01-02T03:04:05+00:00");
    assert_eq!(first.subject, "Fix it");
    assert_eq!(first.body, "Body line");
    assert_eq!(first.files.len(), 2);
    assert_eq!((first.files[0].path.as_str(), first.files[0].old_path.as_deref(), first.files[0].status.as_str()), ("src/a.rs", None, "modified"));
    assert_eq!((first.files[1].path.as_str(), first.files[1].old_path.as_deref(), first.files[1].status.as_str()), ("new.rs", Some("old.rs"), "renamed"));
    let (id, second) = &log[1];
    assert_eq!(id, "ghi");
    assert_eq!(second.body, "");
    assert_eq!(second.files.len(), 1);
    assert_eq!(second.files[0].status, "added");
}

#[test]
fn a_rename_without_its_second_path_ends_the_file_lists() {
    let said = "a1\x1fA\x1f2024-01-01T00:00:00Z\x1fs\x1fb\0";
    // The output stops after the copy's first path.
    let log = parse_log(said, "\x01a1\0M\0x\0C90\0only-one");
    assert_eq!(log[0].1.files.len(), 1);
    assert_eq!(log[0].1.files[0].path, "x");
    // An unknown status letter is "changed"; nothing at all is no commits.
    let log = parse_log(said, "\x01a1\0T\0y\0");
    assert_eq!(log[0].1.files[0].status, "changed");
    assert!(parse_log("", "").is_empty());
}
