use diffnote::anchor::{digest_for, ViewVersions};
use diffnote::model::{FileDigest, Side, TreeFile};

#[test]
fn digest_for_finds_a_file_by_either_path_and_side() {
    let files = vec![FileDigest {
        old_path: Some("old.rs".to_string()),
        new_path: Some("new.rs".to_string()),
        old: Some("sha256:old".to_string()),
        new: Some("sha256:new".to_string()),
    }];
    assert_eq!(digest_for(&files, "new.rs", Side::New), Some("sha256:new"));
    assert_eq!(digest_for(&files, "old.rs", Side::Old), Some("sha256:old"));
    assert_eq!(digest_for(&files, "old.rs", Side::New), Some("sha256:new"));
    assert_eq!(digest_for(&files, "other.rs", Side::New), None);
    let added = vec![FileDigest {
        old_path: None,
        new_path: Some("a.rs".to_string()),
        old: None,
        new: Some("sha256:n".to_string()),
    }];
    assert_eq!(digest_for(&added, "a.rs", Side::Old), None);
}

#[test]
fn view_versions_prefer_the_diffs_digests_over_the_recorded_tree() {
    let files = vec![FileDigest {
        old_path: Some("a".into()),
        new_path: Some("a".into()),
        old: Some("sha256:a-old".into()),
        new: Some("sha256:a-new".into()),
    }];
    let tree = [
        TreeFile {
            path: "a".into(),
            digest: "sha256:ignored".into(),
        },
        TreeFile {
            path: "b".into(),
            digest: "sha256:b".into(),
        },
    ];
    let v = ViewVersions {
        files: &files,
        tree: &tree,
    };
    assert_eq!(v.head("a"), Some("sha256:a-new"));
    assert_eq!(v.base("a"), Some("sha256:a-old"));
    // Untouched: the same on both sides.
    assert_eq!((v.head("b"), v.base("b")), (Some("sha256:b"), Some("sha256:b")));
    assert_eq!(v.head("c"), None);
}
