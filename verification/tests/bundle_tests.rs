use diffnote::bundle::{digest_path_component, link_revision_files, old_settings, Additions, Images, Store};
use diffnote::model::Event;
use diffnote::digest::{digest, Blobs};
use diffnote::model::FileDigest;

#[test]
fn digest_path_component_strips_the_sha256_prefix() {
    assert_eq!(digest_path_component("sha256:abc"), "abc");
    assert_eq!(digest_path_component("no-prefix"), "no-prefix");
}

fn hex(bytes: &[u8]) -> String {
    digest_path_component(&digest(bytes)).to_string()
}

#[test]
fn a_file_version_is_stored_once_however_often_it_is_added() {
    let store = Store { entries: Vec::new() };
    let additions = Additions {
        diff: Some(("sha256:d1".to_string(), "the diff".to_string())),
        blobs: vec![b"one".to_vec(), b"two".to_vec(), b"one".to_vec()],
    };
    let out = store.entries_to_write(&additions, &Images::default());
    let names: Vec<&str> = out.iter().map(|(n, _)| n.as_str()).collect();
    let (one, two) = (format!("blobs/{}", hex(b"one")), format!("blobs/{}", hex(b"two")));
    assert_eq!(names, ["diffs/d1.diff", one.as_str(), two.as_str()]);
    assert_eq!(out[0].1, b"the diff");

    // What the store already has is carried, and not added again.
    let again = Store { entries: out };
    let more = Additions {
        diff: Some(("sha256:d1".to_string(), "other text".to_string())),
        blobs: vec![b"two".to_vec()],
    };
    let out = again.entries_to_write(&more, &Images::default());
    assert_eq!(out.len(), 3);
    assert_eq!(out[0].1, b"the diff");
}

#[test]
fn images_and_attachments_outside_the_keep_lists_are_left_out() {
    let store = Store {
        entries: vec![
            ("images/aaa".to_string(), b"A".to_vec()),
            ("images/bbb".to_string(), b"B".to_vec()),
            ("attachments/ccc".to_string(), b"C".to_vec()),
            ("blobs/ddd".to_string(), b"D".to_vec()),
        ],
    };
    let keep = vec!["bbb".to_string()];
    let keep_files: Vec<String> = Vec::new();
    let images = Images { add: &[], keep: Some(&keep), add_files: &[], keep_files: Some(&keep_files) };
    let out = store.entries_to_write(&Additions::default(), &images);
    let names: Vec<&str> = out.iter().map(|(n, _)| n.as_str()).collect();
    assert_eq!(names, ["images/bbb", "blobs/ddd"]);
}

#[test]
fn entries_are_found_by_name_and_counted_by_kind() {
    let store = Store {
        entries: vec![
            ("images/aaa".to_string(), b"AB".to_vec()),
            ("images/bbb".to_string(), b"CDE".to_vec()),
            ("attachments/ccc".to_string(), b"F".to_vec()),
            ("blobs/ddd".to_string(), b"x\n".to_vec()),
            ("diffs/eee.diff".to_string(), b"diff text".to_vec()),
        ],
    };
    assert_eq!(store.image("aaa"), Some(&b"AB"[..]));
    assert_eq!(store.image("ccc"), None);
    assert_eq!(store.attachment("ccc"), Some(&b"F"[..]));
    assert_eq!(store.blob("sha256:ddd"), Some(&b"x\n"[..]));
    assert_eq!(store.revision_diff("sha256:eee").as_deref(), Some("diff text"));
    assert_eq!(store.revision_diff("sha256:fff"), None);
    assert_eq!(store.image_ids(), ["aaa", "bbb"]);
    assert_eq!(store.attachment_ids(), ["ccc"]);
    assert_eq!(store.image_stats(), (2, 5));
    assert_eq!(store.attachment_stats(), (1, 1));
}

#[test]
fn revisions_link_a_files_versions() {
    let mut blobs = Blobs::new();
    let files = vec![
        FileDigest {
            old_path: Some("a".into()),
            new_path: Some("a".into()),
            old: Some("v1".into()),
            new: Some("v2".into()),
        },
        FileDigest {
            old_path: None,
            new_path: Some("b".into()),
            old: None,
            new: Some("w1".into()),
        },
    ];
    link_revision_files(&mut blobs, &files);
    assert!(blobs.precedes("v1", "v2"));
    assert!(!blobs.precedes("v2", "v1"));
    assert!(!blobs.precedes("w1", "v2"));
}

#[test]
fn the_old_title_and_white_space_events_become_settings_and_leave_the_log() {
    let title = |t: &str| Event::Title {
        title: t.to_string(),
        author: "a".into(),
        created_at: "1970-01-01T00:00:00Z".into(),
    };
    let whitespace = |on: bool| Event::IgnoreWhitespace {
        value: on,
        author: "a".into(),
        created_at: "1970-01-01T00:00:00Z".into(),
    };
    let meta = Event::Meta {
        version: 1,
        created_at: "1970-01-01T00:00:00Z".into(),
        description: None,
        context_lines: 3,
    };
    // As it was written then: the last of each is how it is.
    let mut events = vec![
        meta,
        title("first"),
        whitespace(true),
        title("  second "),
        whitespace(false),
        whitespace(true),
    ];
    let settings = old_settings(&mut events);
    assert_eq!(settings.title.as_deref(), Some("second"));
    assert!(settings.ignore_whitespace);
    assert_eq!(settings.attachment_limit, 5 * 1024 * 1024);
    assert_eq!(events.len(), 1, "no longer events");
    assert!(matches!(events[0], Event::Meta { .. }));
    // A blank last title is none; with no such events, the defaults.
    let mut events = vec![title("x"), title("   ")];
    assert_eq!(old_settings(&mut events).title, None);
    assert!(events.is_empty());
    let mut none: Vec<Event> = Vec::new();
    let s = old_settings(&mut none);
    assert!(s.title.is_none() && !s.ignore_whitespace);
}
