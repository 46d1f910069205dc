use diffnote::bundle::{has_revision, latest_revision, manifest, Store};
use diffnote::model::{Anchor, Event, Revision, SnapshotMode, Source, TreeFile};
use diffnote::review::build_threads;

fn comment(id: u128, parent: Option<u128>, body: &str) -> Event {
    Event::Comment {
        id,
        parent,
        author: "r".to_string(),
        created_at: "1970-01-01T00:00:00Z".to_string(),
        anchor: parent.is_none().then(|| Anchor::Global { base: None, head: None }),
        body: body.to_string(),
    }
}

fn revision(id: u128, digest: &str, tree: Vec<TreeFile>) -> Event {
    Event::Revision(Revision {
        id,
        created_at: "1970-01-01T00:00:00Z".to_string(),
        digest: digest.to_string(),
        source: Source::Files { base: None },
        snapshot_mode: SnapshotMode::Changed,
        files: Vec::new(),
        tree,
    })
}

fn file(path: &str, digest: &str) -> TreeFile {
    TreeFile { path: path.to_string(), digest: digest.to_string() }
}

#[test]
fn threads_gather_their_replies_and_state_in_the_order_their_roots_came() {
    let events = vec![
        comment(1, None, "first"),
        comment(2, None, "second"),
        comment(10, Some(1), "a reply"),
        Event::Resolve { parent: 2, author: "r".into(), created_at: "t".into() },
        comment(11, Some(99), "to nothing: dropped"),
        Event::Reopen { parent: 99, author: "r".into(), created_at: "t".into() },
        Event::Reanchor {
            parent: 1,
            author: "r".into(),
            created_at: "t".into(),
            anchor: Anchor::Global { base: Some("b".into()), head: None },
        },
    ];
    let threads = build_threads(&events);
    assert_eq!(threads.len(), 2);
    assert_eq!((threads[0].root_id, threads[1].root_id), (1, 2));
    assert_eq!(threads[0].replies.len(), 1);
    assert_eq!(threads[0].replies[0].body, "a reply");
    assert!(!threads[0].resolved && threads[1].resolved);
    assert_eq!(threads[0].anchor, Anchor::Global { base: Some("b".into()), head: None });
    assert!(threads[1].replies.is_empty());
}

#[test]
fn a_pin_extends_and_overrides_the_revisions_recorded_tree() {
    let events = vec![
        revision(7, "sha256:r1", vec![file("a", "sha256:a1"), file("b", "sha256:b1")]),
        Event::Pin { revision: 7, files: vec![file("b", "sha256:b2"), file("c", "sha256:c1")] },
        Event::Pin { revision: 8, files: vec![file("a", "sha256:other")] },
    ];
    let Event::Revision(r) = &events[0] else { panic!() };
    let m = manifest(&events, r);
    let pairs: Vec<(&str, &str)> = m.iter().map(|f| (f.path.as_str(), f.digest.as_str())).collect();
    assert_eq!(pairs, [("a", "sha256:a1"), ("b", "sha256:b2"), ("c", "sha256:c1")]);
    assert!(has_revision(&events, "sha256:r1"));
    assert!(!has_revision(&events, "sha256:r2"));
    assert_eq!(latest_revision(&events).unwrap().id, 7);
}

#[test]
fn tree_of_skips_files_whose_blob_is_not_stored() {
    let events = vec![revision(7, "sha256:r1", vec![file("a", "sha256:aaa"), file("b", "sha256:bbb")])];
    let store = Store { entries: vec![("blobs/aaa".to_string(), b"A".to_vec())] };
    let Event::Revision(r) = &events[0] else { panic!() };
    let tree = store.tree_of(&events, r);
    assert_eq!(tree.entries.len(), 1);
    assert_eq!(tree.entries[0], ("a".to_string(), b"A".to_vec()));
}
