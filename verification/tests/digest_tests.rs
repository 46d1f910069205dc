use diffnote::digest::{digest, Blobs};

#[test]
fn precedes_terminates_on_a_cycle() {
    let mut b = Blobs::new();
    b.link("a", "b");
    b.link("b", "a");
    assert!(b.precedes("a", "b"));
    assert!(!b.precedes("a", "c"));
}

fn branching() -> Blobs {
    let mut b = Blobs::new();
    b.link("v1", "v2");
    b.link("v2", "v3");
    b.link("v2", "x");
    b.link("w1", "w2");
    b
}

#[test]
fn precedes_follows_recorded_steps_forward_only() {
    let b = branching();
    assert!(b.precedes("v1", "v2"));
    assert!(b.precedes("v1", "v3"), "through v2");
    assert!(b.precedes("v1", "x"), "through a branch");
    assert!(!b.precedes("v3", "v1"), "not backwards");
    assert!(!b.precedes("v3", "x"), "siblings don't precede each other");
    assert!(!b.precedes("v1", "w2"), "unrelated");
    assert!(!b.precedes("v1", "v1"), "not itself");
    assert!(!b.precedes("nope", "v1"));
}

#[test]
fn a_chain_is_the_texts_of_the_versions_between_two_held_ones() {
    let mut b = Blobs::new();
    for t in ["a\n", "b\n", "c\n", "z\n"] {
        b.add(t.as_bytes().to_vec());
    }
    let (da, db, dc) = (digest(b"a\n"), digest(b"b\n"), digest(b"c\n"));
    b.link(&da, &db);
    b.link(&db, &dc);
    assert_eq!(b.chain(&da, &dc), Some(vec!["a\n", "b\n", "c\n"]));
    // Links are followed either way.
    assert_eq!(b.chain(&dc, &da), Some(vec!["c\n", "b\n", "a\n"]));
    // Not linked at all: the two ends alone.
    let dz = digest(b"z\n");
    assert_eq!(b.chain(&da, &dz), Some(vec!["a\n", "z\n"]));
    // An end that is not held: nothing.
    assert_eq!(b.chain(&da, "sha256:missing"), None);
}

#[test]
fn a_digest_is_the_sha256_of_the_bytes_in_hex() {
    assert_eq!(
        digest(b""),
        "sha256:e3b0c44298fc1c149afbf4c8996fb92427ae41e4649b934ca495991b7852b855"
    );
}
