use diffnote::messages::{fill, lookup, m, message_count, mf};

#[test]
fn every_message_loads_without_panicking() {
    assert!(message_count() > 0);
    for key in ["image.empty", "image.unsupported_format", "image.svg_runs", "image.svg_external_ref"] {
        assert!(lookup(key).is_some(), "{key}");
        assert!(!m(key).is_empty());
    }
}

#[test]
fn placeholders_are_substituted_by_name() {
    let out = fill("{a} と {b}、また {a}", &[("a", "1"), ("b", "2")]);
    assert_eq!(out, "1 と 2、また 1");
}

#[test]
fn a_key_without_a_message_has_none() {
    assert!(lookup("no.such.key").is_none());
}

#[test]
fn a_message_with_nothing_to_fill_is_itself() {
    assert_eq!(mf("image.empty", &[("x", "1")]), m("image.empty"));
}
