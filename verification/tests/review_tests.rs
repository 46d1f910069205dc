use diffnote::model::{Reactions, Settings};
use diffnote::review::{set_ignore_whitespace, set_title, title, toggle_reaction};

#[test]
fn the_title_is_a_setting_that_changes_only_when_it_would_be_another() {
    let mut settings = Settings::default();
    assert_eq!(title(&settings), None);
    assert!(!set_title(&mut settings, ""), "nothing to clear");
    assert!(!set_title(&mut settings, "  "));
    assert!(set_title(&mut settings, " new "));
    assert_eq!(title(&settings).as_deref(), Some("new"), "trimmed");
    assert!(!set_title(&mut settings, "new"), "the same title");
    assert!(set_title(&mut settings, "other"));
    assert!(set_title(&mut settings, ""), "clearing changes it");
    assert_eq!(title(&settings), None);
    assert_eq!(settings.title, None, "no empty string is kept");
}

#[test]
fn ignoring_white_space_is_a_setting_that_changes_only_when_it_would_be_another() {
    let mut settings = Settings::default();
    assert!(!settings.ignore_whitespace);
    assert!(!set_ignore_whitespace(&mut settings, false));
    assert!(set_ignore_whitespace(&mut settings, true));
    assert!(settings.ignore_whitespace);
    assert!(!set_ignore_whitespace(&mut settings, true));
    assert!(set_ignore_whitespace(&mut settings, false));
}

#[test]
fn a_reaction_is_added_and_taken_back_by_the_same_person_and_nothing_empty_is_kept() {
    let mut reactions = Reactions::new();
    assert!(toggle_reaction(&mut reactions, "c1", "👍", "a"));
    assert!(toggle_reaction(&mut reactions, "c1", "🎉", "a"));
    assert!(toggle_reaction(&mut reactions, "c1", "👍", "b"));
    let emoji: Vec<_> = reactions.get("c1").unwrap().iter().map(|r| r.emoji.as_str()).collect();
    assert_eq!(emoji, ["👍", "🎉"], "in the order first used");
    assert_eq!(reactions.get("c1").unwrap()[0].authors, ["a", "b"]);
    // Again: taken back; one person's doesn't take another's.
    assert!(!toggle_reaction(&mut reactions, "c1", "👍", "a"));
    assert_eq!(reactions.get("c1").unwrap()[0].authors, ["b"]);
    assert!(!toggle_reaction(&mut reactions, "c1", "👍", "b"));
    assert_eq!(reactions.get("c1").unwrap().len(), 1, "an emoji nobody has is gone");
    assert!(!toggle_reaction(&mut reactions, "c1", "🎉", "a"));
    assert!(reactions.is_empty(), "so is a comment that has none");
}

#[test]
fn toggling_twice_gives_back_what_there_was() {
    let mut reactions = Reactions::new();
    assert!(toggle_reaction(&mut reactions, "c1", "👍", "a"));
    assert!(toggle_reaction(&mut reactions, "c2", "👀", "b"));
    assert!(toggle_reaction(&mut reactions, "c2", "👀", "c"));
    assert!(!toggle_reaction(&mut reactions, "c2", "👀", "c"));
    assert_eq!(reactions.get("c2").unwrap()[0].authors, ["b"]);
    assert_eq!(reactions.get("c1").unwrap()[0].authors, ["a"]);
    assert!(reactions.get("c3").is_none());
}
