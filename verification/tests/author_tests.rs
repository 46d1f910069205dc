use diffnote::author::pick;

#[test]
fn the_explicit_author_beats_everything() {
    assert_eq!(pick(Some("Me"), Some("Name"), Some("e@x"), Some("login")), "Me");
}

#[test]
fn git_name_comes_before_email_and_login() {
    assert_eq!(pick(None, Some("Yuki T"), Some("e@x"), Some("login")), "Yuki T");
    assert_eq!(pick(None, None, Some("e@x"), Some("login")), "e@x");
    assert_eq!(pick(None, None, None, Some("login")), "login");
    assert_eq!(pick(None, None, None, None), "unknown");
}

#[test]
fn blank_values_are_skipped_and_the_result_is_trimmed() {
    assert_eq!(pick(Some("  "), Some(""), Some(" e@x "), Some("login")), "e@x");
    assert_eq!(pick(Some(" Me "), None, None, None), "Me");
}
