use diffnote::tokens::{kind_of, kind_of_one, push_piece, under, Token};

fn chars(s: &str) -> Vec<char> {
    s.chars().collect()
}

fn scopes(list: &[&str]) -> Vec<String> {
    list.iter().map(|s| s.to_string()).collect()
}

#[test]
fn a_scope_is_under_a_prefix_only_at_a_dot() {
    assert!(under(&chars("string"), "string"));
    assert!(under(&chars("string.quoted.double"), "string"));
    assert!(!under(&chars("stringy"), "string"));
    assert!(!under(&chars("str"), "string"));
}

#[test]
fn each_scope_has_the_kind_the_page_colors_it_as() {
    assert_eq!(kind_of_one("string.quoted.double.rust"), Some("string"));
    assert_eq!(kind_of_one("constant.numeric.integer"), Some("number"));
    assert_eq!(kind_of_one("constant.language"), Some("constant"));
    assert_eq!(kind_of_one("keyword.operator.assignment"), Some("operator"));
    assert_eq!(kind_of_one("storage.type"), Some("keyword"));
    assert_eq!(kind_of_one("support.function.builtin"), Some("function"));
    assert_eq!(kind_of_one("entity.name.tag.yaml"), Some("tag"));
    assert_eq!(kind_of_one("entity.name.type.struct"), Some("type"));
    assert_eq!(kind_of_one("markup.heading.1"), Some("heading"));
    assert_eq!(kind_of_one("markup.inline.raw"), Some("raw"));
    assert_eq!(kind_of_one("source.rust"), None);
    assert_eq!(kind_of_one("meta.block"), None);
}

#[test]
fn the_innermost_scope_with_a_kind_decides_but_a_comment_holds_all_inside_it() {
    assert_eq!(
        kind_of(&scopes(&["source.yaml", "string.unquoted", "entity.name.tag.yaml"])),
        Some("tag")
    );
    assert_eq!(
        kind_of(&scopes(&["source.rust", "comment.line", "constant.numeric"])),
        Some("comment")
    );
    assert_eq!(
        kind_of(&scopes(&["source.rust", "keyword.control", "meta.block"])),
        Some("keyword")
    );
    assert_eq!(kind_of(&scopes(&["source.rust", "meta.block"])), None);
    assert_eq!(kind_of(&[]), None);
}

#[test]
fn neighbours_of_one_kind_join_into_one_piece() {
    let mut pieces = Vec::new();
    push_piece(&mut pieces, Some("keyword"), "let");
    push_piece(&mut pieces, None, " ");
    push_piece(&mut pieces, None, "x");
    push_piece(&mut pieces, Some("string"), "'a");
    push_piece(&mut pieces, Some("string"), " b'");
    assert_eq!(
        pieces,
        vec![
            Token::Kind("keyword", "let".to_string()),
            Token::Plain(" x".to_string()),
            Token::Kind("string", "'a b'".to_string()),
        ]
    );
    assert_eq!(pieces[1].text(), " x");
    assert_eq!(pieces[2].kind(), Some("string"));
}
