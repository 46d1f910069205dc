use diffnote::editor::command_words;

fn words(s: &str) -> Vec<String> {
    command_words(s)
}

#[test]
fn a_bare_program_is_one_word() {
    assert_eq!(words("vim"), ["vim"]);
    assert_eq!(words("  vim  "), ["vim"]);
}

#[test]
fn arguments_are_split_off() {
    assert_eq!(words("code --wait"), ["code", "--wait"]);
    assert_eq!(words("emacsclient -t  -a  ''"), ["emacsclient", "-t", "-a", ""]);
}

#[test]
fn quotes_keep_a_word_together() {
    assert_eq!(
        words(r#""C:\Program Files\Vim\vim.exe" -u NONE"#),
        [r"C:\Program Files\Vim\vim.exe", "-u", "NONE"]
    );
    assert_eq!(words("'my editor' --flag"), ["my editor", "--flag"]);
    assert_eq!(words(r#"ed "a 'b' c""#), ["ed", "a 'b' c"]);
}

#[test]
fn backslashes_are_kept_as_they_are() {
    assert_eq!(words(r"C:\tools\ed.cmd --wait"), [r"C:\tools\ed.cmd", "--wait"]);
}

#[test]
fn an_unclosed_quote_takes_the_rest_as_one_word() {
    assert_eq!(words(r#"ed "a b"#), ["ed", "a b"]);
}

#[test]
fn nothing_is_no_words() {
    assert!(words("").is_empty());
    assert!(words("   ").is_empty());
}
