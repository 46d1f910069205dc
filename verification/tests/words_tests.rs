use diffnote::linediff::DiffOp;
use diffnote::words::{changed, changes_in, words, MAX_LINE};

/// The changed text of each side.
fn shown(old: &str, new: &str) -> Option<(Vec<String>, Vec<String>)> {
    let (o, n) = changed(old, new)?;
    let cut = |s: &str, r: Vec<[u32; 2]>| {
        let u: Vec<u16> = s.encode_utf16().collect();
        r.iter()
            .map(|[a, b]| String::from_utf16(&u[*a as usize..*b as usize]).unwrap())
            .collect()
    };
    Some((cut(old, o), cut(new, n)))
}

fn chars(s: &str) -> Vec<char> {
    s.chars().collect()
}

#[test]
fn a_changed_word_is_what_is_emphasized_on_each_side() {
    let (old, new) = shown("type=sha,format=long", "type=sha,prefix=sha-,format=short").unwrap();
    assert_eq!(old, vec!["long"]);
    assert_eq!(new, vec!["prefix=sha-,", "short"]);
}

#[test]
fn an_added_part_is_only_on_the_new_side() {
    let (old, new) = shown("foo(a)", "foo(a, b)").unwrap();
    assert!(old.is_empty(), "{old:?}");
    assert_eq!(new, vec![", b"]);
}

#[test]
fn a_word_is_letters_digits_and_underscore_so_a_renamed_identifier_is_one_change() {
    let (old, new) = shown("let value_a = compute(x);", "let value_b = compute(x);").unwrap();
    assert_eq!(
        (old, new),
        (vec!["value_a".to_string()], vec!["value_b".to_string()])
    );
}

#[test]
fn lines_with_little_in_common_are_not_compared() {
    assert!(
        changed(
            "return res.status(401).end()",
            "  const ok = await compare(pass, hash)"
        )
        .is_none()
    );
    // Nor is a line rewritten in full.
    assert!(changed("abc", "xyz").is_none());
}

#[test]
fn offsets_are_utf16_units_as_the_page_counts() {
    // 😀 is two units in UTF-16 (four bytes in UTF-8), あ is one.
    let (o, n) = changed("あ😀 old value here", "あ😀 new value here").unwrap();
    assert_eq!(o, vec![[4, 7]]);
    assert_eq!(n, vec![[4, 7]]);
}

#[test]
fn white_space_between_changes_joins_them_and_long_lines_are_skipped() {
    let (o, _) = shown("call(a b c)", "call(x y c)").unwrap();
    assert_eq!(o, vec!["a b"]);
    let long = "x ".repeat(2000);
    assert!(changed(&long, &format!("{long}y")).is_none());
}

#[test]
fn identical_lines_have_no_changes() {
    let (o, n) = changed("same line", "same line").unwrap();
    assert!(o.is_empty() && n.is_empty());
}

#[test]
fn words_are_runs_of_one_class_and_other_characters_stand_alone() {
    let w = words(&chars("ab  c_1(("));
    assert_eq!(w, vec![(0, 2), (2, 4), (4, 7), (7, 8), (8, 9)]);
    assert!(words(&[]).is_empty());
}

#[test]
fn the_limit_is_in_bytes_not_characters() {
    // 700 three-byte characters: 2100 bytes, so the line is not compared.
    let wide = "あ".repeat(700);
    assert!(changed(&wide, &format!("{wide}x")).is_none());
    assert_eq!(MAX_LINE, 2000);
}

#[test]
fn a_script_given_by_hand_decides_the_spans() {
    // "ab cd" against "ab xy": words ab, " ", cd / ab, " ", xy.
    let ops = vec![
        DiffOp::Equal { old_index: 0, new_index: 0, len: 2 },
        DiffOp::Replace { old_index: 2, old_len: 1, new_index: 2, new_len: 1 },
    ];
    let r = changes_in(&chars("ab cd"), &chars("ab xy"), &ops).unwrap();
    assert_eq!(r, (vec![[3, 5]], vec![[3, 5]]));
    // "a b" against "a c" keeps 1 byte of each 3: 2 / 6 is under 35%.
    assert!(changes_in(&chars("a b"), &chars("a c"), &ops).is_none());
    // The same words taken as all replaced: nothing in common.
    let all = vec![DiffOp::Replace { old_index: 0, old_len: 3, new_index: 0, new_len: 3 }];
    assert!(changes_in(&chars("ab cd"), &chars("ab xy"), &all).is_none());
}
