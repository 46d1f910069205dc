use diffnote::annotation::{parse, AnchorScope, Directive, Item, LineSpan, ThreadRef};

const BASE: &str = "\
diff --git a/src/lib.rs b/src/lib.rs
index 83db48f..bf269c9 100644
--- a/src/lib.rs
+++ b/src/lib.rs
@@ -10,4 +10,8 @@ impl Foo {
     fn bar(&self) -> i32 {
         self.value
     }
+
+    fn baz(&self) -> i32 {
+        self.value * 2
+    }
 }
";

fn with_range(after_close: &str, id: &str) -> String {
    BASE.replacen(
        "+    fn baz(&self) -> i32 {\n+        self.value * 2\n+    }\n",
        &format!(
            "+    fn baz(&self) -> i32 {{\n>[{id}\n+        self.value * 2\n+    }}\n>]{id}\n{after_close}"
        ),
        1,
    )
}

#[test]
fn reply_without_a_preceding_thread_is_an_error() {
    let text = format!("{BASE}>> どのスレッドへの返信？\n");
    assert!(parse(&text).is_err());
}

#[test]
fn a_closed_range_with_a_comment_produces_no_warning() {
    let parsed = parse(&with_range("> 範囲コメント\n", "a")).unwrap();
    assert!(parsed.warnings.is_empty(), "{:?}", parsed.warnings);
    // A blank line before the comment doesn't detach it from the range.
    let parsed = parse(&with_range("\n> 範囲コメント\n", "a")).unwrap();
    assert!(parsed.warnings.is_empty(), "{:?}", parsed.warnings);
}

#[test]
fn a_closed_range_without_a_comment_warns_and_records_nothing() {
    // The next diff line arrives before any comment.
    let parsed = parse(&with_range("", "a")).unwrap();
    assert!(parsed.items.is_empty());
    assert_eq!(parsed.warnings.len(), 1);
    assert!(parsed.warnings[0].contains("範囲 'a'"), "{:?}", parsed.warnings);
    assert!(parsed.warnings[0].contains(" 行目: "));

    // ...and the same for an anonymous range.
    let parsed = parse(&with_range("", "")).unwrap();
    assert_eq!(parsed.warnings.len(), 1);
    assert!(parsed.warnings[0].contains("範囲 は閉じられて"), "{:?}", parsed.warnings);
}

#[test]
fn unclosed_range_is_an_error() {
    let text = format!("{BASE}>[unclosed\n");
    assert!(parse(&text).is_err());
}

#[test]
fn rendered_header_with_an_invalid_id_is_an_error() {
    let text = format!("{BASE}>#@not-a-ulid someone@example.com 2026-09-18T10:00:00Z\n");
    assert!(parse(&text).is_err());
}

#[test]
fn rendered_body_lines_are_purely_decorative() {
    // A `>#` body line with no preceding `>#@` header is just ignored, not an
    // error -- and doesn't itself set a reply target.
    let text = format!("{BASE}>#dangling body line, no header before it\n>> orphan reply\n");
    assert!(parse(&text).is_err());
}

#[test]
fn reject_is_no_longer_a_directive() {
    let text = format!("{BASE}> text\n>> reply\n>>!reject\n");
    assert!(parse(&text).is_err());
}

#[test]
fn single_line_comment_anchors_to_the_preceding_line() {
    // Insert the comment right after "self.value * 2" (new line 15).
    let text = BASE.replacen(
        "        self.value * 2\n+    }\n",
        "        self.value * 2\n> baz、ゼロ除算のケース考慮されてます？\n+    }\n",
        1,
    );
    let parsed = parse(&text).expect("valid annotation");
    assert_eq!(parsed.items.len(), 1);
    let Item::NewThread { scope, body, directives, .. } = &parsed.items[0] else {
        panic!("expected a new thread");
    };
    assert_eq!(
        *scope,
        AnchorScope::Span {
            file: "src/lib.rs".to_string(),
            base: LineSpan::new(13, 0),
            head: LineSpan::new(15, 1),
        }
    );
    assert_eq!(body.as_deref(), Some("baz、ゼロ除算のケース考慮されてます？"));
    assert!(directives.is_empty());
}

#[test]
fn reply_targets_the_last_thread_and_directive_resolves_it() {
    let text = format!("{BASE}> このブロックの計算、まとめられませんか？\n>> 対応しました\n>>!resolve\n");
    let parsed = parse(&text).expect("valid annotation");
    assert_eq!(parsed.items.len(), 2);
    let Item::NewThread { id: thread_id, .. } = &parsed.items[0] else {
        panic!("expected a new thread first");
    };
    let Item::Reply { target, body, directives } = &parsed.items[1] else {
        panic!("expected a reply second");
    };
    assert_eq!(*target, ThreadRef::New(*thread_id));
    assert_eq!(body.as_deref(), Some("対応しました"));
    assert_eq!(directives, &vec![Directive::Resolve]);
}

#[test]
fn a_rendered_header_with_a_valid_id_sets_the_reply_target() {
    // 26 Crockford base32 digits: the value one.
    let text = format!(
        "{BASE}>#@00000000000000000000000001 someone@example.com 2026-09-18T10:00:00Z\n>#元のコメント本文\n>> 対応しました\n"
    );
    let parsed = parse(&text).expect("valid annotation");
    assert_eq!(parsed.items.len(), 1);
    let Item::Reply { target, .. } = &parsed.items[0] else {
        panic!("expected a reply");
    };
    assert_eq!(*target, ThreadRef::Existing(1));
}

#[test]
fn an_error_reads_as_its_line_and_message() {
    let err = parse(&format!("{BASE}>[unclosed\n")).unwrap_err();
    assert!(err.to_text().contains(" 行目: "), "{}", err.to_text());
}
