use diffnote::diff::{parse, LineKind};

const SAMPLE: &str = "\
diff --git a/src/lib.rs b/src/lib.rs
index 83db48f..bf269c9 100644
--- a/src/lib.rs
+++ b/src/lib.rs
@@ -10,4 +10,8 @@ impl Foo {
     fn bar(&self) -> i32 {
         self.value
     }
+
+    fn baz(&self) -> i32 {
+        self.value * 2
+    }
 }
";

#[test]
fn parses_a_single_file_single_hunk_diff() {
    let parsed = parse(SAMPLE).expect("valid diff");
    assert_eq!(parsed.files.len(), 1);
    let file = &parsed.files[0];
    assert_eq!(file.old_path.as_deref(), Some("src/lib.rs"));
    assert_eq!(file.new_path.as_deref(), Some("src/lib.rs"));
    assert_eq!(file.hunks.len(), 1);

    let hunk = &file.hunks[0];
    assert_eq!(hunk.old_start, 10);
    assert_eq!(hunk.old_lines, 4);
    assert_eq!(hunk.new_start, 10);
    assert_eq!(hunk.new_lines, 8);
    assert_eq!(hunk.section_heading.as_deref(), Some("impl Foo {"));
    assert_eq!(hunk.lines.len(), 8);

    // "self.value * 2" is a pure addition on the new side only.
    let added = &hunk.lines[5];
    assert_eq!(added.kind, LineKind::Added);
    assert_eq!(added.content, "        self.value * 2");
    assert_eq!(added.old_line, None);
    assert_eq!(added.new_line, Some(15));

    // trailing "}" is unchanged context present on both sides.
    let trailing = hunk.lines.last().unwrap();
    assert_eq!(trailing.kind, LineKind::Context);
    assert_eq!(trailing.old_line, Some(13));
    assert_eq!(trailing.new_line, Some(17));
}

#[test]
fn parses_a_bare_diff_dash_u_file_with_no_git_headers() {
    let bare = "\
--- old.txt
+++ new.txt
@@ -1,2 +1,2 @@
-hello
+hello world
 bye
";
    let parsed = parse(bare).expect("valid diff");
    assert_eq!(parsed.files.len(), 1);
    assert_eq!(parsed.files[0].old_path.as_deref(), Some("old.txt"));
    assert_eq!(parsed.files[0].new_path.as_deref(), Some("new.txt"));
    assert_eq!(parsed.files[0].hunks[0].lines.len(), 3);
}

#[test]
fn rejects_context_diff_style_markers() {
    // `>`/`<` are not valid unified-diff content prefixes.
    let context_style = "\
--- old.txt
+++ new.txt
@@ -1,1 +1,1 @@
< hello
---
> hello world
";
    assert!(parse(context_style).is_err());
}
