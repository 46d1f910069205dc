use diffnote::markdown::{build, safe_link, tree, Align, Kind, MdEvent, MdTag, Node};
use serde_json::Value;

/// A node as the page takes it: a string, or an object with `t` its type.
fn value_of(node: &Node) -> Value {
    let (kind, children) = match node {
        Node::Text(s) => return Value::String(s.clone()),
        Node::Element(kind, children) => (kind, children),
    };
    let mut m = serde_json::Map::new();
    let mut put = |k: &str, v: Value| {
        m.insert(k.to_string(), v);
    };
    let s = |x: &str| Value::String(x.to_string());
    let t = match kind {
        Kind::Paragraph => "p",
        Kind::Heading(l) => {
            put("l", Value::from(*l));
            "h"
        }
        Kind::Quote => "quote",
        Kind::Pre { lang, text } => {
            if let Some(lang) = lang {
                put("lang", s(lang));
            }
            put("s", s(text));
            "pre"
        }
        Kind::Bullets => "ul",
        Kind::Numbered(n) => {
            put("start", Value::from(*n));
            "ol"
        }
        Kind::Item => "li",
        Kind::Table(al) => {
            let al = al
                .iter()
                .map(|a| {
                    s(match a {
                        Align::Left => "l",
                        Align::Center => "c",
                        Align::Right => "r",
                        Align::Unset => "",
                    })
                })
                .collect();
            put("al", Value::Array(al));
            "table"
        }
        Kind::Head => "thead",
        Kind::Row => "tr",
        Kind::Cell => "td",
        Kind::Emphasis => "em",
        Kind::Strong => "strong",
        Kind::Deleted => "del",
        Kind::Code(code) => {
            put("s", s(code));
            "code"
        }
        Kind::Link(href) => {
            put("href", s(href));
            "a"
        }
        Kind::File(id) => {
            put("id", s(id));
            "file"
        }
        Kind::Image { id, alt } => {
            put("id", s(id));
            put("alt", s(alt));
            "image"
        }
        Kind::Break => "br",
        Kind::Rule => "hr",
    };
    put("t", s(t));
    if !children.is_empty() {
        put("c", Value::Array(children.iter().map(value_of).collect()));
    }
    Value::Object(m)
}

fn json_of(body: &str) -> String {
    let nodes: Vec<Value> = tree(body).iter().map(value_of).collect();
    serde_json::to_string(&Value::Array(nodes)).unwrap()
}

#[test]
fn plain_text_is_a_paragraph_and_emphasis_code_and_links_are_inline_nodes() {
    assert_eq!(json_of("about B"), r#"[{"c":["about B"],"t":"p"}]"#);
    assert_eq!(
        json_of("a *b* **c** `d` [e](https://x.y/z)"),
        r#"[{"c":["a ",{"c":["b"],"t":"em"}," ",{"c":["c"],"t":"strong"}," ",{"s":"d","t":"code"}," ",{"c":["e"],"href":"https://x.y/z","t":"a"}],"t":"p"}]"#
    );
}

#[test]
fn raw_html_is_text_and_never_a_node() {
    let out = json_of("hi <img src=x onerror=alert(1)> <script>alert(2)</script>");
    assert!(!out.contains(r#""t":"img""#) && !out.contains(r#""t":"script""#), "{out}");
    assert!(out.contains("<img src=x onerror=alert(1)>"), "as text: {out}");
    // Also as a block of its own.
    let out = json_of("<div onclick=x>\nhello\n</div>");
    assert!(out.contains("<div onclick=x>"), "{out}");
    assert!(!out.contains(r#""t":"div""#));
}

#[test]
fn a_link_is_kept_only_if_it_is_safe() {
    for bad in [
        "javascript:alert(1)",
        "JaVaScRiPt:alert(1)",
        " javascript:alert(1)",
        "data:text/html,<script>1</script>",
        "vbscript:x",
        "/relative",
        "//evil.example",
        "file:///etc/passwd",
    ] {
        let out = json_of(&format!("[click]({bad})"));
        assert!(!out.contains("href"), "{bad}: {out}");
        assert!(out.contains("click"), "its text stays: {out}");
    }
    for good in ["http://a.b", "https://a.b/c?d=e", "mailto:a@b.c", "HTTPS://A.B"] {
        let out = json_of(&format!("[t]({good})"));
        assert!(out.contains(r#""href""#), "{good}: {out}");
    }
}

#[test]
fn images_are_their_alt_text_and_nothing_is_loaded() {
    let out = json_of("![alt words](https://x.y/a.png)");
    assert!(!out.contains("img") && !out.contains("x.y"), "{out}");
    assert!(out.contains("alt words"));
}

#[test]
fn an_image_of_the_bundle_is_a_node_and_any_other_is_its_alt_text() {
    let id = "a".repeat(64);
    assert_eq!(
        json_of(&format!("![a shot](diffnote-image:{id})")),
        format!(r#"[{{"c":[{{"alt":"a shot","id":"{id}","t":"image"}}],"t":"p"}}]"#)
    );
    // Not an id, or an address: only the text stays, nothing is loaded.
    for other in ["diffnote-image:xyz", "https://x.y/a.png", "javascript:alert(1)"] {
        let out = json_of(&format!("![alt words]({other})"));
        assert!(!out.contains("image") && !out.contains("x.y"), "{other}: {out}");
        assert!(out.contains("alt words"), "{other}: {out}");
    }
}

#[test]
fn a_link_to_a_file_of_the_bundle_is_a_node_with_its_text() {
    let id = "b".repeat(64);
    assert_eq!(
        json_of(&format!("[the log](diffnote-file:{id})")),
        format!(r#"[{{"c":[{{"c":["the log"],"id":"{id}","t":"file"}}],"t":"p"}}]"#)
    );
    // Not an id: a link that goes nowhere is its text.
    let out = json_of("[x](diffnote-file:short)");
    assert!(!out.contains("file") && out.contains('x'), "{out}");
}

#[test]
fn code_blocks_keep_their_text_and_language() {
    assert_eq!(
        json_of("```rust\nlet a = 1;\n<b>\n```"),
        r#"[{"lang":"rust","s":"let a = 1;\n<b>\n","t":"pre"}]"#
    );
    assert_eq!(json_of("    indented"), r#"[{"s":"indented","t":"pre"}]"#);
}

#[test]
fn lists_quotes_headings_rules_and_breaks() {
    let out = json_of("# T\n\n- a\n- b\n\n1. x\n\n> q\n\n---\n\nl1  \nl2");
    assert!(out.contains(r#""t":"h""#) && out.contains(r#""l":1"#));
    assert!(out.contains(r#""t":"ul""#) && out.contains(r#""t":"li""#));
    assert!(out.contains(r#""t":"ol""#) && out.contains(r#""start":1"#));
    assert!(out.contains(r#""t":"quote""#) && out.contains(r#""t":"hr""#));
    assert!(out.contains(r#""t":"br""#));
}

#[test]
fn tables_and_strikethrough_are_nodes() {
    assert_eq!(
        json_of("|a|b|\n|:-|-:|\n|1|~~2~~|"),
        r#"[{"al":["l","r"],"c":[{"c":[{"c":["a"],"t":"td"},{"c":["b"],"t":"td"}],"t":"thead"},{"c":[{"c":["1"],"t":"td"},{"c":[{"c":["2"],"t":"del"}],"t":"td"}],"t":"tr"}],"t":"table"}]"#
    );
    // Raw HTML in a cell is still text.
    let out = json_of("|a|\n|-|\n|<b onclick=x>|");
    assert!(!out.contains(r#""t":"b""#) && out.contains("<b onclick=x>"), "{out}");
}

#[test]
fn a_line_break_stays_one_and_an_empty_body_is_nothing() {
    assert_eq!(json_of("one\ntwo"), r#"[{"c":["one",{"t":"br"},"two"],"t":"p"}]"#);
    // (A hard break, with the two spaces or the backslash, is the same.)
    assert_eq!(json_of("one  \ntwo"), json_of("one\ntwo"));
    assert_eq!(json_of("one\\\ntwo"), json_of("one\ntwo"));
    // A blank line still starts a paragraph.
    assert_eq!(json_of("one\n\ntwo"), r#"[{"c":["one"],"t":"p"},{"c":["two"],"t":"p"}]"#);
    assert_eq!(json_of(""), "[]");
}

#[test]
fn safe_links_are_http_https_or_mailto_whatever_the_case() {
    assert!(safe_link("  HTTP://x"));
    assert!(safe_link("mailto:a@b"));
    assert!(!safe_link("javascript:x"));
    assert!(!safe_link("https:/x"));
}

#[test]
fn the_tree_is_built_from_the_events_as_they_come() {
    // Text next to text is one text; an unsafe link leaves its text in place.
    let events = vec![
        MdEvent::Start(MdTag::Paragraph),
        MdEvent::Text("a".to_string()),
        MdEvent::Start(MdTag::Link("javascript:x".to_string())),
        MdEvent::Text("b".to_string()),
        MdEvent::End { code_block: false },
        MdEvent::InlineHtml("<i>".to_string()),
        MdEvent::End { code_block: false },
        // An end with nothing open closes nothing.
        MdEvent::End { code_block: false },
    ];
    let nodes = build(events);
    assert_eq!(nodes, vec![Node::Element(Kind::Paragraph, vec![Node::Text("ab<i>".to_string())])]);
    // A code block's text is its code, and its language the first word.
    let events = vec![
        MdEvent::Start(MdTag::CodeBlock(Some(" py extra".to_string()))),
        MdEvent::Text("x = 1\n".to_string()),
        MdEvent::Html("<b>".to_string()),
        MdEvent::End { code_block: true },
    ];
    assert_eq!(
        build(events),
        vec![Node::Element(
            Kind::Pre { lang: Some("py".to_string()), text: "x = 1\n<b>".to_string() },
            vec![]
        )]
    );
}
