//! A comment's Markdown as a tree, for the page to draw.
//!
//! Nothing in the tree is HTML: raw HTML that a comment holds is text, and a
//! link is kept only if it goes to `http`, `https` or `mailto` (a
//! `javascript:` link is drawn as its text). The page makes elements from the
//! nodes, so what a comment says cannot run.
//!
//! The Markdown parser (`pulldown-cmark`, with tables and strikethrough) tells
//! what it reads as a list of events (`MdEvent`); the tree is built from them
//! here. Others than those drawn (any other image, footnotes, ...) are not
//! drawn as such: their text is.

use vstd::prelude::*;
use pulldown_cmark::Event as ParserEvent;
use crate::diff::{first_word, next_word};
use crate::image::{ascii_lower, is_id, is_id_spec, FILE_SCHEME, SCHEME};
use crate::text::{chars_of, has_prefix, opt_view, push_str, slice_of, starts_with_str, string_of, trim, trimmed};

verus! {

// ---- what the parser tells ------------------------------------------------------------

/// How a table's column is aligned.
#[derive(Debug, Clone, Copy, PartialEq, Eq, Structural)]
pub enum Align {
    /// Not said.
    Unset,
    Left,
    Center,
    Right,
}

/// An element the parser opens.
#[derive(Debug, Clone, PartialEq, Eq)]
pub enum MdTag {
    Paragraph,
    Heading(u8),
    BlockQuote,
    /// A code block: the language a fenced one names (maybe empty); `None`
    /// for an indented one.
    CodeBlock(Option<String>),
    /// A list: where its numbers start, for a numbered one.
    List(Option<u64>),
    Item,
    Emphasis,
    Strong,
    Strikethrough,
    Table(Vec<Align>),
    TableHead,
    TableRow,
    TableCell,
    /// A link, with where it goes.
    Link(String),
    /// An image, with where it is.
    Image(String),
    /// Any other (a footnote's definition, a block of HTML, ...).
    Other,
}

/// What the parser tells, in order.
#[derive(Debug, Clone, PartialEq, Eq)]
pub enum MdEvent {
    Start(MdTag),
    /// The innermost open element ends; `code_block` when it is a code block.
    End { code_block: bool },
    Text(String),
    /// A block of raw HTML.
    Html(String),
    /// Raw HTML within a line.
    InlineHtml(String),
    /// Inline code.
    Code(String),
    SoftBreak,
    HardBreak,
    Rule,
    /// Any other (math, a footnote reference, a task list marker).
    Other,
}

pub enum MdTagV {
    Paragraph,
    Heading(u8),
    BlockQuote,
    CodeBlock(Option<Seq<char>>),
    List(Option<u64>),
    Item,
    Emphasis,
    Strong,
    Strikethrough,
    Table(Seq<Align>),
    TableHead,
    TableRow,
    TableCell,
    Link(Seq<char>),
    Image(Seq<char>),
    Other,
}

pub enum MdEventV {
    Start(MdTagV),
    End { code_block: bool },
    Text(Seq<char>),
    Html(Seq<char>),
    InlineHtml(Seq<char>),
    Code(Seq<char>),
    SoftBreak,
    HardBreak,
    Rule,
    Other,
}

pub open spec fn tag_view(t: MdTag) -> MdTagV {
    match t {
        MdTag::Paragraph => MdTagV::Paragraph,
        MdTag::Heading(l) => MdTagV::Heading(l),
        MdTag::BlockQuote => MdTagV::BlockQuote,
        MdTag::CodeBlock(lang) => MdTagV::CodeBlock(crate::text::opt_view(lang)),
        MdTag::List(start) => MdTagV::List(start),
        MdTag::Item => MdTagV::Item,
        MdTag::Emphasis => MdTagV::Emphasis,
        MdTag::Strong => MdTagV::Strong,
        MdTag::Strikethrough => MdTagV::Strikethrough,
        MdTag::Table(al) => MdTagV::Table(al@),
        MdTag::TableHead => MdTagV::TableHead,
        MdTag::TableRow => MdTagV::TableRow,
        MdTag::TableCell => MdTagV::TableCell,
        MdTag::Link(url) => MdTagV::Link(url@),
        MdTag::Image(url) => MdTagV::Image(url@),
        MdTag::Other => MdTagV::Other,
    }
}

pub open spec fn event_view(e: MdEvent) -> MdEventV {
    match e {
        MdEvent::Start(t) => MdEventV::Start(tag_view(t)),
        MdEvent::End { code_block } => MdEventV::End { code_block },
        MdEvent::Text(s) => MdEventV::Text(s@),
        MdEvent::Html(s) => MdEventV::Html(s@),
        MdEvent::InlineHtml(s) => MdEventV::InlineHtml(s@),
        MdEvent::Code(s) => MdEventV::Code(s@),
        MdEvent::SoftBreak => MdEventV::SoftBreak,
        MdEvent::HardBreak => MdEventV::HardBreak,
        MdEvent::Rule => MdEventV::Rule,
        MdEvent::Other => MdEventV::Other,
    }
}

pub open spec fn events_view(v: Seq<MdEvent>) -> Seq<MdEventV> {
    v.map_values(|e: MdEvent| event_view(e))
}

// ---- the tree -------------------------------------------------------------------------

/// What an element of the tree is.
#[derive(Debug, Clone, PartialEq, Eq)]
pub enum Kind {
    /// `p`
    Paragraph,
    /// `h`, with its level.
    Heading(u8),
    /// `quote`
    Quote,
    /// `pre`: a code block, with the language it names and its text.
    Pre { lang: Option<String>, text: String },
    /// `ul`
    Bullets,
    /// `ol`, with where its numbers start.
    Numbered(u64),
    /// `li`
    Item,
    /// `table`, with its columns' alignments.
    Table(Vec<Align>),
    /// `thead`
    Head,
    /// `tr`
    Row,
    /// `td`
    Cell,
    /// `em`
    Emphasis,
    /// `strong`
    Strong,
    /// `del`
    Deleted,
    /// `code`, with its text.
    Code(String),
    /// `a`, with where it goes (a safe link).
    Link(String),
    /// `file`: a link that names a file of the bundle, by id.
    File(String),
    /// `image`: an image of the bundle, by id, with its alt text.
    Image { id: String, alt: String },
    /// `br`
    Break,
    /// `hr`
    Rule,
}

/// A node of the tree: text, or an element with what is inside it.
#[derive(Debug, PartialEq, Eq)]
pub enum Node {
    Text(String),
    Element(Kind, Vec<Node>),
}

pub enum KindV {
    Paragraph,
    Heading(u8),
    Quote,
    Pre { lang: Option<Seq<char>>, text: Seq<char> },
    Bullets,
    Numbered(u64),
    Item,
    Table(Seq<Align>),
    Head,
    Row,
    Cell,
    Emphasis,
    Strong,
    Deleted,
    Code(Seq<char>),
    Link(Seq<char>),
    File(Seq<char>),
    Image { id: Seq<char>, alt: Seq<char> },
    Break,
    Rule,
}

pub enum NodeV {
    Text(Seq<char>),
    Element(KindV, Seq<NodeV>),
}

pub open spec fn kind_view(k: Kind) -> KindV {
    match k {
        Kind::Paragraph => KindV::Paragraph,
        Kind::Heading(l) => KindV::Heading(l),
        Kind::Quote => KindV::Quote,
        Kind::Pre { lang, text } => KindV::Pre { lang: crate::text::opt_view(lang), text: text@ },
        Kind::Bullets => KindV::Bullets,
        Kind::Numbered(n) => KindV::Numbered(n),
        Kind::Item => KindV::Item,
        Kind::Table(al) => KindV::Table(al@),
        Kind::Head => KindV::Head,
        Kind::Row => KindV::Row,
        Kind::Cell => KindV::Cell,
        Kind::Emphasis => KindV::Emphasis,
        Kind::Strong => KindV::Strong,
        Kind::Deleted => KindV::Deleted,
        Kind::Code(s) => KindV::Code(s@),
        Kind::Link(s) => KindV::Link(s@),
        Kind::File(s) => KindV::File(s@),
        Kind::Image { id, alt } => KindV::Image { id: id@, alt: alt@ },
        Kind::Break => KindV::Break,
        Kind::Rule => KindV::Rule,
    }
}

pub open spec fn node_view(n: Node) -> NodeV
    decreases n,
{
    match n {
        Node::Text(s) => NodeV::Text(s@),
        Node::Element(k, children) => NodeV::Element(kind_view(k), nodes_view(children@)),
    }
}

pub open spec fn nodes_view(v: Seq<Node>) -> Seq<NodeV>
    decreases v,
{
    if v.len() == 0 {
        seq![]
    } else {
        nodes_view(v.drop_last()).push(node_view(v.last()))
    }
}

// ---- links --------------------------------------------------------------------------

/// Whether a link may be followed: `http`, `https` or `mailto`, and nothing
/// else (not `javascript:`, `data:`, ... nor a relative one, which points
/// nowhere in a review that is opened from a file).
pub open spec fn safe_link_spec(url: Seq<char>) -> bool {
    let u = ascii_lower(trim(url));
    has_prefix(u, "http://"@) || has_prefix(u, "https://"@) || has_prefix(u, "mailto:"@)
}

pub fn safe_link(url: &str) -> (r: bool)
    ensures
        r == safe_link_spec(url@),
{
    let t = trimmed(chars_of(url).as_slice());
    let mut lower: Vec<char> = Vec::new();
    for i in 0..t.len()
        invariant
            lower@ == ascii_lower(t@.take(i as int)),
    {
        let c = t[i];
        let l = if 'A' <= c && c <= 'Z' {
            ((c as u32) + 32) as u8 as char
        } else {
            c
        };
        assert(l == if 'A' <= c && c <= 'Z' {
            ((c as u32) + 32) as char
        } else {
            c
        }) by {
            if 'A' <= c && c <= 'Z' {
                assert(((c as u32) + 32) as u8 as char == ((c as u32) + 32) as char);
            }
        }
        lower.push(l);
        assert(t@.take(i + 1) =~= t@.take(i as int).push(c));
        assert(ascii_lower(t@.take(i + 1)) =~= ascii_lower(t@.take(i as int)).push(l));
    }
    assert(t@.take(t@.len() as int) =~= t@);
    starts_with_str(lower.as_slice(), "http://") || starts_with_str(lower.as_slice(), "https://")
        || starts_with_str(lower.as_slice(), "mailto:")
}

// ---- building the tree --------------------------------------------------------------

/// What an opened element becomes when it closes.
#[derive(Debug)]
pub enum Opened {
    /// The top of the tree, where its nodes go.
    Root,
    /// An element of the tree.
    Element(Kind),
    /// Not drawn as such (a link that goes nowhere safe, an image that is not
    /// one of the bundle's, any other element): what is inside stays, in its
    /// place.
    Unwrap,
}

pub enum OpenedV {
    Root,
    Element(KindV),
    Unwrap,
}

pub open spec fn opened_view(o: Opened) -> OpenedV {
    match o {
        Opened::Root => OpenedV::Root,
        Opened::Element(k) => OpenedV::Element(kind_view(k)),
        Opened::Unwrap => OpenedV::Unwrap,
    }
}

/// The open elements, outermost first, each with what is inside it so far.
pub open spec fn stack_view(v: Seq<(Opened, Vec<Node>)>) -> Seq<(OpenedV, Seq<NodeV>)> {
    v.map_values(|e: (Opened, Vec<Node>)| (opened_view(e.0), nodes_view(e.1@)))
}

pub proof fn lemma_nodes_view(v: Seq<Node>)
    ensures
        nodes_view(v).len() == v.len(),
        forall|i: int| 0 <= i < v.len() ==> #[trigger] nodes_view(v)[i] == node_view(v[i]),
    decreases v.len(),
{
    if v.len() > 0 {
        lemma_nodes_view(v.drop_last());
    }
}

/// The language a code block names: the first word of a fenced block's
/// language, where it names one.
pub open spec fn code_lang(lang: Option<Seq<char>>) -> Option<Seq<char>> {
    match lang {
        Some(l) => if l.len() > 0 {
            Some(
                match first_word(l) {
                    Some((w, _)) => w,
                    None => Seq::empty(),
                },
            )
        } else {
            None
        },
        None => None,
    }
}

/// What an element the parser opens becomes.
pub open spec fn open_spec(t: MdTagV) -> OpenedV {
    match t {
        MdTagV::Paragraph => OpenedV::Element(KindV::Paragraph),
        MdTagV::Heading(l) => OpenedV::Element(KindV::Heading(l)),
        MdTagV::BlockQuote => OpenedV::Element(KindV::Quote),
        MdTagV::CodeBlock(lang) => OpenedV::Element(KindV::Pre { lang: code_lang(lang), text: Seq::empty() }),
        MdTagV::List(None) => OpenedV::Element(KindV::Bullets),
        MdTagV::List(Some(n)) => OpenedV::Element(KindV::Numbered(n)),
        MdTagV::Item => OpenedV::Element(KindV::Item),
        MdTagV::Emphasis => OpenedV::Element(KindV::Emphasis),
        MdTagV::Strong => OpenedV::Element(KindV::Strong),
        MdTagV::Strikethrough => OpenedV::Element(KindV::Deleted),
        MdTagV::Table(al) => OpenedV::Element(KindV::Table(al)),
        MdTagV::TableHead => OpenedV::Element(KindV::Head),
        MdTagV::TableRow => OpenedV::Element(KindV::Row),
        MdTagV::TableCell => OpenedV::Element(KindV::Cell),
        MdTagV::Link(url) => if has_prefix(url, FILE_SCHEME@) && is_id_spec(url.skip(FILE_SCHEME@.len() as int)) {
            OpenedV::Element(KindV::File(url.skip(FILE_SCHEME@.len() as int)))
        } else if safe_link_spec(url) {
            OpenedV::Element(KindV::Link(url))
        } else {
            OpenedV::Unwrap
        },
        MdTagV::Image(url) => if has_prefix(url, SCHEME@) && is_id_spec(url.skip(SCHEME@.len() as int)) {
            OpenedV::Element(KindV::Image { id: url.skip(SCHEME@.len() as int), alt: Seq::empty() })
        } else {
            OpenedV::Unwrap
        },
        MdTagV::Other => OpenedV::Unwrap,
    }
}

/// Opening a heading keeps its level, and a heading with its text closes
/// into a heading node of that level holding that text.
pub proof fn lemma_heading_keeps_level(l: u8, text: Seq<char>)
    ensures
        open_spec(MdTagV::Heading(l)) == OpenedV::Element(KindV::Heading(l)),
        tree_spec(seq![MdEventV::Start(MdTagV::Heading(l)), MdEventV::Text(text), MdEventV::End { code_block: false }])
            == seq![NodeV::Element(KindV::Heading(l), seq![NodeV::Text(text)])],
{
    let e = seq![MdEventV::Start(MdTagV::Heading(l)), MdEventV::Text(text), MdEventV::End { code_block: false }];
    let e1 = e.drop_last().drop_last();
    let e2 = e.drop_last();
    assert(e1.drop_last() =~= Seq::<MdEventV>::empty());
    assert(e1.last() == MdEventV::Start(MdTagV::Heading(l)));
    assert(e2.drop_last() =~= e1);
    assert(e2.last() == MdEventV::Text(text));
    assert(e.last() == MdEventV::End { code_block: false });
    assert(run_spec(e1.drop_last()) == (seq![(OpenedV::Root, Seq::<NodeV>::empty())], None::<Seq<char>>));
    let s0 = run_spec(e1);
    let s1 = run_spec(e.drop_last());
    assert(s0.0 =~= seq![(OpenedV::Root, Seq::<NodeV>::empty()), (OpenedV::Element(KindV::Heading(l)), Seq::<NodeV>::empty())]);
    assert(s0.1 is None);
    assert(s1.0 =~= seq![(OpenedV::Root, Seq::<NodeV>::empty()), (OpenedV::Element(KindV::Heading(l)), seq![NodeV::Text(text)])]);
    let s2 = run_spec(e);
    assert(s2.0 =~= seq![(OpenedV::Root, seq![NodeV::Element(KindV::Heading(l), seq![NodeV::Text(text)])])]);
}

/// The id after `scheme` at the start of `url`, if that is what `url` is.
fn id_after(url: &str, scheme: &str) -> (r: Option<String>)
    ensures
        match r {
            Some(id) => has_prefix(url@, scheme@) && is_id_spec(url@.skip(scheme@.len() as int)) && id@ == url@.skip(
                scheme@.len() as int,
            ),
            None => !(has_prefix(url@, scheme@) && is_id_spec(url@.skip(scheme@.len() as int))),
        },
{
    let cs = chars_of(url);
    if !starts_with_str(cs.as_slice(), scheme) {
        return None;
    }
    let n = scheme.unicode_len();
    let rest = string_of(slice_of(cs.as_slice(), n, cs.len()).as_slice());
    assert(rest@ =~= url@.skip(scheme@.len() as int));
    if is_id(rest.as_str()) {
        Some(rest)
    } else {
        None
    }
}

fn code_lang_of(lang: Option<String>) -> (r: Option<String>)
    ensures
        opt_view(r) == code_lang(opt_view(lang)),
{
    match lang {
        Some(l) => {
            let cs = chars_of(l.as_str());
            if cs.len() > 0 {
                match next_word(cs.as_slice()) {
                    Some((a, b)) => Some(string_of(slice_of(cs.as_slice(), a, b).as_slice())),
                    None => Some(String::new()),
                }
            } else {
                None
            }
        },
        None => None,
    }
}

/// What an element the parser opens becomes (see `open_spec`).
pub fn open_tag(t: MdTag) -> (r: Opened)
    ensures
        opened_view(r) == open_spec(tag_view(t)),
{
    match t {
        MdTag::Paragraph => Opened::Element(Kind::Paragraph),
        MdTag::Heading(l) => Opened::Element(Kind::Heading(l)),
        MdTag::BlockQuote => Opened::Element(Kind::Quote),
        MdTag::CodeBlock(lang) => Opened::Element(Kind::Pre { lang: code_lang_of(lang), text: String::new() }),
        MdTag::List(None) => Opened::Element(Kind::Bullets),
        MdTag::List(Some(n)) => Opened::Element(Kind::Numbered(n)),
        MdTag::Item => Opened::Element(Kind::Item),
        MdTag::Emphasis => Opened::Element(Kind::Emphasis),
        MdTag::Strong => Opened::Element(Kind::Strong),
        MdTag::Strikethrough => Opened::Element(Kind::Deleted),
        MdTag::Table(al) => Opened::Element(Kind::Table(al)),
        MdTag::TableHead => Opened::Element(Kind::Head),
        MdTag::TableRow => Opened::Element(Kind::Row),
        MdTag::TableCell => Opened::Element(Kind::Cell),
        MdTag::Link(url) => match id_after(url.as_str(), FILE_SCHEME) {
            Some(id) => Opened::Element(Kind::File(id)),
            None => if safe_link(url.as_str()) {
                Opened::Element(Kind::Link(url))
            } else {
                Opened::Unwrap
            },
        },
        MdTag::Image(url) => match id_after(url.as_str(), SCHEME) {
            Some(id) => Opened::Element(Kind::Image { id, alt: String::new() }),
            None => Opened::Unwrap,
        },
        MdTag::Other => Opened::Unwrap,
    }
}

/// The open elements with `n` added to the innermost: text right after text
/// joins it.
pub open spec fn push_spec(stack: Seq<(OpenedV, Seq<NodeV>)>, n: NodeV) -> Seq<(OpenedV, Seq<NodeV>)> {
    if stack.len() == 0 {
        stack
    } else {
        let (o, ch) = stack.last();
        let ch2 = match n {
            NodeV::Text(t) => if ch.len() > 0 && ch.last() is Text {
                ch.update(ch.len() - 1, NodeV::Text(ch.last()->Text_0 + t))
            } else {
                ch.push(n)
            },
            _ => ch.push(n),
        };
        stack.update(stack.len() - 1, (o, ch2))
    }
}

/// `push_spec` of each of `ns`, in order.
pub open spec fn push_all(stack: Seq<(OpenedV, Seq<NodeV>)>, ns: Seq<NodeV>) -> Seq<(OpenedV, Seq<NodeV>)>
    decreases ns.len(),
{
    if ns.len() == 0 {
        stack
    } else {
        push_spec(push_all(stack, ns.drop_last()), ns.last())
    }
}

/// The text of the text nodes among `ns`, one after the other.
pub open spec fn alt_of(ns: Seq<NodeV>) -> Seq<char>
    decreases ns.len(),
{
    if ns.len() == 0 {
        Seq::empty()
    } else {
        alt_of(ns.drop_last()) + match ns.last() {
            NodeV::Text(t) => t,
            _ => Seq::empty(),
        }
    }
}

/// The innermost open element closes (the outermost never does). A code
/// block's end gives its `pre` the code read since it opened; an element
/// that is unwrapped leaves what is inside it in its place; an image of the
/// bundle takes the text inside it as its alt text.
pub open spec fn close_spec(stack: Seq<(OpenedV, Seq<NodeV>)>, code: Option<Seq<char>>, code_block: bool) -> (Seq<(OpenedV, Seq<NodeV>)>, Option<Seq<char>>) {
    if stack.len() < 2 {
        (stack, code)
    } else {
        let (o, ch) = stack.last();
        let rest = stack.drop_last();
        if code_block {
            let text = match code {
                Some(c) => c,
                None => Seq::empty(),
            };
            let out = match o {
                OpenedV::Element(KindV::Pre { lang, .. }) => push_spec(rest, NodeV::Element(KindV::Pre { lang, text }, Seq::empty())),
                OpenedV::Element(k) => push_spec(rest, NodeV::Element(k, Seq::empty())),
                _ => rest,
            };
            (out, None)
        } else {
            let out = match o {
                OpenedV::Element(KindV::Image { id, .. }) => push_spec(
                    rest,
                    NodeV::Element(KindV::Image { id, alt: alt_of(ch) }, Seq::empty()),
                ),
                OpenedV::Element(k) => push_spec(rest, NodeV::Element(k, ch)),
                _ => push_all(rest, ch),
            };
            (out, code)
        }
    }
}

/// One event read: the open elements and, inside a code block, its code so
/// far. Text (and raw HTML, which is text here) goes to the code inside a
/// code block, else into the tree.
pub open spec fn step_spec(state: (Seq<(OpenedV, Seq<NodeV>)>, Option<Seq<char>>), e: MdEventV) -> (Seq<(OpenedV, Seq<NodeV>)>, Option<Seq<char>>) {
    let (stack, code) = state;
    match e {
        MdEventV::Start(t) => (stack.push((open_spec(t), Seq::empty())), if t is CodeBlock {
            Some(Seq::empty())
        } else {
            code
        }),
        MdEventV::End { code_block } => close_spec(stack, code, code_block),
        MdEventV::Text(t) => text_spec(stack, code, t),
        MdEventV::Html(t) => text_spec(stack, code, t),
        MdEventV::InlineHtml(t) => text_spec(stack, code, t),
        MdEventV::Code(t) => (push_spec(stack, NodeV::Element(KindV::Code(t), Seq::empty())), code),
        MdEventV::SoftBreak => (push_spec(stack, NodeV::Element(KindV::Break, Seq::empty())), code),
        MdEventV::HardBreak => (push_spec(stack, NodeV::Element(KindV::Break, Seq::empty())), code),
        MdEventV::Rule => (push_spec(stack, NodeV::Element(KindV::Rule, Seq::empty())), code),
        MdEventV::Other => (stack, code),
    }
}

pub open spec fn text_spec(stack: Seq<(OpenedV, Seq<NodeV>)>, code: Option<Seq<char>>, t: Seq<char>) -> (Seq<(OpenedV, Seq<NodeV>)>, Option<Seq<char>>) {
    match code {
        Some(c) => (stack, Some(c + t)),
        None => (push_spec(stack, NodeV::Text(t)), None),
    }
}

/// The state after the events `evs`, from the top of the tree alone.
pub open spec fn run_spec(evs: Seq<MdEventV>) -> (Seq<(OpenedV, Seq<NodeV>)>, Option<Seq<char>>)
    decreases evs.len(),
{
    if evs.len() == 0 {
        (seq![(OpenedV::Root, Seq::empty())], None)
    } else {
        step_spec(run_spec(evs.drop_last()), evs.last())
    }
}

/// The nodes the events make: what is inside the innermost element left open
/// (the top of the tree, for the parser's well nested events).
pub open spec fn tree_spec(evs: Seq<MdEventV>) -> Seq<NodeV> {
    let stack = run_spec(evs).0;
    if stack.len() > 0 {
        stack.last().1
    } else {
        Seq::empty()
    }
}

fn push_node(stack: &mut Vec<(Opened, Vec<Node>)>, node: Node)
    ensures
        stack_view(final(stack)@) == push_spec(stack_view(old(stack)@), node_view(node)),
{
    if stack.len() == 0 {
        return;
    }
    let ghost before = stack@;
    let (o, mut ch) = stack.pop().unwrap();
    let ghost ch0 = ch@;
    proof {
        lemma_nodes_view(ch0);
    }
    match node {
        Node::Text(t) => {
            let n = ch.len();
            if n > 0 && matches!(ch[n - 1], Node::Text(_)) {
                let last = ch.pop().unwrap();
                proof {
                    assert(ch@ == ch0.drop_last());
                    assert(last == ch0[n - 1]);
                    assert(nodes_view(ch0) == nodes_view(ch0.drop_last()).push(node_view(ch0.last())));
                }
                match last {
                    Node::Text(mut s) => {
                        let ghost s0 = s@;
                        push_str(&mut s, t.as_str());
                        let ghost merged = Node::Text(s);
                        ch.push(Node::Text(s));
                        proof {
                            assert(node_view(ch0.last()) == NodeV::Text(s0));
                            assert(ch@.drop_last() == ch0.drop_last());
                            assert(ch@.last() == merged);
                            assert(node_view(merged) == NodeV::Text(s0 + t@));
                            assert(nodes_view(ch@) == nodes_view(ch@.drop_last()).push(node_view(ch@.last())));
                            assert(nodes_view(ch@) == nodes_view(ch0.drop_last()).push(NodeV::Text(s0 + t@)));
                            assert(nodes_view(ch@) =~= nodes_view(ch0).update(
                                n - 1,
                                NodeV::Text(nodes_view(ch0).last()->Text_0 + t@),
                            ));
                        }
                    },
                    Node::Element(k, c) => {
                        assert(false);
                        ch.push(Node::Element(k, c));
                    },
                }
            } else {
                ch.push(Node::Text(t));
                assert(ch@.drop_last() == ch0);
            }
        },
        Node::Element(k, c) => {
            ch.push(Node::Element(k, c));
            assert(ch@.drop_last() == ch0);
        },
    }
    stack.push((o, ch));
    assert(stack_view(stack@) =~= push_spec(stack_view(before), node_view(node)));
}

fn alt_text(ch: &Vec<Node>) -> (r: String)
    ensures
        r@ == alt_of(nodes_view(ch@)),
{
    let mut out = String::new();
    proof {
        lemma_nodes_view(ch@);
    }
    for i in 0..ch.len()
        invariant
            out@ == alt_of(nodes_view(ch@.take(i as int))),
    {
        proof {
            assert(ch@.take(i + 1).drop_last() == ch@.take(i as int));
            assert(ch@.take(i + 1).last() == ch@[i as int]);
            assert(nodes_view(ch@.take(i + 1)) == nodes_view(ch@.take(i as int)).push(node_view(ch@[i as int])));
            assert(nodes_view(ch@.take(i + 1)).drop_last() =~= nodes_view(ch@.take(i as int)));
            assert(nodes_view(ch@.take(i + 1)).last() == node_view(ch@[i as int]));
        }
        match &ch[i] {
            Node::Text(t) => push_str(&mut out, t.as_str()),
            Node::Element(..) => {},
        }
        assert(out@ =~= alt_of(nodes_view(ch@.take(i + 1))));
    }
    assert(ch@.take(ch@.len() as int) == ch@);
    out
}

fn push_children(stack: &mut Vec<(Opened, Vec<Node>)>, ch: Vec<Node>)
    ensures
        stack_view(final(stack)@) == push_all(stack_view(old(stack)@), nodes_view(ch@)),
{
    let ghost given = ch@;
    let ghost start = stack_view(stack@);
    assert(given.take(0) =~= Seq::<Node>::empty());
    for child in it: ch
        invariant
            it.seq() == given,
            stack_view(stack@) == push_all(start, nodes_view(given.take(it.index() as int))),
    {
        let ghost k = it.index() as int;
        proof {
            assert(given.take(k + 1).drop_last() == given.take(k));
            assert(given.take(k + 1).last() == given[k]);
            assert(child == given[k]);
            assert(nodes_view(given.take(k + 1)) == nodes_view(given.take(k)).push(node_view(given[k])));
            assert(nodes_view(given.take(k + 1)).drop_last() =~= nodes_view(given.take(k)));
            assert(nodes_view(given.take(k + 1)).last() == node_view(given[k]));
        }
        push_node(stack, child);
    }
    assert(given.take(given.len() as int) == given);
}

fn close(stack: &mut Vec<(Opened, Vec<Node>)>, code: &mut Option<String>, code_block: bool)
    ensures
        (stack_view(final(stack)@), opt_view(*final(code))) == close_spec(stack_view(old(stack)@), opt_view(*old(code)), code_block),
{
    if stack.len() < 2 {
        return;
    }
    let ghost before = stack@;
    let (o, ch) = stack.pop().unwrap();
    assert(stack_view(stack@) =~= stack_view(before).drop_last());
    if code_block {
        let mut taken: Option<String> = None;
        std::mem::swap(&mut taken, code);
        let text = match taken {
            Some(c) => c,
            None => String::new(),
        };
        match o {
            Opened::Element(Kind::Pre { lang, .. }) => {
                push_node(stack, Node::Element(Kind::Pre { lang, text }, Vec::new()));
            },
            Opened::Element(k) => {
                push_node(stack, Node::Element(k, Vec::new()));
            },
            _ => {},
        }
    } else {
        match o {
            Opened::Element(Kind::Image { id, .. }) => {
                let alt = alt_text(&ch);
                push_node(stack, Node::Element(Kind::Image { id, alt }, Vec::new()));
            },
            Opened::Element(k) => {
                push_node(stack, Node::Element(k, ch));
            },
            _ => {
                push_children(stack, ch);
            },
        }
    }
}

/// The nodes the parser's events make (see `tree_spec`).
pub fn build(events: Vec<MdEvent>) -> (r: Vec<Node>)
    ensures
        nodes_view(r@) == tree_spec(events_view(events@)),
{
    let ghost given = events@;
    let mut stack: Vec<(Opened, Vec<Node>)> = Vec::new();
    stack.push((Opened::Root, Vec::new()));
    let mut code: Option<String> = None;
    assert(given.take(0) =~= Seq::<MdEvent>::empty());
    assert(events_view(given.take(0)) =~= Seq::<MdEventV>::empty());
    assert(stack_view(stack@) =~= seq![(OpenedV::Root, Seq::<NodeV>::empty())]);
    for e in it: events
        invariant
            it.seq() == given,
            (stack_view(stack@), opt_view(code)) == run_spec(events_view(given.take(it.index() as int))),
    {
        let ghost k = it.index() as int;
        let ghost ev = event_view(e);
        proof {
            assert(events_view(given.take(k + 1)) =~= events_view(given.take(k)).push(event_view(given[k])));
            assert(events_view(given.take(k + 1)).drop_last() =~= events_view(given.take(k)));
        }
        let ghost s0 = stack@;
        match e {
            MdEvent::Start(t) => {
                let ghost tv = tag_view(t);
                let starts_code = match &t {
                    MdTag::CodeBlock(_) => true,
                    _ => false,
                };
                if starts_code {
                    code = Some(String::new());
                }
                let o = open_tag(t);
                stack.push((o, Vec::new()));
                assert(stack_view(stack@) =~= stack_view(s0).push((open_spec(tv), Seq::empty())));
            },
            MdEvent::End { code_block } => {
                close(&mut stack, &mut code, code_block);
            },
            MdEvent::Text(t) => {
                add_text(&mut stack, &mut code, t);
            },
            MdEvent::Html(t) => {
                add_text(&mut stack, &mut code, t);
            },
            MdEvent::InlineHtml(t) => {
                add_text(&mut stack, &mut code, t);
            },
            MdEvent::Code(t) => {
                push_node(&mut stack, Node::Element(Kind::Code(t), Vec::new()));
            },
            MdEvent::SoftBreak => {
                push_node(&mut stack, Node::Element(Kind::Break, Vec::new()));
            },
            MdEvent::HardBreak => {
                push_node(&mut stack, Node::Element(Kind::Break, Vec::new()));
            },
            MdEvent::Rule => {
                push_node(&mut stack, Node::Element(Kind::Rule, Vec::new()));
            },
            MdEvent::Other => {},
        }
    }
    assert(given.take(given.len() as int) == given);
    let ghost fin = stack@;
    match stack.pop() {
        Some((_, ch)) => {
            assert(stack_view(fin).last() == (opened_view(fin.last().0), nodes_view(ch@)));
            ch
        },
        None => Vec::new(),
    }
}

fn add_text(stack: &mut Vec<(Opened, Vec<Node>)>, code: &mut Option<String>, t: String)
    ensures
        (stack_view(final(stack)@), opt_view(*final(code))) == text_spec(stack_view(old(stack)@), opt_view(*old(code)), t@),
{
    let mut taken: Option<String> = None;
    std::mem::swap(&mut taken, code);
    match taken {
        Some(mut c) => {
            push_str(&mut c, t.as_str());
            *code = Some(c);
        },
        None => {
            push_node(stack, Node::Text(t));
        },
    }
}

// ---- the parser -----------------------------------------------------------------------

#[verifier::external_type_specification]
#[verifier::external_body]
pub struct ExParserEvent<'a>(ParserEvent<'a>);

#[verifier::external_type_specification]
#[verifier::external_body]
pub struct ExParserTag<'a>(pulldown_cmark::Tag<'a>);

#[verifier::external_type_specification]
#[verifier::external_body]
pub struct ExParserAlignment(pulldown_cmark::Alignment);

/// What `pulldown-cmark` reads in `body` (with tables and strikethrough), as
/// this library's events.
pub uninterp spec fn md_events_of(body: Seq<char>) -> Seq<MdEventV>;

/// `pulldown_cmark::Parser::new_ext` with tables and strikethrough: the
/// events it reads from `body`, in order, each as an `MdEvent`.
#[verifier::external_body]
fn md_events(body: &str) -> (r: Vec<MdEvent>)
    ensures
        events_view(r@) == md_events_of(body@),
{
    let options = pulldown_cmark::Options::ENABLE_TABLES | pulldown_cmark::Options::ENABLE_STRIKETHROUGH;
    let mut out = Vec::new();
    for event in pulldown_cmark::Parser::new_ext(body, options) {
        out.push(event_of(event));
    }
    out
}

/// A `pulldown_cmark::Event` as an `MdEvent`.
#[verifier::external_body]
fn event_of(e: ParserEvent) -> MdEvent {
    match e {
        ParserEvent::Start(t) => MdEvent::Start(tag_of(t)),
        ParserEvent::End(end) => MdEvent::End { code_block: matches!(end, pulldown_cmark::TagEnd::CodeBlock) },
        ParserEvent::Text(s) => MdEvent::Text(s.to_string()),
        ParserEvent::Html(s) => MdEvent::Html(s.to_string()),
        ParserEvent::InlineHtml(s) => MdEvent::InlineHtml(s.to_string()),
        ParserEvent::Code(s) => MdEvent::Code(s.to_string()),
        ParserEvent::SoftBreak => MdEvent::SoftBreak,
        ParserEvent::HardBreak => MdEvent::HardBreak,
        ParserEvent::Rule => MdEvent::Rule,
        _ => MdEvent::Other,
    }
}

/// A block-level `pulldown_cmark::Tag` as an `MdTag` (the others by
/// `span_tag_of`).
#[verifier::external_body]
fn tag_of(t: pulldown_cmark::Tag) -> MdTag {
    match t {
        pulldown_cmark::Tag::Paragraph => MdTag::Paragraph,
        pulldown_cmark::Tag::Heading { level, .. } => MdTag::Heading(level as u8),
        pulldown_cmark::Tag::BlockQuote(_) => MdTag::BlockQuote,
        pulldown_cmark::Tag::CodeBlock(pulldown_cmark::CodeBlockKind::Fenced(l)) => MdTag::CodeBlock(Some(l.to_string())),
        pulldown_cmark::Tag::CodeBlock(pulldown_cmark::CodeBlockKind::Indented) => MdTag::CodeBlock(None),
        pulldown_cmark::Tag::List(start) => MdTag::List(start),
        pulldown_cmark::Tag::Item => MdTag::Item,
        other => span_tag_of(other),
    }
}

/// A table's or an inline `pulldown_cmark::Tag` as an `MdTag`.
#[verifier::external_body]
fn span_tag_of(t: pulldown_cmark::Tag) -> MdTag {
    match t {
        pulldown_cmark::Tag::Table(al) => MdTag::Table(al.iter().map(align_of).collect()),
        pulldown_cmark::Tag::TableHead => MdTag::TableHead,
        pulldown_cmark::Tag::TableRow => MdTag::TableRow,
        pulldown_cmark::Tag::TableCell => MdTag::TableCell,
        pulldown_cmark::Tag::Emphasis => MdTag::Emphasis,
        pulldown_cmark::Tag::Strong => MdTag::Strong,
        pulldown_cmark::Tag::Strikethrough => MdTag::Strikethrough,
        pulldown_cmark::Tag::Link { dest_url, .. } => MdTag::Link(dest_url.to_string()),
        pulldown_cmark::Tag::Image { dest_url, .. } => MdTag::Image(dest_url.to_string()),
        _ => MdTag::Other,
    }
}

/// A `pulldown_cmark::Alignment` as an `Align`.
#[verifier::external_body]
fn align_of(a: &pulldown_cmark::Alignment) -> Align {
    match a {
        pulldown_cmark::Alignment::None => Align::Unset,
        pulldown_cmark::Alignment::Left => Align::Left,
        pulldown_cmark::Alignment::Center => Align::Center,
        pulldown_cmark::Alignment::Right => Align::Right,
    }
}

/// The nodes of a comment's Markdown `body`: what `pulldown-cmark` reads in
/// it, built into a tree (see `tree_spec`).
pub fn tree(body: &str) -> (r: Vec<Node>)
    ensures
        nodes_view(r@) == tree_spec(md_events_of(body@)),
{
    build(md_events(body))
}

// ---- nothing a comment says can run ---------------------------------------------------

/// Whether an element may stand in the tree: a link goes to `http`, `https`
/// or `mailto`, and a file or an image is one of the bundle's, by id.
pub open spec fn kind_ok(k: KindV) -> bool {
    match k {
        KindV::Link(href) => safe_link_spec(href),
        KindV::File(id) => is_id_spec(id),
        KindV::Image { id, .. } => is_id_spec(id),
        _ => true,
    }
}

pub open spec fn node_ok(n: NodeV) -> bool
    decreases n,
{
    match n {
        NodeV::Text(_) => true,
        NodeV::Element(k, ch) => kind_ok(k) && all_ok(ch),
    }
}

pub open spec fn all_ok(ns: Seq<NodeV>) -> bool
    decreases ns,
{
    if ns.len() == 0 {
        true
    } else {
        all_ok(ns.drop_last()) && node_ok(ns.last())
    }
}

pub open spec fn opened_ok(o: OpenedV) -> bool {
    match o {
        OpenedV::Element(k) => kind_ok(k),
        _ => true,
    }
}

pub open spec fn stack_ok(stack: Seq<(OpenedV, Seq<NodeV>)>) -> bool {
    forall|i: int| 0 <= i < stack.len() ==> opened_ok(#[trigger] stack[i].0) && all_ok(stack[i].1)
}

proof fn lemma_all_ok(ns: Seq<NodeV>)
    ensures
        all_ok(ns) <==> forall|i: int| 0 <= i < ns.len() ==> node_ok(#[trigger] ns[i]),
    decreases ns.len(),
{
    if ns.len() > 0 {
        lemma_all_ok(ns.drop_last());
        if all_ok(ns) {
            assert forall|i: int| 0 <= i < ns.len() implies node_ok(#[trigger] ns[i]) by {
                if i < ns.len() - 1 {
                    assert(ns.drop_last()[i] == ns[i]);
                }
            }
        }
        if forall|i: int| 0 <= i < ns.len() ==> node_ok(#[trigger] ns[i]) {
            assert forall|i: int| 0 <= i < ns.drop_last().len() implies node_ok(#[trigger] ns.drop_last()[i]) by {
                assert(ns.drop_last()[i] == ns[i]);
            }
            assert(node_ok(ns[ns.len() - 1]));
        }
    }
}

proof fn lemma_push_ok(stack: Seq<(OpenedV, Seq<NodeV>)>, n: NodeV)
    requires
        stack_ok(stack),
        node_ok(n),
    ensures
        stack_ok(push_spec(stack, n)),
{
    if stack.len() > 0 {
        let (o, ch) = stack.last();
        assert(opened_ok(stack[stack.len() - 1].0) && all_ok(stack[stack.len() - 1].1));
        lemma_all_ok(ch);
        let ch2 = match n {
            NodeV::Text(t) => if ch.len() > 0 && ch.last() is Text {
                ch.update(ch.len() - 1, NodeV::Text(ch.last()->Text_0 + t))
            } else {
                ch.push(n)
            },
            _ => ch.push(n),
        };
        assert forall|i: int| 0 <= i < ch2.len() implies node_ok(#[trigger] ch2[i]) by {
            if i < ch.len() && ch2[i] == ch[i] {
            }
        }
        lemma_all_ok(ch2);
        let out = push_spec(stack, n);
        assert forall|i: int| 0 <= i < out.len() implies opened_ok(#[trigger] out[i].0) && all_ok(out[i].1) by {
            if i < stack.len() - 1 {
                assert(out[i] == stack[i]);
            }
        }
    }
}

proof fn lemma_push_all_ok(stack: Seq<(OpenedV, Seq<NodeV>)>, ns: Seq<NodeV>)
    requires
        stack_ok(stack),
        all_ok(ns),
    ensures
        stack_ok(push_all(stack, ns)),
    decreases ns.len(),
{
    if ns.len() > 0 {
        lemma_push_all_ok(stack, ns.drop_last());
        lemma_push_ok(push_all(stack, ns.drop_last()), ns.last());
    }
}

proof fn lemma_open_ok(t: MdTagV)
    ensures
        opened_ok(open_spec(t)),
{
}

proof fn lemma_step_ok(state: (Seq<(OpenedV, Seq<NodeV>)>, Option<Seq<char>>), e: MdEventV)
    requires
        stack_ok(state.0),
    ensures
        stack_ok(step_spec(state, e).0),
{
    let (stack, code) = state;
    match e {
        MdEventV::Start(t) => {
            lemma_open_ok(t);
            let out = stack.push((open_spec(t), Seq::<NodeV>::empty()));
            assert forall|i: int| 0 <= i < out.len() implies opened_ok(#[trigger] out[i].0) && all_ok(out[i].1) by {
                if i < stack.len() {
                    assert(out[i] == stack[i]);
                }
            }
        },
        MdEventV::End { code_block } => {
            if stack.len() >= 2 {
                let (o, ch) = stack.last();
                let rest = stack.drop_last();
                assert(opened_ok(stack[stack.len() - 1].0) && all_ok(stack[stack.len() - 1].1));
                assert(stack_ok(rest)) by {
                    assert forall|i: int| 0 <= i < rest.len() implies opened_ok(#[trigger] rest[i].0) && all_ok(rest[i].1) by {
                        assert(rest[i] == stack[i]);
                    }
                }
                assert(all_ok(Seq::<NodeV>::empty()));
                if code_block {
                    match o {
                        OpenedV::Element(KindV::Pre { lang, .. }) => {
                            let text = match code {
                                Some(c) => c,
                                None => Seq::empty(),
                            };
                            lemma_push_ok(rest, NodeV::Element(KindV::Pre { lang, text }, Seq::empty()));
                        },
                        OpenedV::Element(k) => {
                            lemma_push_ok(rest, NodeV::Element(k, Seq::empty()));
                        },
                        _ => {},
                    }
                } else {
                    match o {
                        OpenedV::Element(KindV::Image { id, .. }) => {
                            lemma_push_ok(rest, NodeV::Element(KindV::Image { id, alt: alt_of(ch) }, Seq::empty()));
                        },
                        OpenedV::Element(k) => {
                            lemma_push_ok(rest, NodeV::Element(k, ch));
                        },
                        _ => {
                            lemma_push_all_ok(rest, ch);
                        },
                    }
                }
            }
        },
        MdEventV::Text(t) => {
            if code is None {
                lemma_push_ok(stack, NodeV::Text(t));
            }
        },
        MdEventV::Html(t) => {
            if code is None {
                lemma_push_ok(stack, NodeV::Text(t));
            }
        },
        MdEventV::InlineHtml(t) => {
            if code is None {
                lemma_push_ok(stack, NodeV::Text(t));
            }
        },
        MdEventV::Code(t) => {
            assert(all_ok(Seq::<NodeV>::empty()));
            lemma_push_ok(stack, NodeV::Element(KindV::Code(t), Seq::empty()));
        },
        MdEventV::SoftBreak => {
            assert(all_ok(Seq::<NodeV>::empty()));
            lemma_push_ok(stack, NodeV::Element(KindV::Break, Seq::empty()));
        },
        MdEventV::HardBreak => {
            assert(all_ok(Seq::<NodeV>::empty()));
            lemma_push_ok(stack, NodeV::Element(KindV::Break, Seq::empty()));
        },
        MdEventV::Rule => {
            assert(all_ok(Seq::<NodeV>::empty()));
            lemma_push_ok(stack, NodeV::Element(KindV::Rule, Seq::empty()));
        },
        MdEventV::Other => {},
    }
}

proof fn lemma_run_ok(evs: Seq<MdEventV>)
    ensures
        stack_ok(run_spec(evs).0),
    decreases evs.len(),
{
    if evs.len() == 0 {
        let s = seq![(OpenedV::Root, Seq::<NodeV>::empty())];
        assert(all_ok(Seq::<NodeV>::empty()));
        assert forall|i: int| 0 <= i < s.len() implies opened_ok(#[trigger] s[i].0) && all_ok(s[i].1) by {
        }
    } else {
        lemma_run_ok(evs.drop_last());
        lemma_step_ok(run_spec(evs.drop_last()), evs.last());
    }
}

/// Nothing a comment says can run: whatever the parser tells, every link of
/// the tree goes to `http`, `https` or `mailto`, and every file and image it
/// names is one of the bundle's, by id (the tree has no HTML element: raw
/// HTML is text).
pub proof fn lemma_tree_is_safe(evs: Seq<MdEventV>)
    ensures
        all_ok(tree_spec(evs)),
{
    lemma_run_ok(evs);
    let stack = run_spec(evs).0;
    if stack.len() > 0 {
        assert(opened_ok(stack[stack.len() - 1].0) && all_ok(stack[stack.len() - 1].1));
    } else {
        assert(all_ok(Seq::<NodeV>::empty()));
    }
}

} // verus!
