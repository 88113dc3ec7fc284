//! The Markdown events that the preprocessors read, and the calls into
//! `pulldown_cmark` that produce them.
use vstd::prelude::*;
use pulldown_cmark::{CodeBlockKind, Event, LinkType, Options, Parser, Tag, TagEnd};

verus! {

/// What an event of the Markdown parser is, as far as the preprocessors
/// care: the start of a link, its end, the start of a fenced code block,
/// the end of a code block, or anything else.
#[derive(Debug)]
pub enum MdTag {
    /// `Event::Start(Tag::Link { .. })`.
    Link { autolink: bool, dest_url: String, title: String },
    /// `Event::End(TagEnd::Link)`.
    LinkEnd,
    /// `Event::Start(Tag::CodeBlock(CodeBlockKind::Fenced(info)))`.
    FencedCode { info: String },
    /// `Event::End(TagEnd::CodeBlock)`.
    CodeEnd,
    /// Any other event.
    Other,
}

/// An event with the byte range of the source text that it covers.
#[derive(Debug)]
pub struct MdEvent {
    pub tag: MdTag,
    pub start: usize,
    pub end: usize,
}

/// What an event tag holds, as mathematical values.
pub enum MdTagView {
    Link { autolink: bool, dest_url: Seq<char>, title: Seq<char> },
    LinkEnd,
    FencedCode { info: Seq<char> },
    CodeEnd,
    Other,
}

/// What an event holds, as mathematical values.
pub struct MdEventView {
    pub tag: MdTagView,
    pub start: usize,
    pub end: usize,
}

pub open spec fn md_tag_view(t: MdTag) -> MdTagView {
    match t {
        MdTag::Link { autolink, dest_url, title } => MdTagView::Link { autolink, dest_url: dest_url@, title: title@ },
        MdTag::LinkEnd => MdTagView::LinkEnd,
        MdTag::FencedCode { info } => MdTagView::FencedCode { info: info@ },
        MdTag::CodeEnd => MdTagView::CodeEnd,
        MdTag::Other => MdTagView::Other,
    }
}

pub open spec fn md_event_view(e: MdEvent) -> MdEventView {
    MdEventView { tag: md_tag_view(e.tag), start: e.start, end: e.end }
}

pub open spec fn md_events_view(s: Seq<MdEvent>) -> Seq<MdEventView> {
    s.map_values(|e: MdEvent| md_event_view(e))
}

/// The events, with their source ranges, that `pulldown_cmark` produces for
/// `text` with its default options.
pub uninterp spec fn markdown_events(text: Seq<char>) -> Seq<MdEventView>;

/// The HTML that `pulldown_cmark` renders for the Markdown `text`.
pub uninterp spec fn markdown_html(text: Seq<char>) -> Seq<char>;

/// Whether the first event that `pulldown_cmark` produces for `text`, with
/// tables enabled, is the start of a table.
pub uninterp spec fn opens_with_table(text: Seq<char>) -> bool;

/// Runs `pulldown_cmark::Parser::new(text).into_offset_iter()` and turns
/// every event into an [`MdEvent`]. Claimed: the result is
/// [`markdown_events`] of the text; nothing is claimed of the ranges.
#[verifier::external_body]
pub(crate) fn parse_markdown(text: &str) -> (events: Vec<MdEvent>)
    ensures
        md_events_view(events@) == markdown_events(text@),
{
    let mut events = Vec::new();
    for (e, r) in Parser::new(text).into_offset_iter() {
        let tag = match e {
            Event::Start(Tag::Link { link_type: t, dest_url: d, title: ti, .. }) =>
                MdTag::Link { autolink: t == LinkType::Autolink, dest_url: d.into_string(), title: ti.into_string() },
            Event::End(TagEnd::Link) => MdTag::LinkEnd,
            Event::Start(Tag::CodeBlock(CodeBlockKind::Fenced(i))) => MdTag::FencedCode { info: i.into_string() },
            Event::End(TagEnd::CodeBlock) => MdTag::CodeEnd,
            _ => MdTag::Other,
        };
        events.push(MdEvent { tag, start: r.start, end: r.end });
    }
    events
}

/// Renders `text` with `pulldown_cmark::html::write_html_fmt` over
/// `Parser::new(text)` into a fresh `String`. Writing into a `String`
/// cannot fail: the writer that `write_html_fmt` uses passes every write on
/// to the `String`, which never reports an error (`push_html` of the same
/// crate unwraps this very call), so the result of the call carries no
/// information. Claimed: the string is [`markdown_html`] of the text.
#[verifier::external_body]
pub(crate) fn render_html(text: &str) -> (html: String)
    ensures
        html@ == markdown_html(text@),
{
    let mut out = String::new();
    let _ = pulldown_cmark::html::write_html_fmt(&mut out, Parser::new(text));
    out
}

/// Asks `Parser::new_ext(text, Options::ENABLE_TABLES)` for its first event
/// and tells whether it is `Event::Start(Tag::Table(_))`. Claimed: the
/// answer is [`opens_with_table`] of the text.
#[verifier::external_body]
pub(crate) fn starts_with_table(text: &str) -> (b: bool)
    ensures
        b == opens_with_table(text@),
{
    match Parser::new_ext(text, Options::ENABLE_TABLES).next() {
        Some(Event::Start(Tag::Table(_))) => true,
        _ => false,
    }
}

} // verus!
