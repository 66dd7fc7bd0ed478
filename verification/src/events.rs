use vstd::prelude::*;

verus! {

/// The tag of a structural Markdown event: a block or span construct that is
/// opened by a start event and closed by an end event.
#[derive(Debug, Clone, PartialEq)]
pub enum MdTag {
    Paragraph,
    Rule,
    /// A heading; the field is its level (1 for a document title).
    Header(i32),
    BlockQuote,
    /// A fenced or indented code block; the field is the fence's language hint.
    CodeBlock(String),
    /// A list; for an ordered list the field is the number of the first item.
    List(Option<usize>),
    Item,
    FootnoteDefinition(String),
    Table,
    TableHead,
    TableRow,
    TableCell,
    Emphasis,
    Strong,
    /// An inline code span.
    Code,
    /// A link: destination URL and title.
    Link(String, String),
    /// An image: destination URL and title.
    Image(String, String),
}

/// One structural unit of a Markdown document in document order: a text run,
/// a tag opening or closing, raw HTML, or a break.
#[derive(Debug, Clone, PartialEq)]
pub enum MdEvent {
    Start(MdTag),
    End(MdTag),
    Text(String),
    Html(String),
    InlineHtml(String),
    FootnoteReference(String),
    SoftBreak,
    HardBreak,
}

/// The mathematical value of an `MdTag`: the same shape over sequences of
/// characters.
pub enum TagV {
    Paragraph,
    Rule,
    Header(i32),
    BlockQuote,
    CodeBlock(Seq<char>),
    List(Option<usize>),
    Item,
    FootnoteDefinition(Seq<char>),
    Table,
    TableHead,
    TableRow,
    TableCell,
    Emphasis,
    Strong,
    Code,
    Link(Seq<char>, Seq<char>),
    Image(Seq<char>, Seq<char>),
}

/// The mathematical value of an `MdEvent`.
pub enum EventV {
    Start(TagV),
    End(TagV),
    Text(Seq<char>),
    Html(Seq<char>),
    InlineHtml(Seq<char>),
    FootnoteReference(Seq<char>),
    SoftBreak,
    HardBreak,
}

impl View for MdTag {
    type V = TagV;

    open spec fn view(&self) -> TagV {
        match self {
            MdTag::Paragraph => TagV::Paragraph,
            MdTag::Rule => TagV::Rule,
            MdTag::Header(level) => TagV::Header(*level),
            MdTag::BlockQuote => TagV::BlockQuote,
            MdTag::CodeBlock(lang) => TagV::CodeBlock(lang@),
            MdTag::List(start) => TagV::List(*start),
            MdTag::Item => TagV::Item,
            MdTag::FootnoteDefinition(name) => TagV::FootnoteDefinition(name@),
            MdTag::Table => TagV::Table,
            MdTag::TableHead => TagV::TableHead,
            MdTag::TableRow => TagV::TableRow,
            MdTag::TableCell => TagV::TableCell,
            MdTag::Emphasis => TagV::Emphasis,
            MdTag::Strong => TagV::Strong,
            MdTag::Code => TagV::Code,
            MdTag::Link(url, title) => TagV::Link(url@, title@),
            MdTag::Image(url, title) => TagV::Image(url@, title@),
        }
    }
}

impl View for MdEvent {
    type V = EventV;

    open spec fn view(&self) -> EventV {
        match self {
            MdEvent::Start(tag) => EventV::Start(tag@),
            MdEvent::End(tag) => EventV::End(tag@),
            MdEvent::Text(text) => EventV::Text(text@),
            MdEvent::Html(html) => EventV::Html(html@),
            MdEvent::InlineHtml(html) => EventV::InlineHtml(html@),
            MdEvent::FootnoteReference(name) => EventV::FootnoteReference(name@),
            MdEvent::SoftBreak => EventV::SoftBreak,
            MdEvent::HardBreak => EventV::HardBreak,
        }
    }
}

/// The values of a sequence of events.
pub open spec fn events_view(events: Seq<MdEvent>) -> Seq<EventV> {
    events.map_values(|e: MdEvent| e@)
}

/// The value of an optional string.
pub open spec fn opt_view(s: Option<String>) -> Option<Seq<char>> {
    match s {
        Some(t) => Some(t@),
        None => None,
    }
}

} // verus!
