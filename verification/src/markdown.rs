//! Markdown as a sequence of events: reading it from text and writing it back.

use pulldown_cmark::Event::{Code, End, Html, Start, Text};
use pulldown_cmark::TagEnd::{CodeBlock, DefinitionList, DefinitionListTitle, Heading, Image, Link};
use pulldown_cmark::{Options, Parser};
use pulldown_cmark_to_cmark::cmark;
use vstd::prelude::*;

verus! {

/// An element that encloses other events, as far as the linker tells them apart.
#[derive(Clone, Copy, Debug, PartialEq, Eq, Structural)]
pub enum Tag {
    CodeBlock,
    Link,
    Image,
    Heading,
    DefinitionList,
    DefinitionListTitle,
    /// Any other element.
    Other,
}

/// One event of a Markdown document.
///
/// Events that carry more than the linker reads hold the position at which they stand in the
/// parsed document; they are found again by it when the document is written.
#[derive(Debug, PartialEq, Eq)]
pub enum Event {
    /// The start of an element.
    Start(Tag, usize),
    /// The end of an element.
    End(Tag, usize),
    /// A run of text.
    Text(String),
    /// Inline code.
    Code(String),
    /// HTML that a link is written as.
    Html(String),
    /// Any other event.
    Other(usize),
}

/// What an [`Event`] holds.
pub enum EventView {
    Start(Tag, usize),
    End(Tag, usize),
    Text(Seq<char>),
    Code(Seq<char>),
    Html(Seq<char>),
    Other(usize),
}

impl View for Event {
    type V = EventView;

    open spec fn view(&self) -> EventView {
        match self {
            Event::Start(tag, at) => EventView::Start(*tag, *at),
            Event::End(tag, at) => EventView::End(*tag, *at),
            Event::Text(text) => EventView::Text(text@),
            Event::Code(text) => EventView::Code(text@),
            Event::Html(html) => EventView::Html(html@),
            Event::Other(at) => EventView::Other(*at),
        }
    }
}

impl Clone for Event {
    fn clone(&self) -> (r: Self)
        ensures
            r@ == self@,
    {
        match self {
            Event::Start(tag, at) => Event::Start(*tag, *at),
            Event::End(tag, at) => Event::End(*tag, *at),
            Event::Text(text) => Event::Text(text.clone()),
            Event::Code(text) => Event::Code(text.clone()),
            Event::Html(html) => Event::Html(html.clone()),
            Event::Other(at) => Event::Other(*at),
        }
    }
}

/// What each of `events` holds.
pub open spec fn views(events: Seq<Event>) -> Seq<EventView> {
    events.map_values(|event: Event| event@)
}

/// The position in the parsed document that `event` refers to, if it refers to one.
pub open spec fn position(event: EventView) -> Option<usize> {
    match event {
        EventView::Start(_, at) => Some(at),
        EventView::End(_, at) => Some(at),
        EventView::Other(at) => Some(at),
        _ => None,
    }
}

/// Whether every event that refers to a position in `document` is the event that stands there.
pub open spec fn drawn_from(events: Seq<EventView>, document: Seq<EventView>) -> bool {
    forall|i: int|
        #![trigger events[i]]
        0 <= i < events.len() ==> (position(events[i]) matches Some(at) ==> at < document.len()
            && events[i] == document[at as int])
}

/// How many links and images are open, and whether a heading is.
pub struct OpenElements {
    pub links: nat,
    pub images: nat,
    pub heading: bool,
}

/// Outside every link, image and heading.
pub open spec fn nothing_open() -> OpenElements {
    OpenElements { links: 0, images: 0, heading: false }
}

/// What is open after `event`, where `open` is open before it. `None` where the event cannot stand
/// there: a heading within a heading, or the end of a link, an image or a heading that is not open.
pub open spec fn open_after(open: OpenElements, event: EventView) -> Option<OpenElements> {
    match event {
        EventView::Start(Tag::Link, _) => Some(OpenElements { links: open.links + 1, ..open }),
        EventView::Start(Tag::Image, _) => Some(OpenElements { images: open.images + 1, ..open }),
        EventView::Start(Tag::Heading, _) => if open.heading {
            None
        } else {
            Some(OpenElements { heading: true, ..open })
        },
        EventView::End(Tag::Link, _) => if open.links == 0 {
            None
        } else {
            Some(OpenElements { links: (open.links - 1) as nat, ..open })
        },
        EventView::End(Tag::Image, _) => if open.images == 0 {
            None
        } else {
            Some(OpenElements { images: (open.images - 1) as nat, ..open })
        },
        EventView::End(Tag::Heading, _) => if open.heading {
            Some(OpenElements { heading: false, ..open })
        } else {
            None
        },
        _ => Some(open),
    }
}

/// What is open after `events`, where `open` is open before them; `None` where one of them cannot
/// stand where it does.
pub open spec fn open_after_all(open: OpenElements, events: Seq<EventView>) -> Option<OpenElements>
    decreases events.len(),
{
    if events.len() == 0 {
        Some(open)
    } else {
        match open_after_all(open, events.drop_last()) {
            Some(before) => open_after(before, events.last()),
            None => None,
        }
    }
}

/// Whether `events` can be written as Markdown: every event can stand where it does.
pub open spec fn writable(events: Seq<EventView>) -> bool {
    open_after_all(nothing_open(), events) is Some
}

/// Definition lists.
pub const ENABLE_DEFINITION_LIST: u32 = 0x1000;

/// Tables.
pub const ENABLE_TABLES: u32 = 0x0002;

/// Footnotes.
pub const ENABLE_FOOTNOTES: u32 = 0x0004;

/// Strikethrough.
pub const ENABLE_STRIKETHROUGH: u32 = 0x0008;

/// Task lists.
pub const ENABLE_TASKLISTS: u32 = 0x0010;

/// Block quotes that are alerts, such as `> [!NOTE]`.
pub const ENABLE_GFM: u32 = 0x0800;

/// The extensions that chapters are read with, as the bits of `pulldown_cmark::Options`.
pub open spec fn chapter_options() -> u32 {
    ENABLE_DEFINITION_LIST | ENABLE_TABLES | ENABLE_FOOTNOTES | ENABLE_STRIKETHROUGH
        | ENABLE_TASKLISTS | ENABLE_GFM
}

/// The extensions that chapters are read with, as the bits of `pulldown_cmark::Options`.
///
/// Alerts are among them so that they come back as alerts when a chapter is written, and not as
/// plain block quotes.
pub fn markdown_options() -> (options: u32)
    ensures
        options == chapter_options(),
{
    ENABLE_DEFINITION_LIST | ENABLE_TABLES | ENABLE_FOOTNOTES | ENABLE_STRIKETHROUGH
        | ENABLE_TASKLISTS | ENABLE_GFM
}

/// The events of the document `content`, read with the extensions `options`.
pub uninterp spec fn parsed(content: Seq<char>, options: u32) -> Seq<EventView>;

/// Calls `pulldown_cmark::Parser::new_ext` and collects its events. The events are a function of
/// the text and of the extensions, and each that holds a position holds its own.
#[verifier::external_body]
pub(crate) fn parse_markdown(content: &str, options: u32) -> (events: Vec<Event>)
    ensures
        views(events@) == parsed(content@, options),
        drawn_from(views(events@), views(events@)),
{
    let kind = |tag| match tag {
        CodeBlock => Tag::CodeBlock, Heading(_) => Tag::Heading,
        Link => Tag::Link, Image => Tag::Image,
        DefinitionList => Tag::DefinitionList,
        DefinitionListTitle => Tag::DefinitionListTitle,
        _ => Tag::Other,
    };
    Parser::new_ext(content, Options::from_bits_truncate(options)).enumerate().map(|(at, event)| match event {
        Start(tag) => Event::Start(kind(tag.to_end()), at),
        End(tag) => Event::End(kind(tag), at),
        Text(text) => Event::Text(text.into_string()),
        Code(text) => Event::Code(text.into_string()),
        _ => Event::Other(at),
    }).collect()
}

/// An error of `pulldown_cmark_to_cmark`.
#[verifier::external_type_specification]
#[verifier::external_body]
pub struct ExSerializeError(pulldown_cmark_to_cmark::Error);

/// The text that `events` are written as, where those with a position stand in the document
/// `content`, read with the extensions `options`; `None` where they cannot be written.
pub uninterp spec fn serialized(
    content: Seq<char>,
    options: u32,
    events: Seq<EventView>,
) -> Option<Seq<char>>;

/// Calls `pulldown_cmark_to_cmark::cmark`. An event with a position is handed over as the event
/// at that position in what `pulldown_cmark::Parser::new_ext` reads from `content`. The result is
/// a function of the events and of that document. It is an error exactly where a heading starts
/// within a heading, or where a link, an image or a heading ends that is not open; writing to a
/// `String` does not fail.
#[verifier::external_body]
pub(crate) fn serialize_markdown(content: &str, options: u32, events: &Vec<Event>) -> (r: Result<
    String,
    pulldown_cmark_to_cmark::Error,
>)
    requires
        drawn_from(views(events@), parsed(content@, options)),
    ensures
        match r {
            Ok(text) => serialized(content@, options, views(events@)) == Some(text@),
            Err(_) => serialized(content@, options, views(events@)) is None,
        },
        r is Ok <==> writable(views(events@)),
{
    let parser = Parser::new_ext(content, Options::from_bits_truncate(options));
    let document: Vec<_> = parser.collect();
    let restored = events.iter().map(|event| match event {
        Event::Start(_, at) | Event::End(_, at) | Event::Other(at) => document[*at].clone(),
        Event::Text(text) => Text(text.as_str().into()),
        Event::Code(text) => Code(text.as_str().into()),
        Event::Html(html) => Html(html.as_str().into()),
    });
    let mut output = String::new();
    cmark(restored, &mut output)?;
    Ok(output)
}

} // verus!
