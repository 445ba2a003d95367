//! Walking the events of a chapter and linking the glossary terms in its text.

use crate::config::{Config, ConfigView};
use crate::definition_lists;
use crate::definition_lists::sort_definition_lists;
use crate::error::TermlinkError;
use crate::glossary;
use crate::glossary::{Glossary, Term, TermView};
use crate::linking_laws;
use crate::markdown;
use crate::markdown::{markdown_options, parse_markdown, serialize_markdown, Event, EventView, Tag};
use crate::matcher;
use crate::matcher::find_term;
use crate::order;
use crate::render;
use crate::render::render_term_html;
use crate::text;
use vstd::hash_set::StringHashSet;
use vstd::prelude::*;
use vstd::utf8::*;

verus! {

/// The anchors of the terms that a chapter links already.
pub struct LinkedTerms {
    anchors: StringHashSet,
}

impl View for LinkedTerms {
    type V = Set<Seq<char>>;

    closed spec fn view(&self) -> Set<Seq<char>> {
        self.anchors@
    }
}

impl LinkedTerms {
    /// No term is linked yet.
    pub fn new() -> (r: LinkedTerms)
        ensures
            r@ == Set::<Seq<char>>::empty(),
    {
        LinkedTerms { anchors: StringHashSet::new() }
    }

    /// Whether the term with this anchor is linked already.
    pub fn contains(&self, anchor: &str) -> (r: bool)
        ensures
            r == self@.contains(anchor@),
    {
        self.anchors.contains(anchor)
    }

    /// Notes that the term with this anchor is linked.
    pub fn insert(&mut self, anchor: &str)
        ensures
            final(self)@ == old(self)@.insert(anchor@),
    {
        self.anchors.insert(anchor.to_owned());
    }
}

/// A part of a text, in bytes, and the HTML to put in its place.
#[derive(Debug)]
pub struct LinkMatch {
    pub start: usize,
    pub end: usize,
    pub html: String,
}

/// What a [`LinkMatch`] holds.
pub struct MatchView {
    pub start: usize,
    pub end: usize,
    pub html: Seq<char>,
}

impl View for LinkMatch {
    type V = MatchView;

    open spec fn view(&self) -> MatchView {
        MatchView { start: self.start, end: self.end, html: self.html@ }
    }
}

/// What each of `matches` holds.
pub open spec fn match_views(matches: Seq<LinkMatch>) -> Seq<MatchView> {
    matches.map_values(|m: LinkMatch| m@)
}

/// Whether a match starts no later than it ends, both between two characters of `text`.
pub open spec fn fits(m: MatchView, text: Seq<char>) -> bool {
    &&& m.start <= m.end
    &&& text::boundary(text, m.start as int)
    &&& text::boundary(text, m.end as int)
}

/// Whether every match lies within `text`.
pub open spec fn all_fit(matches: Seq<MatchView>, text: Seq<char>) -> bool {
    forall|i: int| #![trigger matches[i]] 0 <= i < matches.len() ==> fits(matches[i], text)
}

/// The order of matches by where they start.
pub open spec fn by_start() -> spec_fn(MatchView, MatchView) -> bool {
    |a: MatchView, b: MatchView| a.start <= b.start
}

/// The text of `text` from byte `from` up to byte `to`, as an event, if there is any.
pub open spec fn text_between(text: Seq<char>, from: int, to: int) -> Seq<EventView> {
    if from < to {
        seq![EventView::Text(text::byte_slice(text, from, to))]
    } else {
        seq![]
    }
}

/// `text` from byte `from` on, with the HTML of each match in place of what it matches. A match
/// that starts before the one before it ends is left out.
pub open spec fn spliced_from(text: Seq<char>, matches: Seq<MatchView>, from: int) -> Seq<EventView>
    decreases matches.len(),
{
    if matches.len() == 0 {
        text_between(text, from, encode_utf8(text).len() as int)
    } else {
        let m = matches.first();
        if m.start < from {
            spliced_from(text, matches.drop_first(), from)
        } else {
            text_between(text, from, m.start as int) + seq![EventView::Html(m.html)]
                + spliced_from(text, matches.drop_first(), m.end as int)
        }
    }
}

/// `text` with the HTML of the matches in place of what they match: those that start earlier take
/// precedence, and of those that start together, the first.
pub open spec fn spliced(text: Seq<char>, matches: Seq<MatchView>) -> Seq<EventView> {
    let events = spliced_from(text, order::sort_stable(matches, by_start()), 0);
    if events.len() == 0 {
        seq![EventView::Text(text)]
    } else {
        events
    }
}

/// The matches found so far in a text, and the anchors of the terms that are linked with them.
pub struct Collected {
    pub matches: Seq<MatchView>,
    pub linked: Set<Seq<char>>,
}

/// The first occurrence in `text` of each of `terms`, in their order. Where only the first
/// occurrence in a chapter is linked, terms that are `linked` already are passed over.
pub open spec fn collected(
    text: Seq<char>,
    terms: Seq<TermView>,
    glossary_path: Seq<char>,
    config: ConfigView,
    linked: Set<Seq<char>>,
) -> Collected
    decreases terms.len(),
{
    if terms.len() == 0 {
        Collected { matches: seq![], linked }
    } else {
        let before = collected(text, terms.drop_last(), glossary_path, config, linked);
        let term = terms.last();
        if config.link_first_only && before.linked.contains(term.anchor) {
            before
        } else {
            match matcher::term_match(term, config.case_sensitive, text) {
                Some((start, end)) => Collected {
                    matches: before.matches.push(
                        MatchView {
                            start,
                            end,
                            html: render::term_html(
                                term,
                                text::byte_slice(text, start as int, end as int),
                                glossary_path,
                                config,
                            ),
                        },
                    ),
                    linked: before.linked.insert(term.anchor),
                },
                None => before,
            }
        }
    }
}

/// Puts `m` behind every match that does not start later.
fn insert_match(matches: &mut Vec<LinkMatch>, m: LinkMatch)
    ensures
        match_views(final(matches)@) == order::insert_stable(
            match_views(old(matches)@),
            m@,
            by_start(),
        ),
        exists|at: int|
            0 <= at <= old(matches)@.len() && final(matches)@ == #[trigger] old(matches)@.insert(
                at,
                m,
            ),
{
    let mut at: usize = matches.len();
    while at > 0 && matches[at - 1].start > m.start
        invariant
            at <= matches.len(),
            matches@ == old(matches)@,
            forall|j: int|
                #![trigger match_views(matches@)[j]]
                at <= j < matches.len() ==> !by_start()(match_views(matches@)[j], m@),
        decreases at,
    {
        at -= 1;
    }
    proof {
        order::lemma_insert_at(match_views(matches@), m@, by_start(), at as int);
        assert(match_views(matches@.insert(at as int, m)) == match_views(matches@).insert(
            at as int,
            m@,
        ));
    }
    matches.insert(at, m);
}

/// Appends a run of text to `events`.
fn push_text(events: &mut Vec<Event>, text: &str)
    ensures
        markdown::views(final(events)@) == markdown::views(old(events)@).push(
            EventView::Text(text@),
        ),
{
    let event = Event::Text(text.to_owned());
    assert(markdown::views(events@.push(event)) == markdown::views(events@).push(event@));
    events.push(event);
}

/// The events of `text` with the HTML of each of `matches` in place of what it matches.
///
/// HTML stays in events of its own, apart from the text around it.
pub fn splice_matches(text: &str, matches: Vec<LinkMatch>) -> (events: Vec<Event>)
    requires
        all_fit(match_views(matches@), text@),
    ensures
        markdown::views(events@) == spliced(text@, match_views(matches@)),
{
    let ghost given = match_views(matches@);
    let mut sorted: Vec<LinkMatch> = Vec::new();
    assert(match_views(sorted@) == order::sort_stable(given.take(0), by_start()));
    for m in it: matches.into_iter()
        invariant
            it.seq() == matches@,
            given == match_views(matches@),
            match_views(sorted@) == order::sort_stable(given.take(it.index() as int), by_start()),
            all_fit(given, text@),
            forall|i: int|
                #![trigger sorted@[i]]
                0 <= i < sorted@.len() ==> fits(sorted@[i]@, text@),
    {
        proof {
            let more = given.take(it.index() + 1);
            assert(m == matches@[it.index() as int]);
            assert(given[it.index() as int] == m@);
            assert(more.drop_last() == given.take(it.index() as int));
            assert(more.last() == m@);
        }
        insert_match(&mut sorted, m);
    }
    let ghost ordered = match_views(sorted@);
    assert(given.take(given.len() as int) == given);
    assert(ordered == order::sort_stable(given, by_start()));
    let mut events: Vec<Event> = Vec::new();
    let mut last_end: usize = 0;
    let mut i: usize = 0;
    proof {
        text::lemma_byte_slice_whole(text@);
        assert(ordered.skip(0) == ordered);
        assert(markdown::views(events@) == Seq::<EventView>::empty());
    }
    while i < sorted.len()
        invariant
            i <= sorted.len(),
            ordered == match_views(sorted@),
            text::boundary(text@, last_end as int),
            forall|i: int|
                #![trigger sorted@[i]]
                0 <= i < sorted@.len() ==> fits(sorted@[i]@, text@),
            markdown::views(events@) + spliced_from(
                text@,
                ordered.skip(i as int),
                last_end as int,
            ) == spliced_from(text@, ordered, 0),
        decreases sorted.len() - i,
    {
        let ghost before = markdown::views(events@);
        let ghost rest = ordered.skip(i as int);
        let m = &sorted[i];
        proof {
            assert(rest.first() == m@);
            assert(rest.drop_first() == ordered.skip(i + 1));
        }
        if m.start >= last_end {
            let ghost between = text_between(text@, last_end as int, m.start as int);
            if m.start > last_end {
                push_text(&mut events, text::slice_bytes(text, last_end, m.start));
            }
            assert(markdown::views(events@) == before + between);
            let html = m.html.clone();
            proof {
                assert(markdown::views(events@.push(Event::Html(html))) == markdown::views(
                    events@,
                ).push(EventView::Html(html@)));
                assert(before + (between + seq![EventView::Html(html@)] + spliced_from(
                    text@,
                    rest.drop_first(),
                    m.end as int,
                )) == (before + between).push(EventView::Html(html@)) + spliced_from(
                    text@,
                    rest.drop_first(),
                    m.end as int,
                ));
            }
            events.push(Event::Html(html));
            last_end = m.end;
        }
        i += 1;
    }
    assert(ordered.skip(i as int) == Seq::<MatchView>::empty());
    let len = text::byte_len(text);
    if last_end < len {
        push_text(&mut events, text::slice_bytes(text, last_end, len));
    }
    assert(markdown::views(events@) == spliced_from(text@, ordered, 0));
    if events.len() == 0 {
        push_text(&mut events, text);
        assert(markdown::views(events@) == seq![EventView::Text(text@)]);
    }
    events
}

/// The events that a run of text becomes, and the anchors of the terms that are linked with it.
pub struct Linked {
    pub events: Seq<EventView>,
    pub linked: Set<Seq<char>>,
}

/// `text` with the first occurrence of each of `terms` linked, as far as they do not overlap.
pub open spec fn linked_text(
    text: Seq<char>,
    terms: Seq<TermView>,
    glossary_path: Seq<char>,
    config: ConfigView,
    linked: Set<Seq<char>>,
) -> Linked {
    let found = collected(text, terms, glossary_path, config, linked);
    Linked { events: spliced(text, found.matches), linked: found.linked }
}

/// Replaces the terms that occur in `text` by HTML links.
///
/// The result is a sequence of text and HTML events, so that HTML stays in events of its own. Put
/// the matched text back in place of each link, and it is `text` again.
pub fn replace_terms_to_events(
    text: &str,
    terms: &[&Term],
    glossary_path: &str,
    config: &Config,
    linked_terms: &mut LinkedTerms,
) -> (events: Vec<Event>)
    ensures
        ({
            let result = linked_text(
                text@,
                glossary::term_views(terms@),
                glossary_path@,
                config@,
                old(linked_terms)@,
            );
            &&& markdown::views(events@) == result.events
            &&& final(linked_terms)@ == result.linked
        }),
        ({
            let found = collected(
                text@,
                glossary::term_views(terms@),
                glossary_path@,
                config@,
                old(linked_terms)@,
            ).matches;
            &&& all_fit(found, text@)
            &&& linking_laws::unlinked(
                text@,
                markdown::views(events@),
                linking_laws::kept(found),
            ) == text@
        }),
{
    let ghost given = glossary::term_views(terms@);
    let ghost linked = linked_terms@;
    let mut matches: Vec<LinkMatch> = Vec::new();
    let mut i: usize = 0;
    proof {
        assert(given.take(0) == Seq::<TermView>::empty());
        assert(match_views(matches@) == Seq::<MatchView>::empty());
    }
    while i < terms.len()
        invariant
            i <= terms@.len(),
            given == glossary::term_views(terms@),
            match_views(matches@) == collected(
                text@,
                given.take(i as int),
                glossary_path@,
                config@,
                linked,
            ).matches,
            linked_terms@ == collected(
                text@,
                given.take(i as int),
                glossary_path@,
                config@,
                linked,
            ).linked,
            all_fit(match_views(matches@), text@),
        decreases terms.len() - i,
    {
        let term = terms[i];
        proof {
            assert(given.take(i + 1).drop_last() == given.take(i as int));
            assert(given.take(i + 1).last() == term@);
        }
        if !(config.link_first_only() && linked_terms.contains(term.anchor())) {
            if let Some((start, end)) = find_term(term, config.case_sensitive(), text) {
                let matched_text = text::slice_bytes(text, start, end);
                let html = render_term_html(term, matched_text, glossary_path, config);
                let m = LinkMatch { start, end, html };
                assert(match_views(matches@.push(m)) == match_views(matches@).push(m@));
                matches.push(m);
                linked_terms.insert(term.anchor());
            }
        }
        i += 1;
    }
    proof {
        assert(given.take(i as int) == given);
        linking_laws::law_splicing_keeps_text(text@, match_views(matches@));
    }
    splice_matches(text, matches)
}

/// The kind of element that surrounds an event.
///
/// Only [`Context::Normal`] is safe to put links into. Everything else is passed through as it is.
#[derive(Clone, Copy, Debug, PartialEq, Eq, Structural)]
pub enum Context {
    Normal,
    CodeBlock,
    Link,
    Heading,
    Image,
    /// The title in a definition list. It counts only on the glossary page, where a link in the
    /// title would lead a term to itself.
    DefinitionTitle,
}

/// The context that opens at `event`, if any.
pub open spec fn opened_context(event: EventView, on_glossary_page: bool) -> Option<Context> {
    match event {
        EventView::Start(Tag::CodeBlock, _) => Some(Context::CodeBlock),
        EventView::Start(Tag::Link, _) => Some(Context::Link),
        EventView::Start(Tag::Image, _) => Some(Context::Image),
        EventView::Start(Tag::Heading, _) => Some(Context::Heading),
        EventView::Start(Tag::DefinitionListTitle, _) => if on_glossary_page {
            Some(Context::DefinitionTitle)
        } else {
            None
        },
        _ => None,
    }
}

/// Whether a context closes at `event`.
pub open spec fn context_closed(event: EventView, on_glossary_page: bool) -> bool {
    match event {
        EventView::End(Tag::CodeBlock, _) => true,
        EventView::End(Tag::Link, _) => true,
        EventView::End(Tag::Image, _) => true,
        EventView::End(Tag::Heading, _) => true,
        EventView::End(Tag::DefinitionListTitle, _) => on_glossary_page,
        _ => false,
    }
}

/// The context that opens at `event`, if any.
///
/// `on_glossary_page` says whether titles of definition lists are contexts of their own.
pub fn context_opened_by(event: &Event, on_glossary_page: bool) -> (r: Option<Context>)
    ensures
        r == opened_context(event@, on_glossary_page),
{
    match event {
        Event::Start(Tag::CodeBlock, _) => Some(Context::CodeBlock),
        Event::Start(Tag::Link, _) => Some(Context::Link),
        Event::Start(Tag::Image, _) => Some(Context::Image),
        Event::Start(Tag::Heading, _) => Some(Context::Heading),
        Event::Start(Tag::DefinitionListTitle, _) if on_glossary_page => {
            Some(Context::DefinitionTitle)
        },
        _ => None,
    }
}

/// Whether `event` closes one of the contexts that [`context_opened_by`] opens.
pub fn closes_context(event: &Event, on_glossary_page: bool) -> (r: bool)
    ensures
        r == context_closed(event@, on_glossary_page),
{
    match event {
        Event::End(Tag::CodeBlock, _) => true,
        Event::End(Tag::Link, _) => true,
        Event::End(Tag::Image, _) => true,
        Event::End(Tag::Heading, _) => true,
        Event::End(Tag::DefinitionListTitle, _) => on_glossary_page,
        _ => false,
    }
}

/// The contexts that are open at the end of `events`, the innermost last.
pub open spec fn open_contexts(events: Seq<EventView>, on_glossary_page: bool) -> Seq<Context>
    decreases events.len(),
{
    if events.len() == 0 {
        seq![Context::Normal]
    } else {
        let before = open_contexts(events.drop_last(), on_glossary_page);
        match opened_context(events.last(), on_glossary_page) {
            Some(context) => before.push(context),
            None => if context_closed(events.last(), on_glossary_page) && before.len() > 0 {
                before.drop_last()
            } else {
                before
            },
        }
    }
}

/// The innermost context that is open at the end of `events`.
pub open spec fn current_context(events: Seq<EventView>, on_glossary_page: bool) -> Context {
    let open = open_contexts(events, on_glossary_page);
    if open.len() > 0 {
        open.last()
    } else {
        Context::Normal
    }
}

/// `events` with the terms linked in every text that no context protects. Any other event stays as
/// it is. `linked` are the anchors of the terms that are linked before.
pub open spec fn linked_events(
    events: Seq<EventView>,
    terms: Seq<TermView>,
    glossary_path: Seq<char>,
    config: ConfigView,
    linked: Set<Seq<char>>,
    on_glossary_page: bool,
) -> Linked
    decreases events.len(),
{
    if events.len() == 0 {
        Linked { events: seq![], linked }
    } else {
        let before = linked_events(
            events.drop_last(),
            terms,
            glossary_path,
            config,
            linked,
            on_glossary_page,
        );
        match events.last() {
            EventView::Text(text) if current_context(events.drop_last(), on_glossary_page)
                == Context::Normal => {
                let result = linked_text(text, terms, glossary_path, config, before.linked);
                Linked { events: before.events + result.events, linked: result.linked }
            },
            event => Linked { events: before.events.push(event), linked: before.linked },
        }
    }
}

/// Walks the events of a chapter, keeps track of the protected regions it crosses, and rewrites the
/// text outside them into text and HTML events that hold glossary links.
pub fn process_events(
    events: Vec<Event>,
    terms: &[&Term],
    glossary_path: &str,
    config: &Config,
    linked_terms: &mut LinkedTerms,
    on_glossary_page: bool,
) -> (out: Vec<Event>)
    ensures
        ({
            let result = linked_events(
                markdown::views(events@),
                glossary::term_views(terms@),
                glossary_path@,
                config@,
                old(linked_terms)@,
                on_glossary_page,
            );
            &&& markdown::views(out@) == result.events
            &&& final(linked_terms)@ == result.linked
        }),
{
    let ghost given = markdown::views(events@);
    let ghost linked = linked_terms@;
    let mut out: Vec<Event> = Vec::new();
    let mut contexts: Vec<Context> = Vec::new();
    contexts.push(Context::Normal);
    proof {
        assert(given.take(0) == Seq::<EventView>::empty());
        assert(markdown::views(out@) == Seq::<EventView>::empty());
        assert(contexts@ == seq![Context::Normal]);
    }
    for event in it: events.into_iter()
        invariant
            it.seq() == events@,
            given == markdown::views(events@),
            contexts@ == open_contexts(given.take(it.index() as int), on_glossary_page),
            ({
                let result = linked_events(
                    given.take(it.index() as int),
                    glossary::term_views(terms@),
                    glossary_path@,
                    config@,
                    linked,
                    on_glossary_page,
                );
                &&& markdown::views(out@) == result.events
                &&& linked_terms@ == result.linked
            }),
    {
        proof {
            let more = given.take(it.index() + 1);
            assert(event == events@[it.index() as int]);
            assert(more.drop_last() == given.take(it.index() as int));
            assert(more.last() == event@);
            assert(markdown::views(out@.push(event)) == markdown::views(out@).push(event@));
        }
        if let Some(context) = context_opened_by(&event, on_glossary_page) {
            contexts.push(context);
            out.push(event);
        } else if closes_context(&event, on_glossary_page) {
            let _ = contexts.pop();
            out.push(event);
        } else {
            let current = if contexts.len() > 0 {
                contexts[contexts.len() - 1]
            } else {
                Context::Normal
            };
            match &event {
                Event::Text(text) if current == Context::Normal => {
                    let mut replaced = replace_terms_to_events(
                        text.as_str(),
                        terms,
                        glossary_path,
                        config,
                        linked_terms,
                    );
                    assert(markdown::views(out@ + replaced@) == markdown::views(out@)
                        + markdown::views(replaced@));
                    out.append(&mut replaced);
                },
                _ => {
                    out.push(event);
                },
            }
        }
    }
    assert(given.take(given.len() as int) == given);
    out
}

/// The events that a chapter becomes. On the glossary page, to which the empty path leads, the
/// definition lists are sorted if `config` says so; terms are then linked only if `config` says
/// that too. Off it, terms are linked and nothing is sorted.
pub open spec fn chapter_events(
    events: Seq<EventView>,
    terms: Seq<TermView>,
    glossary_path: Seq<char>,
    config: ConfigView,
) -> Seq<EventView> {
    let on_glossary_page = glossary_path.len() == 0;
    if on_glossary_page && config.sort_glossary && !config.process_glossary {
        definition_lists::sorted_lists(events)
    } else {
        let ordered = if on_glossary_page && config.sort_glossary {
            definition_lists::sorted_lists(events)
        } else {
            events
        };
        linked_events(ordered, terms, glossary_path, config, Set::empty(), on_glossary_page).events
    }
}

/// Sorts and links the events of a chapter.
///
/// An empty `glossary_relative_path` says that the chapter is the glossary page itself. Titles of
/// definition lists are then left alone, so that no term links to itself, and links lead to
/// anchors on the same page.
pub fn process_chapter(
    events: Vec<Event>,
    glossary: &Glossary,
    glossary_relative_path: &str,
    config: &Config,
) -> (out: Vec<Event>)
    ensures
        markdown::views(out@) == chapter_events(
            markdown::views(events@),
            glossary@,
            glossary_relative_path@,
            config@,
        ),
{
    let terms = glossary.terms();
    let on_glossary_page = glossary_relative_path.is_empty();
    let mut events = events;
    if on_glossary_page && config.sort_glossary() {
        sort_definition_lists(&mut events);
        if !config.process_glossary() {
            return events;
        }
    }
    let mut linked_terms = LinkedTerms::new();
    process_events(
        events,
        terms.as_slice(),
        glossary_relative_path,
        config,
        &mut linked_terms,
        on_glossary_page,
    )
}

/// Splicing yields events that refer to no position.
proof fn lemma_spliced_positions(text: Seq<char>, matches: Seq<MatchView>, from: int)
    ensures
        forall|i: int|
            #![trigger spliced_from(text, matches, from)[i]]
            0 <= i < spliced_from(text, matches, from).len() ==> markdown::position(
                spliced_from(text, matches, from)[i],
            ) is None,
    decreases matches.len(),
{
    if matches.len() > 0 {
        let m = matches.first();
        lemma_spliced_positions(text, matches.drop_first(), from);
        lemma_spliced_positions(text, matches.drop_first(), m.end as int);
    }
}

/// Linking adds no event that refers to a position.
proof fn lemma_linked_drawn_from(
    events: Seq<EventView>,
    terms: Seq<TermView>,
    glossary_path: Seq<char>,
    config: ConfigView,
    linked: Set<Seq<char>>,
    on_glossary_page: bool,
    document: Seq<EventView>,
)
    requires
        markdown::drawn_from(events, document),
    ensures
        markdown::drawn_from(
            linked_events(events, terms, glossary_path, config, linked, on_glossary_page).events,
            document,
        ),
    decreases events.len(),
{
    if events.len() > 0 {
        let before = events.drop_last();
        assert(markdown::drawn_from(before, document)) by {
            assert forall|i: int| #![trigger before[i]] 0 <= i < before.len() implies before[i]
                == events[i] by {}
        }
        lemma_linked_drawn_from(
            before,
            terms,
            glossary_path,
            config,
            linked,
            on_glossary_page,
            document,
        );
        let done = linked_events(before, terms, glossary_path, config, linked, on_glossary_page);
        assert(events[events.len() - 1] == events.last());
        if let EventView::Text(text) = events.last() {
            let found = collected(text, terms, glossary_path, config, done.linked);
            lemma_spliced_positions(text, order::sort_stable(found.matches, by_start()), 0);
        }
    }
}

/// Sorting moves events, and nothing else.
proof fn lemma_sorted_drawn_from(events: Seq<EventView>, document: Seq<EventView>)
    requires
        markdown::drawn_from(events, document),
    ensures
        markdown::drawn_from(definition_lists::sorted_lists(events), document),
{
    broadcast use vstd::seq_lib::group_to_multiset_ensures;

    let sorted = definition_lists::sorted_lists(events);
    definition_lists::lemma_sorted_lists_kept(events);
    assert forall|i: int| #![trigger sorted[i]] 0 <= i < sorted.len() implies (markdown::position(
        sorted[i],
    ) matches Some(at) ==> at < document.len() && sorted[i] == document[at as int]) by {
        assert(sorted.contains(sorted[i]));
        assert(events.to_multiset().contains(sorted[i]));
        assert(events.contains(sorted[i]));
        let j = choose|j: int| 0 <= j < events.len() && events[j] == sorted[i];
        assert(events[j] == sorted[i]);
    }
}

/// Adds glossary links to the Markdown of a chapter.
///
/// Fails where the processed events cannot be written as Markdown.
pub fn add_term_links(
    content: &str,
    glossary: &Glossary,
    glossary_relative_path: &str,
    config: &Config,
) -> (r: Result<String, TermlinkError>)
    ensures
        ({
            let options = markdown::chapter_options();
            let events = chapter_events(
                markdown::parsed(content@, options),
                glossary@,
                glossary_relative_path@,
                config@,
            );
            match r {
                Ok(output) => markdown::serialized(content@, options, events) == Some(output@),
                Err(_) => markdown::serialized(content@, options, events) is None,
            }
        }),
        r is Ok <==> markdown::writable(
            chapter_events(
                markdown::parsed(content@, markdown::chapter_options()),
                glossary@,
                glossary_relative_path@,
                config@,
            ),
        ),
{
    let options = markdown_options();
    let events = parse_markdown(content, options);
    let ghost document = markdown::views(events@);
    let processed = process_chapter(events, glossary, glossary_relative_path, config);
    proof {
        let sorted = definition_lists::sorted_lists(document);
        let on_glossary_page = glossary_relative_path@.len() == 0;
        lemma_sorted_drawn_from(document, document);
        lemma_linked_drawn_from(
            document,
            glossary@,
            glossary_relative_path@,
            config@,
            Set::empty(),
            on_glossary_page,
            document,
        );
        lemma_linked_drawn_from(
            sorted,
            glossary@,
            glossary_relative_path@,
            config@,
            Set::empty(),
            on_glossary_page,
            document,
        );
    }
    match serialize_markdown(content, options, &processed) {
        Ok(output) => Ok(output),
        Err(error) => Err(TermlinkError::MarkdownSerialize(error)),
    }
}

} // verus!
