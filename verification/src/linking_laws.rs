//! What linking guarantees.

use crate::config::ConfigView;
use crate::glossary::TermView;
use crate::linker;
use crate::linker::{Context, MatchView};
use crate::markdown;
use crate::markdown::{EventView, OpenElements, Tag};
use crate::matcher;
use crate::order;
use crate::render;
use crate::text;
use vstd::prelude::*;
use vstd::seq_lib::*;
use vstd::utf8::*;

verus! {

/// The matches that are linked, of those that are given in order from byte `from` on.
pub open spec fn kept_from(matches: Seq<MatchView>, from: int) -> Seq<MatchView>
    decreases matches.len(),
{
    if matches.len() == 0 {
        seq![]
    } else if matches.first().start < from {
        kept_from(matches.drop_first(), from)
    } else {
        seq![matches.first()] + kept_from(matches.drop_first(), matches.first().end as int)
    }
}

/// The matches that are linked, of those that are found in a text.
pub open spec fn kept(matches: Seq<MatchView>) -> Seq<MatchView> {
    kept_from(order::sort_stable(matches, linker::by_start()), 0)
}

/// The text that `events` stand for, where each HTML event stands for what the match of the same
/// number matches in `text`.
pub open spec fn unlinked(text: Seq<char>, events: Seq<EventView>, links: Seq<MatchView>) -> Seq<char>
    decreases events.len(),
{
    if events.len() == 0 {
        seq![]
    } else {
        match events.first() {
            EventView::Text(part) => part + unlinked(text, events.drop_first(), links),
            _ => text::byte_slice(text, links.first().start as int, links.first().end as int)
                + unlinked(text, events.drop_first(), links.drop_first()),
        }
    }
}

/// The HTML events among `events`.
pub open spec fn html_parts(events: Seq<EventView>) -> Seq<Seq<char>>
    decreases events.len(),
{
    if events.len() == 0 {
        seq![]
    } else {
        match events.first() {
            EventView::Html(html) => seq![html] + html_parts(events.drop_first()),
            _ => html_parts(events.drop_first()),
        }
    }
}

/// Sorting matches keeps them within the text.
proof fn lemma_sorted_fit(matches: Seq<MatchView>, text: Seq<char>)
    requires
        linker::all_fit(matches, text),
    ensures
        linker::all_fit(order::sort_stable(matches, linker::by_start()), text),
{
    broadcast use group_to_multiset_ensures;

    let sorted = order::sort_stable(matches, linker::by_start());
    order::lemma_sort_multiset(matches, linker::by_start());
    assert forall|i: int| #![trigger sorted[i]] 0 <= i < sorted.len() implies linker::fits(
        sorted[i],
        text,
    ) by {
        assert(sorted.contains(sorted[i]));
        assert(matches.to_multiset().contains(sorted[i]));
        assert(matches.contains(sorted[i]));
        let j = choose|j: int| 0 <= j < matches.len() && matches[j] == sorted[i];
        assert(linker::fits(matches[j], text));
    }
}

/// Text before events adds to what they stand for.
proof fn lemma_unlinked_text_between(
    text: Seq<char>,
    from: int,
    to: int,
    rest: Seq<EventView>,
    links: Seq<MatchView>,
)
    requires
        from <= to,
        text::boundary(text, from),
        text::boundary(text, to),
    ensures
        unlinked(text, linker::text_between(text, from, to) + rest, links) == text::byte_slice(
            text,
            from,
            to,
        ) + unlinked(text, rest, links),
        html_parts(linker::text_between(text, from, to) + rest) == html_parts(rest),
{
    let events = linker::text_between(text, from, to) + rest;
    if from < to {
        assert(events.drop_first() == rest);
    } else {
        assert(events == rest);
        text::lemma_byte_slice_empty(text, from);
        assert(text::byte_slice(text, from, to) + unlinked(text, rest, links) == unlinked(
            text,
            rest,
            links,
        ));
    }
}

/// What is spliced stands for the text it is spliced from, and its HTML is that of the matches
/// that are kept.
proof fn lemma_spliced_from(text: Seq<char>, matches: Seq<MatchView>, from: int)
    requires
        linker::all_fit(matches, text),
        text::boundary(text, from),
    ensures
        unlinked(text, linker::spliced_from(text, matches, from), kept_from(matches, from))
            == text::byte_slice(text, from, encode_utf8(text).len() as int),
        html_parts(linker::spliced_from(text, matches, from)) == kept_from(
            matches,
            from,
        ).map_values(|m: MatchView| m.html),
    decreases matches.len(),
{
    let end = encode_utf8(text).len() as int;
    let events = linker::spliced_from(text, matches, from);
    text::lemma_byte_slice_whole(text);
    if matches.len() == 0 {
        let none: Seq<EventView> = seq![];
        lemma_unlinked_text_between(text, from, end, none, seq![]);
        assert(linker::text_between(text, from, end) + none == events);
        assert(text::byte_slice(text, from, end) + unlinked(text, none, seq![])
            == text::byte_slice(text, from, end));
    } else {
        let m = matches.first();
        let rest = matches.drop_first();
        assert(matches[0] == m);
        assert(linker::all_fit(rest, text)) by {
            assert forall|i: int| #![trigger rest[i]] 0 <= i < rest.len() implies rest[i]
                == matches[i + 1] by {}
        }
        if m.start < from {
            lemma_spliced_from(text, rest, from);
        } else {
            lemma_spliced_from(text, rest, m.end as int);
            let tail = linker::spliced_from(text, rest, m.end as int);
            let links = kept_from(rest, m.end as int);
            let linked = seq![EventView::Html(m.html)] + tail;
            assert(linked.drop_first() == tail);
            assert((seq![m] + links).drop_first() == links);
            assert((seq![m] + links).first() == m);
            lemma_unlinked_text_between(text, from, m.start as int, linked, seq![m] + links);
            assert(events == linker::text_between(text, from, m.start as int) + linked);
            text::lemma_byte_slice_split(text, from, m.start as int, end);
            text::lemma_byte_slice_split(text, m.start as int, m.end as int, end);
            assert((seq![m] + links).map_values(|m: MatchView| m.html) == seq![m.html]
                + links.map_values(|m: MatchView| m.html));
        }
    }
}

/// Linking loses no text: put the matched text in place of each link, and the events stand for
/// the text they were made from.
pub proof fn law_splicing_keeps_text(text: Seq<char>, matches: Seq<MatchView>)
    requires
        linker::all_fit(matches, text),
    ensures
        unlinked(text, linker::spliced(text, matches), kept(matches)) == text,
        html_parts(linker::spliced(text, matches)) == kept(matches).map_values(
            |m: MatchView| m.html,
        ),
{
    let sorted = order::sort_stable(matches, linker::by_start());
    let events = linker::spliced_from(text, sorted, 0);
    lemma_sorted_fit(matches, text);
    text::lemma_byte_slice_whole(text);
    lemma_spliced_from(text, sorted, 0);
    if events.len() == 0 {
        let whole = seq![EventView::Text(text)];
        assert(text == Seq::<char>::empty());
        assert(whole.drop_first() == Seq::<EventView>::empty());
        assert(unlinked(text, whole, kept(matches)) == text + unlinked(
            text,
            whole.drop_first(),
            kept(matches),
        ));
    }
}

/// The matches that are kept from a place on lie behind it, one behind the other, and each match
/// that is left out starts within one that is kept.
proof fn lemma_kept_from(matches: Seq<MatchView>, from: int, text: Seq<char>)
    requires
        linker::all_fit(matches, text),
        order::in_order(matches, linker::by_start()),
    ensures
        forall|i: int|
            #![trigger kept_from(matches, from)[i]]
            0 <= i < kept_from(matches, from).len() ==> from <= kept_from(matches, from)[i].start
                && matches.contains(kept_from(matches, from)[i]),
        forall|i: int, j: int|
            #![trigger kept_from(matches, from)[i], kept_from(matches, from)[j]]
            0 <= i < j < kept_from(matches, from).len() ==> kept_from(matches, from)[i].end
                <= kept_from(matches, from)[j].start,
        forall|k: int|
            #![trigger matches[k]]
            0 <= k < matches.len() && from <= matches[k].start ==> kept_from(
                matches,
                from,
            ).contains(matches[k]) || exists|i: int|
                #![trigger kept_from(matches, from)[i]]
                0 <= i < kept_from(matches, from).len() && kept_from(matches, from)[i].start
                    <= matches[k].start < kept_from(matches, from)[i].end,
    decreases matches.len(),
{
    if matches.len() > 0 {
        let m = matches.first();
        let rest = matches.drop_first();
        let links = kept_from(matches, from);
        assert(matches[0] == m);
        assert forall|i: int| #![trigger rest[i]] 0 <= i < rest.len() implies rest[i]
            == matches[i + 1] by {}
        assert(linker::all_fit(rest, text));
        assert(order::in_order(rest, linker::by_start())) by {
            assert forall|i: int, j: int|
                #![trigger rest[i], rest[j]]
                0 <= i < j < rest.len() implies linker::by_start()(rest[i], rest[j]) by {
                assert(rest[i] == matches[i + 1] && rest[j] == matches[j + 1]);
            }
        }
        if m.start < from {
            let tail = kept_from(rest, from);
            lemma_kept_from(rest, from, text);
            assert(links == tail);
            assert forall|i: int|
                #![trigger links[i]]
                0 <= i < links.len() implies matches.contains(links[i]) && from
                <= links[i].start by {
                assert(rest.contains(tail[i]));
                let k = choose|k: int| 0 <= k < rest.len() && rest[k] == links[i];
                assert(matches[k + 1] == links[i]);
            }
            assert forall|k: int|
                #![trigger matches[k]]
                0 <= k < matches.len() && from <= matches[k].start implies links.contains(
                matches[k],
            ) || exists|i: int|
                #![trigger links[i]]
                0 <= i < links.len() && links[i].start <= matches[k].start < links[i].end by {
                assert(matches[k] == rest[k - 1]);
            }
        } else {
            let tail = kept_from(rest, m.end as int);
            lemma_kept_from(rest, m.end as int, text);
            assert(links == seq![m] + tail);
            assert forall|i: int| #![trigger links[i]] 0 < i < links.len() implies links[i]
                == tail[i - 1] by {}
            assert forall|i: int|
                #![trigger links[i]]
                0 <= i < links.len() implies matches.contains(links[i]) && from
                <= links[i].start by {
                if i > 0 {
                    assert(rest.contains(tail[i - 1]));
                    let k = choose|k: int| 0 <= k < rest.len() && rest[k] == links[i];
                    assert(matches[k + 1] == links[i]);
                }
            }
            assert forall|k: int|
                #![trigger matches[k]]
                0 <= k < matches.len() && from <= matches[k].start implies links.contains(
                matches[k],
            ) || exists|i: int|
                #![trigger links[i]]
                0 <= i < links.len() && links[i].start <= matches[k].start < links[i].end by {
                if k == 0 {
                    assert(links[0] == matches[k]);
                } else {
                    assert(matches[k] == rest[k - 1]);
                    assert(linker::by_start()(matches[0], matches[k]));
                    if matches[k].start < m.end {
                        assert(links[0] == m);
                    } else if tail.contains(rest[k - 1]) {
                        let i = choose|i: int| 0 <= i < tail.len() && tail[i] == rest[k - 1];
                        assert(links[i + 1] == matches[k]);
                    } else {
                        let i = choose|i: int|
                            #![trigger tail[i]]
                            0 <= i < tail.len() && tail[i].start <= rest[k - 1].start
                                < tail[i].end;
                        assert(links[i + 1] == tail[i]);
                    }
                }
            }
        }
    }
}

/// Links do not overlap: of the matches that are kept, each ends before the next starts. A match
/// is left out only if it starts within one that is kept.
pub proof fn law_kept_matches_do_not_overlap(text: Seq<char>, matches: Seq<MatchView>)
    requires
        linker::all_fit(matches, text),
    ensures
        forall|i: int, j: int|
            #![trigger kept(matches)[i], kept(matches)[j]]
            0 <= i < j < kept(matches).len() ==> kept(matches)[i].end <= kept(matches)[j].start,
        forall|m: MatchView| #[trigger]
            matches.contains(m) ==> kept(matches).contains(m) || exists|i: int|
                #![trigger kept(matches)[i]]
                0 <= i < kept(matches).len() && kept(matches)[i].start <= m.start < kept(
                    matches,
                )[i].end,
        forall|i: int|
            #![trigger kept(matches)[i]]
            0 <= i < kept(matches).len() ==> matches.contains(kept(matches)[i]),
{
    broadcast use group_to_multiset_ensures;

    let sorted = order::sort_stable(matches, linker::by_start());
    lemma_sorted_fit(matches, text);
    order::lemma_sort_multiset(matches, linker::by_start());
    assert(order::total_preorder(linker::by_start()));
    order::lemma_sort_in_order(matches, linker::by_start());
    lemma_kept_from(sorted, 0, text);
    assert forall|m: MatchView| #[trigger] matches.contains(m) implies kept(matches).contains(m)
        || exists|i: int|
        #![trigger kept(matches)[i]]
        0 <= i < kept(matches).len() && kept(matches)[i].start <= m.start < kept(
            matches,
        )[i].end by {
        assert(sorted.to_multiset().contains(m));
        assert(sorted.contains(m));
        let k = choose|k: int| 0 <= k < sorted.len() && sorted[k] == m;
        assert(sorted[k] == m);
    }
    assert forall|i: int|
        #![trigger kept(matches)[i]]
        0 <= i < kept(matches).len() implies matches.contains(kept(matches)[i]) by {
        assert(sorted.contains(kept(matches)[i]));
        assert(matches.to_multiset().contains(kept(matches)[i]));
    }
}

/// Where nothing matches, the text stays one text event.
pub proof fn law_unmatched_text_is_unchanged(text: Seq<char>)
    ensures
        linker::spliced(text, seq![]) == seq![EventView::Text(text)],
{
    text::lemma_byte_slice_whole(text);
    let none: Seq<MatchView> = seq![];
    assert(order::sort_stable(none, linker::by_start()) == none);
}

/// Linking more terms keeps what is linked already.
proof fn lemma_collected_grows(
    text: Seq<char>,
    terms: Seq<TermView>,
    path: Seq<char>,
    config: ConfigView,
    linked: Set<Seq<char>>,
    k: int,
)
    requires
        0 <= k <= terms.len(),
    ensures
        linked.subset_of(linker::collected(text, terms, path, config, linked).linked),
        linker::collected(text, terms.take(k), path, config, linked).linked.subset_of(
            linker::collected(text, terms, path, config, linked).linked,
        ),
    decreases terms.len(),
{
    if k == terms.len() {
        assert(terms.take(k) == terms);
    }
    if terms.len() > 0 {
        let rest = terms.drop_last();
        if k < terms.len() {
            assert(terms.take(k) == rest.take(k));
            lemma_collected_grows(text, rest, path, config, linked, k);
        } else {
            lemma_collected_grows(text, rest, path, config, linked, 0);
        }
    }
}

/// Linking more events keeps what is linked already.
proof fn lemma_linked_grows(
    events: Seq<EventView>,
    terms: Seq<TermView>,
    path: Seq<char>,
    config: ConfigView,
    linked: Set<Seq<char>>,
    on_glossary_page: bool,
    i: int,
)
    requires
        0 <= i <= events.len(),
    ensures
        linked.subset_of(
            linker::linked_events(events, terms, path, config, linked, on_glossary_page).linked,
        ),
        linker::linked_events(
            events.take(i),
            terms,
            path,
            config,
            linked,
            on_glossary_page,
        ).linked.subset_of(
            linker::linked_events(events, terms, path, config, linked, on_glossary_page).linked,
        ),
    decreases events.len(),
{
    if i == events.len() {
        assert(events.take(i) == events);
    }
    if events.len() > 0 {
        let rest = events.drop_last();
        let before = linker::linked_events(rest, terms, path, config, linked, on_glossary_page);
        if i < events.len() {
            assert(events.take(i) == rest.take(i));
            lemma_linked_grows(rest, terms, path, config, linked, on_glossary_page, i);
        } else {
            lemma_linked_grows(rest, terms, path, config, linked, on_glossary_page, 0);
        }
        if let EventView::Text(text) = events.last() {
            lemma_collected_grows(text, terms, path, config, before.linked, 0);
        }
    }
}

/// The anchors that are linked when term `k` is looked for in the text at position `i`.
pub open spec fn linked_before(
    events: Seq<EventView>,
    terms: Seq<TermView>,
    path: Seq<char>,
    config: ConfigView,
    linked: Set<Seq<char>>,
    on_glossary_page: bool,
    i: int,
    k: int,
) -> Set<Seq<char>> {
    linker::collected(
        events[i]->Text_0,
        terms.take(k),
        path,
        config,
        linker::linked_events(
            events.take(i),
            terms,
            path,
            config,
            linked,
            on_glossary_page,
        ).linked,
    ).linked
}

/// Whether an occurrence of term `k` is linked in the text at position `i`, unless it overlaps
/// with another.
pub open spec fn occurrence_linked(
    events: Seq<EventView>,
    terms: Seq<TermView>,
    path: Seq<char>,
    config: ConfigView,
    linked: Set<Seq<char>>,
    on_glossary_page: bool,
    i: int,
    k: int,
) -> bool {
    &&& 0 <= i < events.len()
    &&& 0 <= k < terms.len()
    &&& events[i] is Text
    &&& linker::current_context(events.take(i), on_glossary_page) == Context::Normal
    &&& matcher::term_match(terms[k], config.case_sensitive, events[i]->Text_0) is Some
    &&& !(config.link_first_only && linked_before(
        events,
        terms,
        path,
        config,
        linked,
        on_glossary_page,
        i,
        k,
    ).contains(terms[k].anchor))
}

/// The first occurrence of `term` in `text`, and the HTML it becomes.
pub open spec fn first_occurrence(
    term: TermView,
    text: Seq<char>,
    path: Seq<char>,
    config: ConfigView,
) -> MatchView {
    let (start, end) = matcher::term_match(term, config.case_sensitive, text)->0;
    MatchView {
        start,
        end,
        html: render::term_html(
            term,
            text::byte_slice(text, start as int, end as int),
            path,
            config,
        ),
    }
}

/// The terms, of the first `n`, of which an occurrence is linked in the text at position `i`.
pub open spec fn terms_linked(
    events: Seq<EventView>,
    terms: Seq<TermView>,
    path: Seq<char>,
    config: ConfigView,
    linked: Set<Seq<char>>,
    on_glossary_page: bool,
    i: int,
    n: int,
) -> Seq<TermView>
    decreases n,
{
    if n <= 0 {
        seq![]
    } else {
        let before = terms_linked(
            events,
            terms,
            path,
            config,
            linked,
            on_glossary_page,
            i,
            n - 1,
        );
        if occurrence_linked(events, terms, path, config, linked, on_glossary_page, i, n - 1) {
            before.push(terms[n - 1])
        } else {
            before
        }
    }
}

/// The matches of the first terms are the first occurrences of those that are linked.
proof fn lemma_matches_of_terms(
    events: Seq<EventView>,
    terms: Seq<TermView>,
    path: Seq<char>,
    config: ConfigView,
    linked: Set<Seq<char>>,
    on_glossary_page: bool,
    i: int,
    n: int,
)
    requires
        0 <= i < events.len(),
        0 <= n <= terms.len(),
        events[i] is Text,
        linker::current_context(events.take(i), on_glossary_page) == Context::Normal,
    ensures
        linker::collected(
            events[i]->Text_0,
            terms.take(n),
            path,
            config,
            linker::linked_events(
                events.take(i),
                terms,
                path,
                config,
                linked,
                on_glossary_page,
            ).linked,
        ).matches == terms_linked(
            events,
            terms,
            path,
            config,
            linked,
            on_glossary_page,
            i,
            n,
        ).map_values(|term: TermView| first_occurrence(term, events[i]->Text_0, path, config)),
    decreases n,
{
    let text = events[i]->Text_0;
    let occurrence = |term: TermView| first_occurrence(term, text, path, config);
    if n > 0 {
        let before = terms_linked(
            events,
            terms,
            path,
            config,
            linked,
            on_glossary_page,
            i,
            n - 1,
        );
        let term = terms[n - 1];
        lemma_matches_of_terms(
            events,
            terms,
            path,
            config,
            linked,
            on_glossary_page,
            i,
            n - 1,
        );
        assert(terms.take(n).drop_last() == terms.take(n - 1));
        assert(terms.take(n).last() == term);
        assert(before.push(term).map_values(occurrence) == before.map_values(occurrence).push(
            occurrence(term),
        ));
    }
}

/// What is linked in a text are the first occurrences of the terms that occur in it, but for those
/// that are linked already where only first occurrences count, in the order of the glossary. From
/// these, [`linker::spliced`] leaves out what overlaps.
pub proof fn law_matches_are_linked_occurrences(
    events: Seq<EventView>,
    terms: Seq<TermView>,
    path: Seq<char>,
    config: ConfigView,
    linked: Set<Seq<char>>,
    on_glossary_page: bool,
    i: int,
)
    requires
        0 <= i < events.len(),
        events[i] is Text,
        linker::current_context(events.take(i), on_glossary_page) == Context::Normal,
    ensures
        ({
            let before = linker::linked_events(
                events.take(i),
                terms,
                path,
                config,
                linked,
                on_glossary_page,
            );
            let after = linker::linked_events(
                events.take(i + 1),
                terms,
                path,
                config,
                linked,
                on_glossary_page,
            );
            let text = events[i]->Text_0;
            after.events == before.events + linker::spliced(
                text,
                terms_linked(
                    events,
                    terms,
                    path,
                    config,
                    linked,
                    on_glossary_page,
                    i,
                    terms.len() as int,
                ).map_values(|term: TermView| first_occurrence(term, text, path, config)),
            )
        }),
{
    let n = terms.len() as int;
    lemma_matches_of_terms(events, terms, path, config, linked, on_glossary_page, i, n);
    assert(terms.take(n) == terms);
    assert(events.take(i + 1).drop_last() == events.take(i));
    assert(events.take(i + 1).last() == events[i]);
}

/// An occurrence that is linked is remembered when the next term is looked for, when the next
/// event is reached, and at the end.
proof fn lemma_occurrence_remembered(
    events: Seq<EventView>,
    terms: Seq<TermView>,
    path: Seq<char>,
    config: ConfigView,
    linked: Set<Seq<char>>,
    on_glossary_page: bool,
    i: int,
    k: int,
)
    requires
        occurrence_linked(events, terms, path, config, linked, on_glossary_page, i, k),
    ensures
        linked_before(
            events,
            terms,
            path,
            config,
            linked,
            on_glossary_page,
            i,
            k + 1,
        ).contains(terms[k].anchor),
        linker::linked_events(
            events.take(i + 1),
            terms,
            path,
            config,
            linked,
            on_glossary_page,
        ).linked.contains(terms[k].anchor),
{
    let text = events[i]->Text_0;
    let more = terms.take(k + 1);
    let before = linker::linked_events(
        events.take(i),
        terms,
        path,
        config,
        linked,
        on_glossary_page,
    );
    assert(more.drop_last() == terms.take(k));
    assert(more.last() == terms[k]);
    lemma_collected_grows(text, terms, path, config, before.linked, k + 1);
    assert(events.take(i + 1).drop_last() == events.take(i));
    assert(events.take(i + 1).last() == events[i]);
}

/// Where only the first occurrence of a term is to be linked, no term is linked that was linked
/// before.
pub proof fn law_linked_terms_are_not_linked_again(
    events: Seq<EventView>,
    terms: Seq<TermView>,
    path: Seq<char>,
    config: ConfigView,
    linked: Set<Seq<char>>,
    on_glossary_page: bool,
    i: int,
    k: int,
)
    requires
        config.link_first_only,
        occurrence_linked(events, terms, path, config, linked, on_glossary_page, i, k),
    ensures
        !linked.contains(terms[k].anchor),
{
    let before = linker::linked_events(
        events.take(i),
        terms,
        path,
        config,
        linked,
        on_glossary_page,
    );
    lemma_linked_grows(events.take(i), terms, path, config, linked, on_glossary_page, 0);
    lemma_collected_grows(events[i]->Text_0, terms.take(k), path, config, before.linked, 0);
}

/// Where only the first occurrence of a term is to be linked, a chapter links a term at most once:
/// two occurrences that are linked belong to terms with different anchors.
pub proof fn law_first_occurrence_only(
    events: Seq<EventView>,
    terms: Seq<TermView>,
    path: Seq<char>,
    config: ConfigView,
    linked: Set<Seq<char>>,
    on_glossary_page: bool,
    i: int,
    k: int,
    later: int,
    other: int,
)
    requires
        config.link_first_only,
        occurrence_linked(events, terms, path, config, linked, on_glossary_page, i, k),
        occurrence_linked(events, terms, path, config, linked, on_glossary_page, later, other),
        i < later || (i == later && k < other),
    ensures
        terms[k].anchor != terms[other].anchor,
{
    lemma_occurrence_remembered(events, terms, path, config, linked, on_glossary_page, i, k);
    let before = linker::linked_events(
        events.take(i),
        terms,
        path,
        config,
        linked,
        on_glossary_page,
    );
    let reached = linker::linked_events(
        events.take(later),
        terms,
        path,
        config,
        linked,
        on_glossary_page,
    );
    if i < later {
        assert(events.take(later).take(i + 1) == events.take(i + 1));
        lemma_linked_grows(
            events.take(later),
            terms,
            path,
            config,
            linked,
            on_glossary_page,
            i + 1,
        );
        lemma_collected_grows(
            events[later]->Text_0,
            terms.take(other),
            path,
            config,
            reached.linked,
            0,
        );
    } else {
        assert(terms.take(other).take(k + 1) == terms.take(k + 1));
        lemma_collected_grows(
            events[i]->Text_0,
            terms.take(other),
            path,
            config,
            before.linked,
            k + 1,
        );
    }
}

/// Every term that occurs in text that is safe to link is recorded as linked at the end of the
/// chapter, also where its occurrence overlaps with another and gets no link of its own.
pub proof fn law_occurring_term_is_recorded(
    events: Seq<EventView>,
    terms: Seq<TermView>,
    path: Seq<char>,
    config: ConfigView,
    linked: Set<Seq<char>>,
    on_glossary_page: bool,
    i: int,
    k: int,
)
    requires
        0 <= i < events.len(),
        0 <= k < terms.len(),
        events[i] is Text,
        linker::current_context(events.take(i), on_glossary_page) == Context::Normal,
        matcher::term_match(terms[k], config.case_sensitive, events[i]->Text_0) is Some,
    ensures
        linker::linked_events(
            events,
            terms,
            path,
            config,
            linked,
            on_glossary_page,
        ).linked.contains(terms[k].anchor),
{
    let before = linker::linked_events(
        events.take(i),
        terms,
        path,
        config,
        linked,
        on_glossary_page,
    );
    if occurrence_linked(events, terms, path, config, linked, on_glossary_page, i, k) {
        lemma_occurrence_remembered(events, terms, path, config, linked, on_glossary_page, i, k);
    } else {
        lemma_collected_grows(events[i]->Text_0, terms, path, config, before.linked, k);
        assert(events.take(i + 1).drop_last() == events.take(i));
        assert(events.take(i + 1).last() == events[i]);
    }
    lemma_linked_grows(events, terms, path, config, linked, on_glossary_page, i + 1);
}

/// Whether text in an element is left alone: code blocks, links, images and headings, and on the
/// glossary page the titles of definition lists.
pub open spec fn guarded(tag: Tag, on_glossary_page: bool) -> bool {
    match tag {
        Tag::CodeBlock => true,
        Tag::Link => true,
        Tag::Image => true,
        Tag::Heading => true,
        Tag::DefinitionListTitle => on_glossary_page,
        Tag::DefinitionList => false,
        Tag::Other => false,
    }
}

/// Whether a guarded element starts at `event`.
pub open spec fn guarded_start(event: EventView, on_glossary_page: bool) -> bool {
    event matches EventView::Start(tag, _) && guarded(tag, on_glossary_page)
}

/// Whether a guarded element ends at `event`.
pub open spec fn guarded_end(event: EventView, on_glossary_page: bool) -> bool {
    event matches EventView::End(tag, _) && guarded(tag, on_glossary_page)
}

/// A context opens where a guarded element starts, and closes where one ends.
pub proof fn law_contexts_follow_guarded_elements(event: EventView, on_glossary_page: bool)
    ensures
        linker::opened_context(event, on_glossary_page) is Some <==> guarded_start(
            event,
            on_glossary_page,
        ),
        linker::opened_context(event, on_glossary_page) matches Some(context) ==> context
            != Context::Normal,
        linker::context_closed(event, on_glossary_page) <==> guarded_end(event, on_glossary_page),
{
}

/// How many guarded elements start among `events` beyond those that end.
pub open spec fn context_balance(events: Seq<EventView>, on_glossary_page: bool) -> int
    decreases events.len(),
{
    if events.len() == 0 {
        0
    } else {
        let before = context_balance(events.drop_last(), on_glossary_page);
        if guarded_start(events.last(), on_glossary_page) {
            before + 1
        } else if guarded_end(events.last(), on_glossary_page) {
            before - 1
        } else {
            before
        }
    }
}

/// Whether the event at position `i` lies within the protected element that starts at `start`: not
/// all contexts that open from there on have closed before it.
pub open spec fn protected(
    events: Seq<EventView>,
    on_glossary_page: bool,
    start: int,
    i: int,
) -> bool {
    &&& 0 <= start < i < events.len()
    &&& guarded_start(events[start], on_glossary_page)
    &&& forall|m: int|
        start < m <= i ==> #[trigger] context_balance(events.subrange(start, m), on_glossary_page)
            > 0
}

/// While a protected element is open, the innermost contexts are those that opened in it.
proof fn lemma_protected_contexts(
    events: Seq<EventView>,
    on_glossary_page: bool,
    start: int,
    i: int,
    m: int,
)
    requires
        protected(events, on_glossary_page, start, i),
        start < m <= i,
    ensures
        ({
            let open = linker::open_contexts(events.take(m), on_glossary_page);
            let inner = context_balance(events.subrange(start, m), on_glossary_page);
            &&& 0 < inner <= open.len()
            &&& forall|j: int|
                #![trigger open[j]]
                open.len() - inner <= j < open.len() ==> open[j] != Context::Normal
        }),
    decreases m - start,
{
    let span = events.subrange(start, m);
    let part = events.take(m);
    assert(part.last() == events[m - 1] && part.drop_last() == events.take(m - 1));
    assert(span.last() == events[m - 1] && span.drop_last() == events.subrange(start, m - 1));
    assert(context_balance(span, on_glossary_page) > 0);
    let event = events[m - 1];
    law_contexts_follow_guarded_elements(event, on_glossary_page);
    let before = linker::open_contexts(events.take(m - 1), on_glossary_page);
    let open = linker::open_contexts(part, on_glossary_page);
    let inner = context_balance(span, on_glossary_page);
    if m == start + 1 {
        assert(context_balance(span.drop_last(), on_glossary_page) == 0);
        assert(open == before.push(linker::opened_context(event, on_glossary_page)->0));
    } else {
        lemma_protected_contexts(events, on_glossary_page, start, i, m - 1);
    }
    assert forall|j: int| #![trigger open[j]] open.len() - inner <= j < open.len() implies open[j]
        != Context::Normal by {
        if j < before.len() {
            assert(open[j] == before[j]);
        }
    }
}

/// The events of the first part of a chapter are the first events of the whole.
proof fn lemma_linked_prefix(
    events: Seq<EventView>,
    terms: Seq<TermView>,
    path: Seq<char>,
    config: ConfigView,
    linked: Set<Seq<char>>,
    on_glossary_page: bool,
    i: int,
)
    requires
        0 <= i <= events.len(),
    ensures
        linker::linked_events(
            events.take(i),
            terms,
            path,
            config,
            linked,
            on_glossary_page,
        ).events.is_prefix_of(
            linker::linked_events(events, terms, path, config, linked, on_glossary_page).events,
        ),
    decreases events.len(),
{
    if i == events.len() {
        assert(events.take(i) == events);
    } else {
        let rest = events.drop_last();
        assert(events.take(i) == rest.take(i));
        lemma_linked_prefix(rest, terms, path, config, linked, on_glossary_page, i);
    }
}

/// Code blocks, links, images and headings are protected, and on the glossary page the titles of
/// definition lists: an event within one stands in the result as it is, and nothing is linked
/// there.
pub proof fn law_protected_events_are_unchanged(
    events: Seq<EventView>,
    terms: Seq<TermView>,
    path: Seq<char>,
    config: ConfigView,
    linked: Set<Seq<char>>,
    on_glossary_page: bool,
    start: int,
    i: int,
)
    requires
        protected(events, on_glossary_page, start, i),
    ensures
        ({
            let before = linker::linked_events(
                events.take(i),
                terms,
                path,
                config,
                linked,
                on_glossary_page,
            );
            let after = linker::linked_events(
                events.take(i + 1),
                terms,
                path,
                config,
                linked,
                on_glossary_page,
            );
            let all = linker::linked_events(events, terms, path, config, linked, on_glossary_page);
            &&& after.linked == before.linked
            &&& after.events == before.events.push(events[i])
            &&& before.events.len() < all.events.len()
            &&& all.events[before.events.len() as int] == events[i]
        }),
{
    lemma_protected_contexts(events, on_glossary_page, start, i, i);
    let open = linker::open_contexts(events.take(i), on_glossary_page);
    assert(open[open.len() - 1] != Context::Normal);
    assert(events.take(i + 1).drop_last() == events.take(i));
    assert(events.take(i + 1).last() == events[i]);
    lemma_linked_prefix(events, terms, path, config, linked, on_glossary_page, i + 1);
    let before = linker::linked_events(
        events.take(i),
        terms,
        path,
        config,
        linked,
        on_glossary_page,
    );
    let after = linker::linked_events(
        events.take(i + 1),
        terms,
        path,
        config,
        linked,
        on_glossary_page,
    );
    assert(after.events[before.events.len() as int] == events[i]);
}

/// Whether an event is neither text nor HTML.
pub open spec fn markup() -> spec_fn(EventView) -> bool {
    |event: EventView| !(event is Text) && !(event is Html)
}

/// Splicing yields text and HTML alone.
proof fn lemma_spliced_markup(text: Seq<char>, matches: Seq<MatchView>, from: int)
    ensures
        linker::spliced_from(text, matches, from).filter(markup()) == Seq::<EventView>::empty(),
    decreases matches.len(),
{
    let end = encode_utf8(text).len() as int;
    let none: Seq<EventView> = seq![];
    assert(none.filter(markup()) == none);
    if matches.len() == 0 {
        lemma_text_between_markup(text, from, end);
    } else {
        let m = matches.first();
        let rest = matches.drop_first();
        if m.start < from {
            lemma_spliced_markup(text, rest, from);
        } else {
            lemma_spliced_markup(text, rest, m.end as int);
            lemma_text_between_markup(text, from, m.start as int);
            let between = linker::text_between(text, from, m.start as int);
            let html = seq![EventView::Html(m.html)];
            let tail = linker::spliced_from(text, rest, m.end as int);
            assert(html.filter(markup()) == none) by {
                broadcast use Seq::lemma_filter_push;

                assert(html == none.push(EventView::Html(m.html)));
            }
            Seq::filter_distributes_over_add(between, html, markup());
            Seq::filter_distributes_over_add(between + html, tail, markup());
        }
    }
}

/// Text between matches is text.
proof fn lemma_text_between_markup(text: Seq<char>, from: int, to: int)
    ensures
        linker::text_between(text, from, to).filter(markup()) == Seq::<EventView>::empty(),
{
    broadcast use Seq::lemma_filter_push;

    let none: Seq<EventView> = seq![];
    assert(none.filter(markup()) == none);
    if from < to {
        let event = EventView::Text(text::byte_slice(text, from, to));
        assert(linker::text_between(text, from, to) == none.push(event));
    }
}

/// Linking rewrites text alone: the events that are neither text nor HTML stay as they are, in
/// their order.
pub proof fn law_markup_is_kept(
    events: Seq<EventView>,
    terms: Seq<TermView>,
    path: Seq<char>,
    config: ConfigView,
    linked: Set<Seq<char>>,
    on_glossary_page: bool,
)
    ensures
        linker::linked_events(
            events,
            terms,
            path,
            config,
            linked,
            on_glossary_page,
        ).events.filter(markup()) == events.filter(markup()),
    decreases events.len(),
{
    broadcast use Seq::lemma_filter_push;

    let none: Seq<EventView> = seq![];
    assert(none.filter(markup()) == none);
    if events.len() > 0 {
        let rest = events.drop_last();
        law_markup_is_kept(rest, terms, path, config, linked, on_glossary_page);
        assert(rest.push(events.last()) == events);
        let before = linker::linked_events(rest, terms, path, config, linked, on_glossary_page);
        if let EventView::Text(text) = events.last() {
            let result = linker::linked_text(text, terms, path, config, before.linked);
            let found = linker::collected(text, terms, path, config, before.linked);
            lemma_spliced_markup(text, order::sort_stable(found.matches, linker::by_start()), 0);
            assert(seq![EventView::Text(text)] == none.push(EventView::Text(text)));
            assert(result.events.filter(markup()) == none);
            Seq::filter_distributes_over_add(before.events, result.events, markup());
        }
    }
}

/// Text and HTML open and close nothing.
proof fn lemma_markup_opens(open: OpenElements, events: Seq<EventView>)
    ensures
        markdown::open_after_all(open, events) == markdown::open_after_all(
            open,
            events.filter(markup()),
        ),
    decreases events.len(),
{
    broadcast use Seq::lemma_filter_push;

    if events.len() > 0 {
        let rest = events.drop_last();
        lemma_markup_opens(open, rest);
        assert(rest.push(events.last()) == events);
        if markup()(events.last()) {
            let kept = rest.filter(markup()).push(events.last());
            assert(kept.drop_last() == rest.filter(markup()));
        }
    } else {
        assert(events.filter(markup()) == events);
    }
}

/// Linking never makes a chapter unwritable, nor writable: it can be written as Markdown exactly if
/// it could be before.
pub proof fn law_linking_keeps_writability(
    events: Seq<EventView>,
    terms: Seq<TermView>,
    path: Seq<char>,
    config: ConfigView,
    linked: Set<Seq<char>>,
    on_glossary_page: bool,
)
    ensures
        markdown::writable(
            linker::linked_events(events, terms, path, config, linked, on_glossary_page).events,
        ) == markdown::writable(events),
{
    let result = linker::linked_events(events, terms, path, config, linked, on_glossary_page);
    law_markup_is_kept(events, terms, path, config, linked, on_glossary_page);
    lemma_markup_opens(markdown::nothing_open(), events);
    lemma_markup_opens(markdown::nothing_open(), result.events);
}

/// Whether the guarded element that starts at `start` is still open at the end of `events`: at no
/// place behind its start have as many guarded elements ended as started from there on.
pub open spec fn still_open(events: Seq<EventView>, on_glossary_page: bool, start: int) -> bool {
    &&& 0 <= start < events.len()
    &&& guarded_start(events[start], on_glossary_page)
    &&& forall|m: int|
        start < m <= events.len() ==> #[trigger] context_balance(
            events.subrange(start, m),
            on_glossary_page,
        ) > 0
}

/// What starts in `events` at `start` and encloses their end, so that `depth` elements are open from
/// there on.
spec fn encloses(
    events: Seq<EventView>,
    on_glossary_page: bool,
    start: int,
    depth: int,
) -> bool {
    still_open(events, on_glossary_page, start) && context_balance(
        events.skip(start),
        on_glossary_page,
    ) == depth
}

/// An element that is open stays open with one more event, unless that ends the last from there on.
proof fn lemma_encloses_push(
    events: Seq<EventView>,
    on_glossary_page: bool,
    start: int,
    depth: int,
    event: EventView,
)
    requires
        encloses(events, on_glossary_page, start, depth),
        guarded_end(event, on_glossary_page) ==> depth > 1,
    ensures
        encloses(
            events.push(event),
            on_glossary_page,
            start,
            if guarded_start(event, on_glossary_page) {
                depth + 1
            } else if guarded_end(event, on_glossary_page) {
                depth - 1
            } else {
                depth
            },
        ),
{
    let more = events.push(event);
    let n = events.len() as int;
    assert(more.skip(start).drop_last() == events.skip(start));
    assert(events.subrange(start, n) == events.skip(start));
    assert(context_balance(events.subrange(start, n), on_glossary_page) > 0);
    assert(more.subrange(start, n + 1) == more.skip(start));
    assert forall|m: int| start < m <= more.len() implies #[trigger] context_balance(
        more.subrange(start, m),
        on_glossary_page,
    ) > 0 by {
        if m <= n {
            assert(more.subrange(start, m) == events.subrange(start, m));
        }
    }
}

/// Every context that is open is one of an element that encloses the end.
proof fn lemma_open_contexts_enclose(events: Seq<EventView>, on_glossary_page: bool, j: int) -> (
    start: int)
    requires
        0 <= j < linker::open_contexts(events, on_glossary_page).len(),
        linker::open_contexts(events, on_glossary_page)[j] != Context::Normal,
    ensures
        encloses(
            events,
            on_glossary_page,
            start,
            linker::open_contexts(events, on_glossary_page).len() - j,
        ),
    decreases events.len(),
{
    if events.len() == 0 {
        0
    } else {
        let before = events.drop_last();
        let event = events.last();
        let open = linker::open_contexts(before, on_glossary_page);
        law_contexts_follow_guarded_elements(event, on_glossary_page);
        assert(before.push(event) == events);
        if guarded_start(event, on_glossary_page) && j == open.len() {
            let start = before.len() as int;
            let tail = events.skip(start);
            assert(tail == seq![event]);
            assert(context_balance(tail.drop_last(), on_glossary_page) == 0);
            assert forall|m: int| start < m <= events.len() implies #[trigger] context_balance(
                events.subrange(start, m),
                on_glossary_page,
            ) > 0 by {
                assert(events.subrange(start, m) == tail);
            }
            start
        } else {
            let start = lemma_open_contexts_enclose(before, on_glossary_page, j);
            lemma_encloses_push(before, on_glossary_page, start, open.len() - j, event);
            start
        }
    }
}

/// Text is safe to link exactly where no guarded element is open: every one that started has ended,
/// by pairing of starts and ends.
pub proof fn law_context_is_normal_outside_guarded_elements(
    events: Seq<EventView>,
    on_glossary_page: bool,
)
    ensures
        linker::current_context(events, on_glossary_page) == Context::Normal <==> forall|start: int|
            !#[trigger] still_open(events, on_glossary_page, start),
{
    let open = linker::open_contexts(events, on_glossary_page);
    if linker::current_context(events, on_glossary_page) != Context::Normal {
        let start = lemma_open_contexts_enclose(events, on_glossary_page, open.len() - 1);
        assert(still_open(events, on_glossary_page, start));
    }
    if exists|start: int| #[trigger] still_open(events, on_glossary_page, start) {
        let start = choose|start: int| #[trigger] still_open(events, on_glossary_page, start);
        let n = events.len() as int;
        let more = events.push(EventView::Other(0));
        assert(protected(more, on_glossary_page, start, n)) by {
            assert forall|m: int| start < m <= n implies #[trigger] context_balance(
                more.subrange(start, m),
                on_glossary_page,
            ) > 0 by {
                assert(more.subrange(start, m) == events.subrange(start, m));
            }
        }
        lemma_protected_contexts(more, on_glossary_page, start, n, n);
        assert(more.take(n) == events);
        assert(open[open.len() - 1] != Context::Normal);
    }
}

/// How many guarded elements start beyond those that end in one sequence and another.
proof fn lemma_balance_of_both(a: Seq<EventView>, b: Seq<EventView>, on_glossary_page: bool)
    ensures
        context_balance(a + b, on_glossary_page) == context_balance(a, on_glossary_page)
            + context_balance(b, on_glossary_page),
    decreases b.len(),
{
    if b.len() == 0 {
        assert(a + b == a);
    } else {
        lemma_balance_of_both(a, b.drop_last(), on_glossary_page);
        assert((a + b).drop_last() == a + b.drop_last());
    }
}

/// Where all guarded elements that started have ended again, text is safe to link: as many have
/// ended as have started, and nowhere before more.
pub proof fn law_context_is_normal_once_all_is_closed(
    events: Seq<EventView>,
    on_glossary_page: bool,
)
    requires
        context_balance(events, on_glossary_page) == 0,
        forall|m: int|
            0 <= m <= events.len() ==> #[trigger] context_balance(events.take(m), on_glossary_page)
                >= 0,
    ensures
        linker::current_context(events, on_glossary_page) == Context::Normal,
{
    law_context_is_normal_outside_guarded_elements(events, on_glossary_page);
    assert forall|start: int| !#[trigger] still_open(events, on_glossary_page, start) by {
        if still_open(events, on_glossary_page, start) {
            let n = events.len() as int;
            lemma_balance_of_both(
                events.take(start),
                events.subrange(start, n),
                on_glossary_page,
            );
            assert(events == events.take(start) + events.subrange(start, n));
            assert(context_balance(events.take(start), on_glossary_page) >= 0);
        }
    }
}

/// Text that no guarded element encloses is linked: it becomes the first occurrences of the terms
/// that are to be linked in it, with the text between them.
pub proof fn law_unguarded_text_is_linked(
    events: Seq<EventView>,
    terms: Seq<TermView>,
    path: Seq<char>,
    config: ConfigView,
    linked: Set<Seq<char>>,
    on_glossary_page: bool,
    i: int,
)
    requires
        0 <= i < events.len(),
        events[i] is Text,
        forall|start: int| !#[trigger] still_open(events.take(i), on_glossary_page, start),
    ensures
        ({
            let before = linker::linked_events(
                events.take(i),
                terms,
                path,
                config,
                linked,
                on_glossary_page,
            );
            let after = linker::linked_events(
                events.take(i + 1),
                terms,
                path,
                config,
                linked,
                on_glossary_page,
            );
            let text = events[i]->Text_0;
            after.events == before.events + linker::spliced(
                text,
                terms_linked(
                    events,
                    terms,
                    path,
                    config,
                    linked,
                    on_glossary_page,
                    i,
                    terms.len() as int,
                ).map_values(|term: TermView| first_occurrence(term, text, path, config)),
            )
        }),
{
    law_context_is_normal_outside_guarded_elements(events.take(i), on_glossary_page);
    law_matches_are_linked_occurrences(
        events,
        terms,
        path,
        config,
        linked,
        on_glossary_page,
        i,
    );
}

/// Which term is the source of an anchor that a text adds.
proof fn lemma_collected_source(
    text: Seq<char>,
    terms: Seq<TermView>,
    path: Seq<char>,
    config: ConfigView,
    linked: Set<Seq<char>>,
    anchor: Seq<char>,
) -> (k: int)
    requires
        linker::collected(text, terms, path, config, linked).linked.contains(anchor),
        !linked.contains(anchor),
    ensures
        0 <= k < terms.len(),
        terms[k].anchor == anchor,
        matcher::term_match(terms[k], config.case_sensitive, text) is Some,
        !linker::collected(text, terms.take(k), path, config, linked).linked.contains(anchor),
    decreases terms.len(),
{
    if terms.len() == 0 {
        0
    } else {
        let rest = terms.drop_last();
        let last = terms.len() - 1;
        if linker::collected(text, rest, path, config, linked).linked.contains(anchor) {
            let k = lemma_collected_source(text, rest, path, config, linked, anchor);
            assert(rest.take(k) == terms.take(k));
            k
        } else {
            assert(terms.take(last) == rest);
            last
        }
    }
}

/// A term is recorded as linked only if an occurrence of it is linked in the chapter, or if it was
/// recorded before.
pub proof fn law_only_linked_terms_are_recorded(
    events: Seq<EventView>,
    terms: Seq<TermView>,
    path: Seq<char>,
    config: ConfigView,
    linked: Set<Seq<char>>,
    on_glossary_page: bool,
    anchor: Seq<char>,
)
    requires
        linker::linked_events(
            events,
            terms,
            path,
            config,
            linked,
            on_glossary_page,
        ).linked.contains(anchor),
        !linked.contains(anchor),
    ensures
        exists|i: int, k: int| #[trigger]
            occurrence_linked(events, terms, path, config, linked, on_glossary_page, i, k)
                && terms[k].anchor == anchor,
    decreases events.len(),
{
    if events.len() > 0 {
        let rest = events.drop_last();
        let last = events.len() - 1;
        let before = linker::linked_events(rest, terms, path, config, linked, on_glossary_page);
        assert(events.take(last) == rest);
        assert(events[last] == events.last());
        if before.linked.contains(anchor) {
            law_only_linked_terms_are_recorded(
                rest,
                terms,
                path,
                config,
                linked,
                on_glossary_page,
                anchor,
            );
            let (i, k) = choose|i: int, k: int| #[trigger]
                occurrence_linked(rest, terms, path, config, linked, on_glossary_page, i, k)
                    && terms[k].anchor == anchor;
            assert(rest.take(i) == events.take(i));
            assert(rest[i] == events[i]);
            assert(occurrence_linked(
                events,
                terms,
                path,
                config,
                linked,
                on_glossary_page,
                i,
                k,
            ));
        } else {
            let k = lemma_collected_source(
                events.last()->Text_0,
                terms,
                path,
                config,
                before.linked,
                anchor,
            );
            assert(occurrence_linked(
                events,
                terms,
                path,
                config,
                linked,
                on_glossary_page,
                last,
                k,
            ));
        }
    }
}

/// What is kept of matches in order is, of those that start at one place, the first.
proof fn lemma_kept_is_first(matches: Seq<MatchView>, from: int, m: MatchView) -> (at: int)
    requires
        order::in_order(matches, linker::by_start()),
        forall|i: int|
            #![trigger matches[i]]
            0 <= i < matches.len() ==> matches[i].start < matches[i].end,
        kept_from(matches, from).contains(m),
    ensures
        0 <= at < matches.len(),
        matches[at] == m,
        from <= m.start,
        forall|i: int| 0 <= i < at ==> #[trigger] matches[i].start != m.start,
    decreases matches.len(),
{
    let links = kept_from(matches, from);
    let k = choose|k: int| 0 <= k < links.len() && links[k] == m;
    if matches.len() == 0 {
        0
    } else {
        let first = matches.first();
        let rest = matches.drop_first();
        assert(matches[0] == first);
        assert forall|i: int| #![trigger rest[i]] 0 <= i < rest.len() implies rest[i]
            == matches[i + 1] by {}
        assert(order::in_order(rest, linker::by_start())) by {
            assert forall|i: int, j: int|
                #![trigger rest[i], rest[j]]
                0 <= i < j < rest.len() implies linker::by_start()(rest[i], rest[j]) by {
                assert(rest[i] == matches[i + 1] && rest[j] == matches[j + 1]);
            }
        }
        if first.start >= from && k == 0 {
            0
        } else {
            let next = if first.start < from {
                from
            } else {
                first.end as int
            };
            let tail = kept_from(rest, next);
            assert(tail.contains(m)) by {
                if first.start < from {
                    assert(tail[k] == m);
                } else {
                    assert(tail[k - 1] == m);
                }
            }
            let at = lemma_kept_is_first(rest, next, m);
            assert forall|i: int| 0 <= i < at + 1 implies #[trigger] matches[i].start
                != m.start by {
                if i > 0 {
                    assert(rest[i - 1].start != m.start);
                }
            }
            at + 1
        }
    }
}

/// The first element of which something holds is the first of those of which it holds.
proof fn lemma_first_of_filter<T>(s: Seq<T>, holds: spec_fn(T) -> bool, at: int)
    requires
        0 <= at < s.len(),
        holds(s[at]),
        forall|i: int| 0 <= i < at ==> !holds(#[trigger] s[i]),
    ensures
        s.filter(holds).len() > 0,
        s.filter(holds)[0] == s[at],
    decreases s.len(),
{
    broadcast use Seq::lemma_filter_push;

    let rest = s.drop_last();
    assert(rest.push(s.last()) == s);
    if at < rest.len() {
        assert forall|i: int| 0 <= i < at implies !holds(#[trigger] rest[i]) by {
            assert(rest[i] == s[i]);
        }
        lemma_first_of_filter(rest, holds, at);
    } else {
        if rest.filter(holds).len() > 0 {
            rest.lemma_filter_pred(holds, 0);
            rest.lemma_filter_contains_rev(holds, rest.filter(holds)[0]);
            let i = choose|i: int| 0 <= i < rest.len() && rest[i] == rest.filter(holds)[0];
            assert(!holds(s[i]));
        }
    }
}

/// Where something holds of an element, there is a first of which it does.
proof fn lemma_first_exists<T>(s: Seq<T>, holds: spec_fn(T) -> bool, j: int) -> (at: int)
    requires
        0 <= j < s.len(),
        holds(s[j]),
    ensures
        0 <= at <= j,
        holds(s[at]),
        forall|i: int| 0 <= i < at ==> !holds(#[trigger] s[i]),
    decreases j,
{
    if exists|i: int| 0 <= i < j && holds(#[trigger] s[i]) {
        let i = choose|i: int| 0 <= i < j && holds(#[trigger] s[i]);
        lemma_first_exists(s, holds, i)
    } else {
        j
    }
}

/// Of matches that start at the same place, the first is linked, in the order in which they are
/// given: before a match that is linked, none is given that starts where it does. Which of them is
/// longer makes no difference.
pub proof fn law_first_of_matches_that_start_together_is_linked(
    text: Seq<char>,
    matches: Seq<MatchView>,
    m: MatchView,
)
    requires
        linker::all_fit(matches, text),
        forall|i: int|
            #![trigger matches[i]]
            0 <= i < matches.len() ==> matches[i].start < matches[i].end,
        kept(matches).contains(m),
    ensures
        exists|at: int|
            #![trigger matches[at]]
            0 <= at < matches.len() && matches[at] == m && forall|i: int|
                0 <= i < at ==> #[trigger] matches[i].start != m.start,
{
    let sorted = order::sort_stable(matches, linker::by_start());
    let together = |other: MatchView| other.start == m.start;
    let lasts = |other: MatchView| other.start < other.end;
    order::lemma_sort_multiset(matches, linker::by_start());
    order::lemma_sort_all(matches, linker::by_start(), lasts);
    assert forall|i: int| #![trigger sorted[i]] 0 <= i < sorted.len() implies sorted[i].start
        < sorted[i].end by {
        assert(lasts(sorted[i]));
    }
    assert(order::total_preorder(linker::by_start()));
    order::lemma_sort_in_order(matches, linker::by_start());
    order::lemma_sort_rank(matches, linker::by_start(), m);
    assert(order::same_rank(m, linker::by_start()) =~= together);
    let h = lemma_kept_is_first(sorted, 0, m);
    assert forall|i: int| 0 <= i < h implies !together(#[trigger] sorted[i]) by {
        assert(sorted[i].start != m.start);
    }
    lemma_first_of_filter(sorted, together, h);
    law_kept_matches_do_not_overlap(text, matches);
    let k = choose|k: int| 0 <= k < kept(matches).len() && kept(matches)[k] == m;
    assert(matches.contains(kept(matches)[k]));
    let j = choose|j: int| 0 <= j < matches.len() && matches[j] == m;
    let at = lemma_first_exists(matches, together, j);
    lemma_first_of_filter(matches, together, at);
    assert(matches[at] == m);
    assert forall|i: int| 0 <= i < at implies #[trigger] matches[i].start != m.start by {
        assert(!together(matches[i]));
    }
}

/// What stands from a place on, with links spliced in, is text and HTML, and no text follows text.
proof fn lemma_spliced_pieces(text: Seq<char>, matches: Seq<MatchView>, from: int)
    requires
        linker::all_fit(matches, text),
        text::boundary(text, from),
    ensures
        ({
            let events = linker::spliced_from(text, matches, from);
            &&& forall|i: int|
                #![trigger events[i]]
                0 <= i < events.len() ==> events[i] is Html || (events[i] is Text
                    && events[i]->Text_0.len() > 0)
            &&& forall|i: int|
                #![trigger events[i]]
                0 < i < events.len() && events[i] is Text ==> events[i - 1] is Html
        }),
    decreases matches.len(),
{
    let end = encode_utf8(text).len() as int;
    let events = linker::spliced_from(text, matches, from);
    text::lemma_byte_slice_whole(text);
    if matches.len() == 0 {
        lemma_text_between_holds_text(text, from, end);
    } else {
        let m = matches.first();
        let rest = matches.drop_first();
        assert(matches[0] == m);
        assert forall|i: int| #![trigger rest[i]] 0 <= i < rest.len() implies rest[i]
            == matches[i + 1] by {}
        if m.start < from {
            lemma_spliced_pieces(text, rest, from);
        } else {
            let between = linker::text_between(text, from, m.start as int);
            let tail = linker::spliced_from(text, rest, m.end as int);
            let n = between.len() as int;
            lemma_text_between_holds_text(text, from, m.start as int);
            lemma_spliced_pieces(text, rest, m.end as int);
            assert forall|i: int| #![trigger events[i]] 0 <= i < events.len() implies (events[i]
                is Html || (events[i] is Text && events[i]->Text_0.len() > 0)) && (0 < i
                && events[i] is Text ==> events[i - 1] is Html) by {
                if i < n {
                    assert(events[i] == between[i]);
                } else if i > n {
                    assert(events[i] == tail[i - n - 1]);
                    if i - 1 > n {
                        assert(events[i - 1] == tail[i - n - 2]);
                    }
                }
            }
        }
    }
}

/// Text between two places that differ is not empty.
proof fn lemma_text_between_holds_text(text: Seq<char>, from: int, to: int)
    requires
        text::boundary(text, from),
        text::boundary(text, to),
    ensures
        linker::text_between(text, from, to).len() <= 1,
        forall|i: int|
            #![trigger linker::text_between(text, from, to)[i]]
            0 <= i < linker::text_between(text, from, to).len() ==> linker::text_between(
                text,
                from,
                to,
            )[i] is Text && linker::text_between(text, from, to)[i]->Text_0.len() > 0,
{
    if from < to {
        text::law_slices_hold_the_bytes_between_their_ends(text, from, to);
        let part = text::byte_slice(text, from, to);
        assert(encode_utf8(part).len() == to - from);
        if part.len() == 0 {
            assert(part == Seq::<char>::empty());
            assert(encode_utf8(part).len() == 0);
        }
    }
}

/// Text stands in as few pieces as the links allow: each piece that is not a link is text that is
/// not empty, unless there is none at all, and between two of them stands a link.
pub proof fn law_text_is_split_at_links_only(text: Seq<char>, matches: Seq<MatchView>)
    requires
        linker::all_fit(matches, text),
    ensures
        ({
            let events = linker::spliced(text, matches);
            &&& events.len() > 0
            &&& forall|i: int|
                #![trigger events[i]]
                0 <= i < events.len() ==> events[i] is Html || (events[i] is Text
                    && (events[i]->Text_0.len() > 0 || text.len() == 0))
            &&& forall|i: int|
                #![trigger events[i]]
                0 < i < events.len() && events[i] is Text ==> events[i - 1] is Html
        }),
{
    let sorted = order::sort_stable(matches, linker::by_start());
    lemma_sorted_fit(matches, text);
    text::lemma_byte_slice_whole(text);
    lemma_spliced_pieces(text, sorted, 0);
}

/// How many links stand among events.
spec fn links_among(events: Seq<EventView>) -> int {
    html_parts(events).len() as int
}

/// What stands before a link, with the matched text put back in place of earlier links, reaches from
/// a place on to where the link matches.
proof fn lemma_link_in_place(text: Seq<char>, matches: Seq<MatchView>, from: int, p: int)
    requires
        linker::all_fit(matches, text),
        text::boundary(text, from),
        0 <= p < linker::spliced_from(text, matches, from).len(),
        linker::spliced_from(text, matches, from)[p] is Html,
    ensures
        ({
            let events = linker::spliced_from(text, matches, from);
            let links = kept_from(matches, from);
            let n = links_among(events.take(p));
            &&& 0 <= n < links.len()
            &&& events[p]->Html_0 == links[n].html
            &&& from <= links[n].start
            &&& text::boundary(text, links[n].start as int)
            &&& unlinked(text, events.take(p), links) == text::byte_slice(
                text,
                from,
                links[n].start as int,
            )
        }),
    decreases matches.len(),
{
    let end = encode_utf8(text).len() as int;
    let events = linker::spliced_from(text, matches, from);
    let links = kept_from(matches, from);
    if matches.len() > 0 {
        let m = matches.first();
        let rest = matches.drop_first();
        assert(matches[0] == m);
        assert forall|i: int| #![trigger rest[i]] 0 <= i < rest.len() implies rest[i]
            == matches[i + 1] by {}
        if m.start < from {
            lemma_link_in_place(text, rest, from, p);
        } else {
            let between = linker::text_between(text, from, m.start as int);
            let html = EventView::Html(m.html);
            let tail = linker::spliced_from(text, rest, m.end as int);
            let more = kept_from(rest, m.end as int);
            let n = between.len() as int;
            assert(links == seq![m] + more);
            assert(links.drop_first() == more);
            let none: Seq<EventView> = seq![];
            if p == n {
                assert(events.take(p) == between + none);
                lemma_unlinked_text_between(text, from, m.start as int, none, links);
                assert(text::byte_slice(text, from, m.start as int) + unlinked(text, none, links)
                    == text::byte_slice(text, from, m.start as int));
            } else {
                let q = p - n - 1;
                let part = tail.take(q);
                let rear = seq![html] + part;
                assert(events[p] == tail[q]);
                lemma_link_in_place(text, rest, m.end as int, q);
                assert(events.take(p) == between + rear);
                assert(rear.drop_first() == part);
                assert(html_parts(rear) == seq![m.html] + html_parts(part));
                lemma_unlinked_text_between(text, from, m.start as int, rear, links);
                let k = links_among(part);
                assert(links[k + 1] == more[k]);
                let at = more[k].start as int;
                text::lemma_byte_slice_split(text, from, m.start as int, at);
                text::lemma_byte_slice_split(text, m.start as int, m.end as int, at);
            }
        }
    }
}

/// Every link stands where it matches: what precedes it, with the matched text put back in place of
/// earlier links, is the text up to where its match starts.
pub proof fn law_links_stand_where_they_match(text: Seq<char>, matches: Seq<MatchView>, p: int)
    requires
        linker::all_fit(matches, text),
        0 <= p < linker::spliced(text, matches).len(),
        linker::spliced(text, matches)[p] is Html,
    ensures
        ({
            let before = linker::spliced(text, matches).take(p);
            let n = html_parts(before).len() as int;
            &&& 0 <= n < kept(matches).len()
            &&& linker::spliced(text, matches)[p]->Html_0 == kept(matches)[n].html
            &&& unlinked(text, before, kept(matches)) == text::byte_slice(
                text,
                0,
                kept(matches)[n].start as int,
            )
        }),
{
    let sorted = order::sort_stable(matches, linker::by_start());
    lemma_sorted_fit(matches, text);
    text::lemma_byte_slice_whole(text);
    lemma_link_in_place(text, sorted, 0, p);
}

} // verus!
