//! What titles, keys and groups are, and which pages are sorted.

use crate::config::ConfigView;
use crate::definition_lists as lists;
use crate::definition_lists::Placed;
use crate::glossary;
use crate::glossary::TermView;
use crate::linker;
use crate::markdown::{EventView, Tag};
use crate::nesting;
use crate::order;
use crate::sorting_laws;
use crate::text;
use vstd::prelude::*;

verus! {

/// A title `before (description)` is sorted by all that stands before the description, in lower
/// case; where no white space surrounds it, that is exactly `before`.
pub proof fn law_described_titles_are_sorted_by_their_short_form(
    before: Seq<char>,
    description: Seq<char>,
)
    requires
        glossary::no_opening(before),
        text::trimmed(before).len() > 0,
    ensures
        lists::sorted_part(glossary::described(before, description)) == text::trimmed(before),
        lists::sort_key(glossary::described(before, description)) == text::lowercased(
            text::trimmed(before),
        ),
        text::trimmed(before) == before ==> lists::sort_key(
            glossary::described(before, description),
        ) == text::lowercased(before),
{
    glossary::law_short_form_is_what_precedes_the_description(before, description);
}

/// Every other title is sorted by the whole of it, in lower case.
pub proof fn law_other_titles_are_sorted_by_the_whole(title: Seq<char>)
    requires
        forall|before: Seq<char>, description: Seq<char>|
            glossary::no_opening(before) && title == #[trigger] glossary::described(
                before,
                description,
            ) ==> text::trimmed(before).len() == 0,
    ensures
        lists::sorted_part(title) == title,
        lists::sort_key(title) == text::lowercased(title),
{
    glossary::law_other_names_have_no_short_form(title);
}

/// What is described makes no difference to where a title is sorted.
pub proof fn law_descriptions_do_not_count(
    before: Seq<char>,
    description: Seq<char>,
    other: Seq<char>,
)
    requires
        glossary::no_opening(before),
        text::trimmed(before).len() > 0,
    ensures
        lists::sort_key(glossary::described(before, description)) == lists::sort_key(
            glossary::described(before, other),
        ),
{
    law_described_titles_are_sorted_by_their_short_form(before, description);
    law_described_titles_are_sorted_by_their_short_form(before, other);
}

/// The text of a title is made piece by piece.
pub proof fn law_title_text_is_made_piece_by_piece(a: Seq<Placed>, b: Seq<Placed>)
    ensures
        lists::title_text(a + b) == lists::title_text(a) + lists::title_text(b),
    decreases b.len(),
{
    if b.len() == 0 {
        assert(a + b == a);
        assert(lists::title_text(a) + lists::title_text(b) == lists::title_text(a));
    } else {
        law_title_text_is_made_piece_by_piece(a, b.drop_last());
        assert((a + b).drop_last() == a + b.drop_last());
        assert(lists::title_text(a) + lists::title_text(b) == lists::title_text(a)
            + lists::title_text(b.drop_last()) + lists::title_part(b.last()));
    }
}

/// Text and inline code of a title count whole, and nothing else does; of a list within the title,
/// nothing counts.
pub proof fn law_text_and_code_count_in_titles(placed: Placed)
    ensures
        placed.own && placed.event is Text ==> lists::title_text(seq![placed])
            == placed.event->Text_0,
        placed.own && placed.event is Code ==> lists::title_text(seq![placed])
            == placed.event->Code_0,
        !placed.own || !(placed.event is Text || placed.event is Code) ==> lists::title_text(
            seq![placed],
        ) == Seq::<char>::empty(),
{
    assert(lists::title_text(seq![placed].drop_last()) == Seq::<char>::empty());
    assert(lists::title_text(seq![placed]) == lists::title_part(placed));
}

/// Whether a title of the list ends at `placed`.
pub open spec fn ends_title(placed: Placed) -> bool {
    placed.own && placed.event matches EventView::End(Tag::DefinitionListTitle, _)
}

/// Whether a title of the list starts at `placed`.
pub open spec fn begins_title(placed: Placed) -> bool {
    placed.own && placed.event matches EventView::Start(Tag::DefinitionListTitle, _)
}

/// What it means that a title ends among events.
proof fn lemma_title_end_among(events: Seq<Placed>)
    ensures
        lists::has_title_end(events) <==> exists|i: int|
            0 <= i < events.len() && ends_title(#[trigger] events[i]),
{
    if lists::has_title_end(events) {
        let i = choose|i: int| 0 <= i < events.len() && lists::closes_title(#[trigger] events[i]);
        assert(ends_title(events[i]));
    }
    if exists|i: int| 0 <= i < events.len() && ends_title(#[trigger] events[i]) {
        let i = choose|i: int| 0 <= i < events.len() && ends_title(#[trigger] events[i]);
        assert(lists::closes_title(events[i]));
    }
}

/// The title of a group is the text up to where the title first ends, without white space around
/// it. What follows there, definitions among it, does not count.
pub proof fn law_title_lasts_until_it_ends(group: Seq<Placed>, at: int)
    requires
        0 <= at < group.len(),
        ends_title(group[at]),
        forall|i: int| 0 <= i < at ==> !ends_title(#[trigger] group[i]),
    ensures
        lists::title_of(group) == text::trimmed(lists::title_text(group.take(at))),
    decreases group.len(),
{
    lemma_title_end_among(group);
    lemma_title_span(group, at);
}

/// What of a group precedes the end of its title.
proof fn lemma_title_span(group: Seq<Placed>, at: int)
    requires
        0 <= at < group.len(),
        ends_title(group[at]),
        forall|i: int| 0 <= i < at ==> !ends_title(#[trigger] group[i]),
    ensures
        lists::title_span(group) == group.take(at),
    decreases group.len(),
{
    let rest = group.drop_last();
    lemma_title_end_among(group);
    lemma_title_end_among(rest);
    assert forall|i: int| #![trigger rest[i]] 0 <= i < rest.len() implies rest[i]
        == group[i] by {}
    if at < rest.len() {
        lemma_title_span(rest, at);
        assert(rest.take(at) == group.take(at));
    } else {
        assert(lists::title_span(rest) == rest);
        assert(group.take(at) == rest);
    }
    assert(lists::title_span(group) == lists::title_span(rest));
}

/// A group in which no title ends has none.
pub proof fn law_group_without_end_of_title_has_no_title(group: Seq<Placed>)
    requires
        forall|i: int| 0 <= i < group.len() ==> !ends_title(#[trigger] group[i]),
    ensures
        lists::title_of(group) == Seq::<char>::empty(),
{
    lemma_title_end_among(group);
}

/// The events of `groups`, one group after the other.
pub open spec fn chained(groups: Seq<Seq<Placed>>) -> Seq<Placed>
    decreases groups.len(),
{
    if groups.len() == 0 {
        seq![]
    } else {
        chained(groups.drop_last()) + groups.last()
    }
}

/// The groups of a list are its events from the first title on, cut where titles start: every group
/// begins with the start of a title of the list and holds no other, and nothing is lost or moved.
/// What precedes the first title is in no group.
pub proof fn law_groups_are_cut_where_titles_start(events: Seq<Placed>)
    requires
        forall|k: int|
            0 <= k < events.len() && ends_title(#[trigger] events[k]) ==> exists|j: int|
                0 <= j < k && begins_title(#[trigger] events[j]),
    ensures
        events == lists::lead_of(events) + chained(lists::groups_of(events)),
        forall|k: int|
            0 <= k < lists::lead_of(events).len() ==> !begins_title(
                #[trigger] lists::lead_of(events)[k],
            ),
        forall|i: int|
            0 <= i < lists::groups_of(events).len() ==> (#[trigger] lists::groups_of(events)[i]).len()
                > 0 && begins_title(lists::groups_of(events)[i][0]),
        forall|i: int, k: int|
            0 <= i < lists::groups_of(events).len() && 0 < k < lists::groups_of(events)[i].len()
                ==> !begins_title(#[trigger] lists::groups_of(events)[i][k]),
    decreases events.len(),
{
    let lead = lists::lead_of(events);
    let groups = lists::groups_of(events);
    if events.len() > 0 {
        let before = events.drop_last();
        let event = events.last();
        let prior = lists::groups_of(before);
        let front = lists::lead_of(before);
        let last = events.len() - 1;
        assert(events[last] == event);
        assert forall|k: int|
            0 <= k < before.len() && ends_title(#[trigger] before[k]) implies exists|j: int|
            0 <= j < k && begins_title(#[trigger] before[j]) by {
            assert(events[k] == before[k]);
            let j = choose|j: int| 0 <= j < k && begins_title(#[trigger] events[j]);
            assert(begins_title(before[j]));
        }
        law_groups_are_cut_where_titles_start(before);
        lists::lemma_title_marks_push(before, event);
        assert(before.push(event) == events);
        assert(lists::opens_title(event) == begins_title(event));
        assert(lists::closes_title(event) == ends_title(event));
        lemma_groups_begin(before);
        if begins_title(event) {
            assert(groups.drop_last() == prior);
            assert(events == lead + chained(groups));
            assert forall|i: int| 0 <= i < groups.len() implies (#[trigger] groups[i]).len() > 0
                && begins_title(groups[i][0]) by {
                if i < prior.len() {
                    assert(groups[i] == prior[i]);
                }
            }
            assert forall|i: int, k: int|
                0 <= i < groups.len() && 0 < k < groups[i].len() implies !begins_title(
                #[trigger] groups[i][k],
            ) by {
                if i < prior.len() {
                    assert(groups[i] == prior[i]);
                    assert(!begins_title(prior[i][k]));
                }
            }
        } else if lists::has_title_start(before) {
            let group = prior.last().push(event);
            assert(prior[prior.len() - 1] == prior.last());
            assert(groups.drop_last() == prior.drop_last());
            assert(groups.last() == group);
            assert(events == lead + chained(groups));
            assert forall|i: int| 0 <= i < groups.len() implies (#[trigger] groups[i]).len() > 0
                && begins_title(groups[i][0]) by {
                if i < prior.len() - 1 {
                    assert(groups[i] == prior[i]);
                }
            }
            assert forall|i: int, k: int|
                0 <= i < groups.len() && 0 < k < groups[i].len() implies !begins_title(
                #[trigger] groups[i][k],
            ) by {
                if i < prior.len() - 1 {
                    assert(groups[i] == prior[i]);
                    assert(!begins_title(prior[i][k]));
                } else if k < prior.last().len() {
                    assert(groups[i][k] == prior[i][k]);
                    assert(!begins_title(prior[i][k]));
                }
            }
        } else {
            if ends_title(event) {
                let j = choose|j: int| 0 <= j < last && begins_title(#[trigger] events[j]);
                assert(lists::opens_title(before[j]));
            }
            assert(groups == prior);
            assert(events == lead + chained(groups));
            assert forall|k: int| 0 <= k < lead.len() implies !begins_title(
                #[trigger] lead[k],
            ) by {
                if k < front.len() {
                    assert(lead[k] == front[k]);
                }
            }
        }
    } else {
        assert(events == lead + chained(groups));
    }
}

/// Where a title starts, there is a group, and there is none before.
proof fn lemma_groups_begin(events: Seq<Placed>)
    requires
        forall|k: int|
            0 <= k < events.len() && ends_title(#[trigger] events[k]) ==> exists|j: int|
                0 <= j < k && begins_title(#[trigger] events[j]),
    ensures
        lists::has_title_start(events) == (lists::groups_of(events).len() > 0),
    decreases events.len(),
{
    if events.len() > 0 {
        let before = events.drop_last();
        let event = events.last();
        let last = events.len() - 1;
        assert(events[last] == event);
        assert forall|k: int|
            0 <= k < before.len() && ends_title(#[trigger] before[k]) implies exists|j: int|
            0 <= j < k && begins_title(#[trigger] before[j]) by {
            assert(events[k] == before[k]);
            let j = choose|j: int| 0 <= j < k && begins_title(#[trigger] events[j]);
            assert(begins_title(before[j]));
        }
        lemma_groups_begin(before);
        lists::lemma_title_marks_push(before, event);
        assert(before.push(event) == events);
        if ends_title(event) {
            let j = choose|j: int| 0 <= j < last && begins_title(#[trigger] events[j]);
            assert(lists::opens_title(before[j]));
        }
    }
}

/// A group moves with all its events, and is sorted by the key of its title.
pub proof fn law_groups_are_sorted_by_their_titles(groups: Seq<Seq<Placed>>, i: int)
    requires
        0 <= i < groups.len(),
    ensures
        lists::keyed_groups(groups).len() == groups.len(),
        lists::keyed_groups(groups)[i].key == lists::sort_key(lists::title_of(groups[i])),
        lists::keyed_groups(groups)[i].events.len() == groups[i].len(),
        forall|k: int|
            0 <= k < groups[i].len() ==> #[trigger] lists::keyed_groups(groups)[i].events[k]
                == groups[i][k].event,
{
}

/// In a sorted page, of two groups of one list, the title of the one that comes first has the key
/// that stands first in alphabetical order. This holds of every list, also of one within another.
pub proof fn law_titles_stand_in_alphabetical_order(
    events: Seq<EventView>,
    start: int,
    end: int,
    i: int,
    j: int,
)
    requires
        sorting_laws::titled(events),
        nesting::list_at(lists::sorted_lists(events), start, end),
        ({
            let inner = lists::sorted_lists(events).subrange(start + 1, end);
            0 <= i < j < lists::title_groups(inner).len()
        }),
    ensures
        ({
            let inner = lists::sorted_lists(events).subrange(start + 1, end);
            let groups = lists::title_groups(inner);
            text::alphabetical(
                lists::sort_key(lists::title_of(groups[i])),
                lists::sort_key(lists::title_of(groups[j])),
            )
        }),
{
    let inner = lists::sorted_lists(events).subrange(start + 1, end);
    let groups = lists::title_groups(inner);
    let keyed = lists::keyed_groups(groups);
    sorting_laws::law_every_list_is_alphabetical(events);
    assert(order::in_order(keyed, lists::by_key()));
    assert(lists::by_key()(keyed[i], keyed[j]));
}

/// Of two groups of a list whose titles have keys that differ, the one whose key stands first in
/// alphabetical order comes first when the list is sorted.
pub proof fn law_smaller_key_comes_first(inner: Seq<EventView>, i: int, j: int)
    requires
        0 <= i < lists::sorted_groups(inner).len(),
        0 <= j < lists::sorted_groups(inner).len(),
        lists::sorted_groups(inner)[i].key != lists::sorted_groups(inner)[j].key,
        text::alphabetical(lists::sorted_groups(inner)[i].key, lists::sorted_groups(inner)[j].key),
    ensures
        i < j,
{
    let sorted = lists::sorted_groups(inner);
    sorting_laws::law_sorted_groups_are_alphabetical(inner);
    if j < i {
        assert(text::alphabetical(sorted[j].key, sorted[i].key));
        sorting_laws::law_alphabetical_order_is_total(
            sorted[i].key,
            sorted[j].key,
            sorted[i].key,
        );
    }
}

/// A glossary page that is to be sorted and linked is sorted first, and what is linked is the sorted
/// page; one that is not to be sorted is linked as it is.
pub proof fn law_glossary_page_is_sorted_before_it_is_linked(
    events: Seq<EventView>,
    terms: Seq<TermView>,
    path: Seq<char>,
    config: ConfigView,
)
    requires
        path.len() == 0,
    ensures
        config.sort_glossary && config.process_glossary ==> linker::chapter_events(
            events,
            terms,
            path,
            config,
        ) == linker::linked_events(
            lists::sorted_lists(events),
            terms,
            path,
            config,
            Set::empty(),
            true,
        ).events,
        !config.sort_glossary ==> linker::chapter_events(events, terms, path, config)
            == linker::linked_events(events, terms, path, config, Set::empty(), true).events,
        config.sort_glossary && !config.process_glossary ==> linker::chapter_events(
            events,
            terms,
            path,
            config,
        ) == lists::sorted_lists(events),
{
}

/// Each start of a title starts a group: events that begin with one and hold no other are one more
/// group after whatever precedes them, and change nothing before.
pub proof fn law_each_title_starts_a_group(before: Seq<Placed>, group: Seq<Placed>)
    requires
        group.len() > 0,
        begins_title(group[0]),
        forall|k: int| 0 < k < group.len() ==> !begins_title(#[trigger] group[k]),
    ensures
        lists::groups_of(before + group) == lists::groups_of(before).push(group),
        lists::lead_of(before + group) == lists::lead_of(before),
    decreases group.len(),
{
    let rest = group.drop_last();
    let event = group.last();
    let prior = before + rest;
    assert((before + group).drop_last() == prior);
    assert(prior.push(event) == before + group);
    lists::lemma_title_marks_push(prior, event);
    assert(group[group.len() - 1] == event);
    assert(lists::opens_title(event) == begins_title(event));
    if group.len() == 1 {
        assert(prior == before);
        assert(group == seq![event]);
    } else {
        assert forall|k: int| #![trigger rest[k]] 0 <= k < rest.len() implies rest[k]
            == group[k] by {}
        law_each_title_starts_a_group(before, rest);
        assert(prior[before.len() as int] == group[0]);
        assert(lists::opens_title(prior[before.len() as int]));
        let groups = lists::groups_of(before);
        assert(groups.push(rest).drop_last() == groups);
        assert(rest.push(event) == group);
    }
}

/// Whether a title of the list ends at an event.
pub open spec fn title_ends() -> spec_fn(Placed) -> bool {
    |placed: Placed| ends_title(placed)
}

/// Whether no title of the list ends at an event.
pub open spec fn no_title_ends() -> spec_fn(Placed) -> bool {
    |placed: Placed| !ends_title(placed)
}

/// Before the first start of a title, only ends of titles form a group, all of them one; everything
/// else stays in front.
pub proof fn law_before_the_first_title_only_its_ends_are_grouped(events: Seq<Placed>)
    requires
        forall|k: int| 0 <= k < events.len() ==> !begins_title(#[trigger] events[k]),
    ensures
        lists::lead_of(events) == events.filter(no_title_ends()),
        events.filter(title_ends()).len() == 0 ==> lists::groups_of(events).len() == 0,
        events.filter(title_ends()).len() > 0 ==> lists::groups_of(events) == seq![
            events.filter(title_ends()),
        ],
    decreases events.len(),
{
    broadcast use Seq::lemma_filter_push;

    assert(!lists::has_title_start(events)) by {
        if lists::has_title_start(events) {
            let i = choose|i: int|
                0 <= i < events.len() && lists::opens_title(#[trigger] events[i]);
            assert(begins_title(events[i]));
        }
    }
    if events.len() > 0 {
        let before = events.drop_last();
        let event = events.last();
        let ends = before.filter(title_ends());
        assert forall|k: int| 0 <= k < before.len() implies !begins_title(
            #[trigger] before[k],
        ) by {
            assert(before[k] == events[k]);
        }
        law_before_the_first_title_only_its_ends_are_grouped(before);
        lists::lemma_title_marks_push(before, event);
        assert(before.push(event) == events);
        assert(!begins_title(events[events.len() - 1]));
        assert(lists::closes_title(event) == ends_title(event));
        if ends_title(event) {
            if ends.len() == 0 {
                assert(ends.push(event) == seq![event]);
            } else {
                assert(seq![ends].drop_last() == Seq::<Seq<Placed>>::empty());
                assert(Seq::<Seq<Placed>>::empty().push(ends.push(event)) == seq![
                    ends.push(event),
                ]);
            }
        }
    } else {
        assert(events.filter(no_title_ends()) == events);
        assert(events.filter(title_ends()) == events);
    }
}

/// Sorting a list leaves its start, its end and what precedes its first title where they are, in
/// front of all groups.
pub proof fn law_leading_events_stay_in_front(list: Seq<EventView>)
    requires
        list.len() >= 2,
    ensures
        ({
            let lead = lists::leading_events(list.subrange(1, list.len() - 1));
            &&& lists::sorted_list(list).first() == list.first()
            &&& lists::sorted_list(list).last() == list.last()
            &&& lists::sorted_list(list).subrange(1, 1 + lead.len() as int) == lead
        }),
{
    lists::law_sorted_list_keeps_events(list);
}

/// An event belongs to a list itself exactly if no list that starts and ends in it encloses the
/// event.
pub proof fn law_events_in_inner_lists_are_not_own(inner: Seq<EventView>, i: int)
    requires
        0 <= i < inner.len(),
    ensures
        lists::placed(inner).len() == inner.len(),
        lists::placed(inner)[i].event == inner[i],
        lists::placed(inner)[i].own <==> forall|start: int, end: int| #[trigger]
            nesting::list_at(inner, start, end) ==> i <= start || end <= i,
{
}

} // verus!
