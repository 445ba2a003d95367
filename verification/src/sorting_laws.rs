//! What sorting guarantees.

use crate::config::ConfigView;
use crate::definition_lists as lists;
use crate::definition_lists::{GroupView, Placed};
use crate::glossary::TermView;
use crate::linker;
use crate::linking_laws;
use crate::markdown;
use crate::markdown::{EventView, OpenElements};
use crate::nesting;
use crate::order;
use crate::text;
use vstd::prelude::*;
use vstd::seq_lib::*;

verus! {

/// Alphabetical order is a total order: it compares any two texts, and consistently, and only equal
/// texts may stand either way.
pub proof fn law_alphabetical_order_is_total(a: Seq<char>, b: Seq<char>, c: Seq<char>)
    ensures
        text::alphabetical(a, b) || text::alphabetical(b, a),
        text::alphabetical(a, b) && text::alphabetical(b, c) ==> text::alphabetical(a, c),
        text::alphabetical(a, b) && text::alphabetical(b, a) <==> a == b,
    decreases a.len(),
{
    if a.len() > 0 && b.len() > 0 && a.first() == b.first() {
        let rest = if c.len() > 0 {
            c.drop_first()
        } else {
            c
        };
        law_alphabetical_order_is_total(a.drop_first(), b.drop_first(), rest);
        assert(a == seq![a.first()] + a.drop_first());
        assert(b == seq![b.first()] + b.drop_first());
    }
    if a.len() == 0 && b.len() == 0 {
        assert(a == b);
    }
    if a == b {
        lemma_alphabetical_reflexive(a);
    }
}

/// A text may stand where it stands.
proof fn lemma_alphabetical_reflexive(a: Seq<char>)
    ensures
        text::alphabetical(a, a),
    decreases a.len(),
{
    if a.len() > 0 {
        lemma_alphabetical_reflexive(a.drop_first());
    }
}

/// Groups can be sorted by their keys.
proof fn lemma_by_key_total()
    ensures
        order::total_preorder(lists::by_key()),
{
    let leq = lists::by_key();
    assert forall|a: GroupView, b: GroupView| #[trigger] leq(a, b) || leq(b, a) by {
        law_alphabetical_order_is_total(a.key, b.key, a.key);
    }
    assert forall|a: GroupView, b: GroupView, c: GroupView| #[trigger]
        leq(a, b) && #[trigger] leq(b, c) implies leq(a, c) by {
        law_alphabetical_order_is_total(a.key, b.key, c.key);
    }
}

/// The groups of a sorted list stand in alphabetical order of their keys, and they are the groups
/// that it had.
pub proof fn law_sorted_groups_are_alphabetical(inner: Seq<EventView>)
    ensures
        forall|i: int, j: int|
            #![trigger
                lists::sorted_groups(inner)[i],
                lists::sorted_groups(inner)[j]]
            0 <= i < j < lists::sorted_groups(inner).len() ==> text::alphabetical(
                lists::sorted_groups(inner)[i].key,
                lists::sorted_groups(inner)[j].key,
            ),
        lists::sorted_groups(inner).to_multiset() == lists::keyed_groups(
            lists::title_groups(inner),
        ).to_multiset(),
{
    let groups = lists::keyed_groups(lists::title_groups(inner));
    let sorted = lists::sorted_groups(inner);
    let leq = lists::by_key();
    lemma_by_key_total();
    order::lemma_sort_in_order(groups, leq);
    order::lemma_sort_multiset(groups, leq);
    assert forall|i: int, j: int|
        #![trigger sorted[i], sorted[j]]
        0 <= i < j < sorted.len() implies text::alphabetical(sorted[i].key, sorted[j].key) by {
        assert(leq(sorted[i], sorted[j]));
    }
}

/// Whether a group has the key `key`.
pub open spec fn has_key(key: Seq<char>) -> spec_fn(GroupView) -> bool {
    |group: GroupView| group.key == key
}

/// Groups with equal keys keep the order in which they stand in the source.
pub proof fn law_equal_keys_keep_source_order(inner: Seq<EventView>, key: Seq<char>)
    ensures
        lists::sorted_groups(inner).filter(has_key(key))
            == lists::keyed_groups(lists::title_groups(inner)).filter(
            has_key(key),
        ),
{
    let groups = lists::keyed_groups(lists::title_groups(inner));
    let leq = lists::by_key();
    let a = GroupView { key, events: seq![] };
    lemma_by_key_total();
    order::lemma_sort_rank(groups, leq, a);
    assert(order::same_rank(a, leq) =~= has_key(key)) by {
        assert forall|group: GroupView| #[trigger] order::same_rank(a, leq)(group) == has_key(key)(
            group,
        ) by {
            law_alphabetical_order_is_total(a.key, group.key, a.key);
        }
    }
}

/// What follows is sorted by itself, where it ends no list that starts before it.
proof fn lemma_sorted_append(a: Seq<EventView>, x: Seq<EventView>)
    requires
        nesting::ends_paired(x),
    ensures
        lists::sorted_lists(a + x) == lists::sorted_lists(a) + lists::sorted_lists(x),
    decreases x.len(),
{
    if x.len() == 0 {
        assert(a + x == a);
        assert(lists::sorted_lists(a) + lists::sorted_lists(x) == lists::sorted_lists(a));
    } else {
        let rest = x.drop_last();
        let event = x.last();
        let before = lists::sorted_lists(a);
        let prev = lists::sorted_lists(rest);
        nesting::lemma_ends_paired_last(x);
        lemma_sorted_append(a, rest);
        lists::lemma_sorted_lists_kept(a);
        lists::lemma_sorted_lists_kept(rest);
        assert((a + x).drop_last() == a + rest);
        assert((a + x).last() == event);
        if nesting::list_end(event) {
            nesting::lemma_open_list_append(a, rest, 0);
            let start = nesting::open_list(rest)->0;
            let list = prev.skip(start).push(event);
            assert((before + prev).skip(a.len() + start).push(event) == list);
            assert((before + prev).take(a.len() + start) == before + prev.take(start));
            assert(before + prev.take(start) + lists::sorted_list(list) == before + (prev.take(
                start,
            ) + lists::sorted_list(list)));
        } else {
            assert((before + prev).push(event) == before + prev.push(event));
        }
    }
}

/// A list is sorted once the lists within it are.
proof fn lemma_sorted_of_list(first: EventView, inner: Seq<EventView>, last: EventView)
    requires
        nesting::list_start(first),
        nesting::list_end(last),
        nesting::whole(inner),
    ensures
        lists::sorted_lists(seq![first] + inner + seq![last]) == lists::sorted_list(
            seq![first] + lists::sorted_lists(inner) + seq![last],
        ),
        lists::sorted_lists(seq![first] + inner) == seq![first] + lists::sorted_lists(inner),
{
    let head = seq![first];
    let list = head + inner + seq![last];
    lemma_sorted_append(head, inner);
    assert(lists::sorted_lists(head.drop_last()) == Seq::<EventView>::empty());
    assert(lists::sorted_lists(head) == head);
    nesting::lemma_open_list_append(head, inner, 0);
    assert(list.drop_last() == head + inner);
    let prev = lists::sorted_lists(head + inner);
    assert(prev.skip(0).push(last) == head + lists::sorted_lists(inner) + seq![last]);
    assert(prev.take(0) == Seq::<EventView>::empty());
}

/// The part of `events` between their last, which ends a list, and the start of that list.
spec fn last_inner(events: Seq<EventView>, start: int) -> Seq<EventView> {
    events.subrange(start + 1, events.len() - 1)
}

/// The list that ends with `events`.
spec fn last_list(events: Seq<EventView>, start: int) -> Seq<EventView> {
    seq![events[start]] + last_inner(events, start) + seq![events.last()]
}

/// The list that ends with `events` is whole, and stands after the rest.
proof fn lemma_last_list(events: Seq<EventView>, start: int)
    requires
        events.len() > 0,
        nesting::list_end(events.last()),
        nesting::open_list(events.drop_last()) == Some(start),
    ensures
        0 <= start < events.len() - 1,
        nesting::list_start(events[start]),
        nesting::whole(last_inner(events, start)),
        nesting::list_at(events, start, events.len() - 1),
        events == events.take(start) + last_list(events, start),
{
    let before = events.drop_last();
    nesting::lemma_open_list(before, 0);
    assert(before.skip(start + 1) == last_inner(events, start));
    assert(before[start] == events[start]);
    assert(events == events.take(start) + last_list(events, start));
}

/// What becomes of events with which a list ends.
proof fn lemma_closed(events: Seq<EventView>, start: int)
    requires
        events.len() > 0,
        nesting::list_end(events.last()),
        nesting::open_list(events.drop_last()) == Some(start),
    ensures
        0 <= start < events.len() - 1,
        nesting::list_start(events[start]),
        nesting::whole(last_inner(events, start)),
        nesting::whole(last_list(events, start)),
        nesting::list_at(events, start, events.len() - 1),
        events == events.take(start) + last_list(events, start),
        lists::sorted_lists(last_list(events, start)) == lists::sorted_list(
            seq![events[start]] + lists::sorted_lists(last_inner(events, start)) + seq![
                events.last(),
            ],
        ),
        lists::sorted_lists(events) == lists::sorted_lists(events.take(start))
            + lists::sorted_lists(last_list(events, start)),
{
    let first = events[start];
    let last = events.last();
    lemma_last_list(events, start);
    nesting::lemma_list_whole(first, last_inner(events, start), last);
    lemma_sorted_of_list(first, last_inner(events, start), last);
    lemma_sorted_append(events.take(start), last_list(events, start));
}

/// A list ends once.
proof fn lemma_one_end(events: Seq<EventView>, start: int, end: int, other: int)
    requires
        nesting::list_at(events, start, end),
        nesting::list_at(events, start, other),
    ensures
        end == other,
{
    let (least, most) = if end < other {
        (end, other)
    } else {
        (other, end)
    };
    if least < most {
        reveal(nesting::ends_paired);
        let inner = events.subrange(start + 1, most);
        let at = least - start - 1;
        assert(inner[at] == events[least]);
        assert(inner.take(at) == events.subrange(start + 1, least));
    }
}

/// Whether `sorted` is `events` with every list that lies in no other sorted by itself, and the
/// rest in place.
spec fn structure_kept(events: Seq<EventView>, sorted: Seq<EventView>) -> bool {
    &&& sorted.len() == events.len()
    &&& forall|start: int, end: int| #[trigger]
        nesting::list_at(events, start, end) && nesting::outside_lists(events, start)
            ==> sorted.subrange(start, end + 1) == lists::sorted_lists(
            events.subrange(start, end + 1),
        )
    &&& forall|i: int|
        #![trigger sorted[i]]
        0 <= i < events.len() && nesting::outside_lists(events, i) ==> sorted[i] == events[i]
}

/// What lies in no list of the whole lies in no list of its first part.
proof fn lemma_outside_of_first(a: Seq<EventView>, x: Seq<EventView>, i: int)
    requires
        nesting::outside_lists(a + x, i),
    ensures
        nesting::outside_lists(a, i),
{
    assert forall|start: int, end: int| #[trigger] nesting::list_at(a, start, end) implies !(start
        < i < end) by {
        nesting::lemma_lists_of_both(a, x, start, end);
        assert(nesting::list_at(a + x, start, end));
    }
}

/// A sorted list starts and ends as it did.
proof fn lemma_sorted_bounds(first: EventView, inner: Seq<EventView>, last: EventView)
    ensures
        ({
            let sorted = lists::sorted_list(
                seq![first] + lists::sorted_lists(inner) + seq![last],
            );
            &&& sorted.len() == inner.len() + 2
            &&& sorted.first() == first
            &&& sorted.last() == last
        }),
{
    lists::lemma_sorted_lists_kept(inner);
    lists::law_sorted_list_keeps_events(seq![first] + lists::sorted_lists(inner) + seq![last]);
}

/// A list that lies in no other stays in place if another list follows.
proof fn lemma_outer_list_closed(events: Seq<EventView>, opened: int, start: int, end: int)
    requires
        events.len() > 0,
        nesting::list_end(events.last()),
        nesting::open_list(events.drop_last()) == Some(opened),
        structure_kept(events.take(opened), lists::sorted_lists(events.take(opened))),
        nesting::list_at(events, start, end),
        nesting::outside_lists(events, start),
    ensures
        lists::sorted_lists(events).subrange(start, end + 1) == lists::sorted_lists(
            events.subrange(start, end + 1),
        ),
{
    let last = events.len() - 1;
    let sorted = lists::sorted_lists(events);
    let head = events.take(opened);
    let list = last_list(events, opened);
    lemma_closed(events, opened);
    lists::lemma_sorted_lists_kept(head);
    lists::lemma_sorted_lists_kept(list);
    nesting::lemma_lists_of_both(head, list, start, end);
    if end < opened {
        lemma_outside_of_first(head, list, start);
        assert(sorted.subrange(start, end + 1) == lists::sorted_lists(head).subrange(
            start,
            end + 1,
        ));
        assert(events.subrange(start, end + 1) == head.subrange(start, end + 1));
    } else {
        assert(!(opened < start < last));
        lemma_one_end(events, opened, end, last);
        assert(events.subrange(start, end + 1) == list);
        assert(sorted.subrange(start, end + 1) == lists::sorted_lists(list));
    }
}

/// What lies in no list stays in place if a list follows.
proof fn lemma_outside_closed(events: Seq<EventView>, opened: int, i: int)
    requires
        events.len() > 0,
        nesting::list_end(events.last()),
        nesting::open_list(events.drop_last()) == Some(opened),
        structure_kept(events.take(opened), lists::sorted_lists(events.take(opened))),
        0 <= i < events.len(),
        nesting::outside_lists(events, i),
    ensures
        lists::sorted_lists(events)[i] == events[i],
{
    let last = events.len() - 1;
    let sorted = lists::sorted_lists(events);
    let head = events.take(opened);
    let list = last_list(events, opened);
    lemma_closed(events, opened);
    lemma_sorted_bounds(events[opened], last_inner(events, opened), events.last());
    assert(!(opened < i < last));
    if i < opened {
        lemma_outside_of_first(head, list, i);
        assert(sorted[i] == lists::sorted_lists(head)[i]);
    } else if i == opened {
        assert(sorted[i] == lists::sorted_lists(list).first());
    } else {
        assert(sorted[i] == lists::sorted_lists(list).last());
    }
}

/// A list with which events end keeps the structure of those before it.
proof fn lemma_structure_closed(events: Seq<EventView>, opened: int)
    requires
        events.len() > 0,
        nesting::list_end(events.last()),
        nesting::open_list(events.drop_last()) == Some(opened),
        structure_kept(events.take(opened), lists::sorted_lists(events.take(opened))),
    ensures
        structure_kept(events, lists::sorted_lists(events)),
{
    let sorted = lists::sorted_lists(events);
    lists::lemma_sorted_lists_kept(events);
    assert forall|start: int, end: int| #[trigger]
        nesting::list_at(events, start, end) && nesting::outside_lists(
            events,
            start,
        ) implies sorted.subrange(start, end + 1) == lists::sorted_lists(
        events.subrange(start, end + 1),
    ) by {
        lemma_outer_list_closed(events, opened, start, end);
    }
    assert forall|i: int|
        #![trigger sorted[i]]
        0 <= i < events.len() && nesting::outside_lists(events, i) implies sorted[i]
        == events[i] by {
        lemma_outside_closed(events, opened, i);
    }
}

/// One more event that ends no list keeps the structure of those before it.
proof fn lemma_structure_pushed(events: Seq<EventView>)
    requires
        events.len() > 0,
        nesting::open_list(events.drop_last()) is None || !nesting::list_end(events.last()),
        structure_kept(events.drop_last(), lists::sorted_lists(events.drop_last())),
    ensures
        structure_kept(events, lists::sorted_lists(events)),
{
    let before = events.drop_last();
    let last = events.len() - 1;
    let sorted = lists::sorted_lists(events);
    let prev = lists::sorted_lists(before);
    let more = seq![events.last()];
    assert(events == before + more);
    assert(events.take(last) == before);
    assert forall|start: int, end: int| #[trigger]
        nesting::list_at(events, start, end) && nesting::outside_lists(
            events,
            start,
        ) implies sorted.subrange(start, end + 1) == lists::sorted_lists(
        events.subrange(start, end + 1),
    ) by {
        nesting::lemma_lists_of_both(before, more, start, end);
        nesting::lemma_list_at(events, start, end);
        assert(nesting::list_at(before, start, end));
        lemma_outside_of_first(before, more, start);
        assert(sorted.subrange(start, end + 1) == prev.subrange(start, end + 1));
        assert(events.subrange(start, end + 1) == before.subrange(start, end + 1));
    }
    assert forall|i: int|
        #![trigger sorted[i]]
        0 <= i < events.len() && nesting::outside_lists(events, i) implies sorted[i]
        == events[i] by {
        if i < last {
            lemma_outside_of_first(before, more, i);
            assert(sorted[i] == prev[i]);
        }
    }
}

/// Sorting keeps the structure of a page.
proof fn lemma_structure_kept(events: Seq<EventView>)
    ensures
        structure_kept(events, lists::sorted_lists(events)),
    decreases events.len(),
{
    if events.len() > 0 {
        match nesting::open_list(events.drop_last()) {
            Some(opened) if nesting::list_end(events.last()) => {
                lemma_closed(events, opened);
                lemma_structure_kept(events.take(opened));
                lemma_structure_closed(events, opened);
            },
            _ => {
                lemma_structure_kept(events.drop_last());
                lemma_structure_pushed(events);
            },
        }
    }
}

/// Sorting the definition lists of a page keeps the rest of it in place: the page has as many
/// events as before and the same ones, and whatever stands outside the lists stays at its position,
/// as do the start and the end of every list that lies in no other. Such a list is sorted by itself.
pub proof fn law_sorted_lists_keep_structure(events: Seq<EventView>)
    ensures
        lists::sorted_lists(events).len() == events.len(),
        lists::sorted_lists(events).to_multiset() == events.to_multiset(),
        forall|start: int, end: int| #[trigger]
            nesting::list_at(events, start, end) && nesting::outside_lists(events, start)
                ==> lists::sorted_lists(events).subrange(start, end + 1) == lists::sorted_lists(
                events.subrange(start, end + 1),
            ),
        forall|i: int|
            #![trigger lists::sorted_lists(events)[i]]
            0 <= i < events.len() && nesting::outside_lists(events, i) ==> lists::sorted_lists(
                events,
            )[i] == events[i],
{
    lists::lemma_sorted_lists_kept(events);
    lemma_structure_kept(events);
}

/// Whether every title that ends among `events` of a list has started there.
pub open spec fn starts_first(events: Seq<Placed>) -> bool {
    forall|k: int|
        #![trigger events[k]]
        0 <= k < events.len() && lists::closes_title(events[k]) ==> lists::has_title_start(
            events.take(k),
        )
}

/// Whether every title of the list in which `inner` stands starts before it ends.
pub open spec fn titles_opened(inner: Seq<EventView>) -> bool {
    starts_first(lists::placed(inner))
}

/// Whether `holds` of what stands in each list among `events`.
pub open spec fn each_list(
    events: Seq<EventView>,
    holds: spec_fn(Seq<EventView>) -> bool,
) -> bool {
    forall|start: int, end: int| #[trigger]
        nesting::list_at(events, start, end) ==> holds(events.subrange(start + 1, end))
}

/// Whether, in every list among `events`, titles start before they end.
pub open spec fn titled(events: Seq<EventView>) -> bool {
    each_list(events, |inner: Seq<EventView>| titles_opened(inner))
}

/// Whether every list among `events` has its groups in alphabetical order.
pub open spec fn alphabetical_lists(events: Seq<EventView>) -> bool {
    each_list(
        events,
        |inner: Seq<EventView>|
            order::in_order(lists::keyed_groups(lists::title_groups(inner)), lists::by_key()),
    )
}

/// Whether `group` starts with the start of a title and holds no other.
spec fn one_title(group: Seq<Placed>) -> bool {
    &&& group.len() > 0
    &&& lists::opens_title(group[0])
    &&& forall|k: int| #![trigger group[k]] 0 < k < group.len() ==> !lists::opens_title(group[k])
}

/// Whether no title starts or ends among `events`.
spec fn untitled(events: Seq<Placed>) -> bool {
    forall|k: int|
        #![trigger events[k]]
        0 <= k < events.len() ==> !lists::opens_title(events[k]) && !lists::closes_title(events[k])
}

/// The events of `groups`, one group after the other.
spec fn joined(groups: Seq<Seq<Placed>>) -> Seq<Placed>
    decreases groups.len(),
{
    if groups.len() == 0 {
        seq![]
    } else {
        joined(groups.drop_last()) + groups.last()
    }
}

/// Whether `groups` are groups of a list, each with one title, that with `lead` make up `events`.
spec fn grouped(events: Seq<Placed>, lead: Seq<Placed>, groups: Seq<Seq<Placed>>) -> bool {
    &&& untitled(lead)
    &&& events == lead + joined(groups)
    &&& lists::has_title_start(events) == (groups.len() > 0)
    &&& forall|i: int| #![trigger groups[i]] 0 <= i < groups.len() ==> one_title(groups[i])
}

/// One more event that starts a title.
proof fn lemma_grouped_start(
    events: Seq<Placed>,
    lead: Seq<Placed>,
    groups: Seq<Seq<Placed>>,
    event: Placed,
)
    requires
        grouped(events, lead, groups),
        lists::opens_title(event),
    ensures
        grouped(events.push(event), lead, groups.push(seq![event])),
{
    let more = groups.push(seq![event]);
    lists::lemma_title_marks_push(events, event);
    assert(more.drop_last() == groups);
    assert(events.push(event) == lead + joined(more));
    assert forall|i: int| #![trigger more[i]] 0 <= i < more.len() implies one_title(more[i]) by {
        if i < groups.len() {
            assert(more[i] == groups[i]);
        }
    }
}

/// One more event in the last group.
proof fn lemma_grouped_extend(
    events: Seq<Placed>,
    lead: Seq<Placed>,
    groups: Seq<Seq<Placed>>,
    event: Placed,
)
    requires
        grouped(events, lead, groups),
        groups.len() > 0,
        !lists::opens_title(event),
    ensures
        grouped(events.push(event), lead, lists::extend_last(groups, event)),
{
    let more = lists::extend_last(groups, event);
    let last = groups.last();
    lists::lemma_title_marks_push(events, event);
    assert(groups[groups.len() - 1] == last);
    assert(more.drop_last() == groups.drop_last());
    assert(events.push(event) == lead + joined(more));
    assert forall|i: int| #![trigger more[i]] 0 <= i < more.len() implies one_title(more[i]) by {
        if i < groups.len() - 1 {
            assert(more[i] == groups[i]);
        } else {
            let group = last.push(event);
            assert(group[0] == last[0]);
            assert forall|k: int|
                #![trigger group[k]]
                0 < k < group.len() implies !lists::opens_title(group[k]) by {
                if k < last.len() {
                    assert(group[k] == last[k]);
                }
            }
        }
    }
}

/// The events of a list form groups, each with one title.
proof fn lemma_grouped(events: Seq<Placed>)
    requires
        starts_first(events),
    ensures
        grouped(events, lists::lead_of(events), lists::groups_of(events)),
    decreases events.len(),
{
    if events.len() > 0 {
        let before = events.drop_last();
        let event = events.last();
        let at = events.len() - 1;
        let lead = lists::lead_of(before);
        let groups = lists::groups_of(before);
        assert(events[at] == event && events.take(at) == before);
        assert forall|k: int| #![trigger before[k]] 0 <= k < before.len() implies events[k]
            == before[k] && events.take(k) == before.take(k) by {}
        lemma_grouped(before);
        lists::lemma_title_marks_push(before, event);
        assert(before.push(event) == events);
        if lists::opens_title(event) {
            lemma_grouped_start(before, lead, groups, event);
        } else if lists::has_title_start(before) {
            lemma_grouped_extend(before, lead, groups, event);
        } else {
            let more = lead.push(event);
            assert(groups == Seq::<Seq<Placed>>::empty());
            assert(events == more + joined(groups));
            assert forall|k: int|
                #![trigger more[k]]
                0 <= k < more.len() implies !lists::opens_title(more[k]) && !lists::closes_title(
                more[k],
            ) by {
                if k < lead.len() {
                    assert(more[k] == lead[k]);
                }
            }
        }
    } else {
        assert(events == lists::lead_of(events) + joined(lists::groups_of(events)));
    }
}

/// What lies outside lists in a whole lies outside lists in its parts, where the second ends no list
/// of the first.
proof fn lemma_outside_of_both(a: Seq<EventView>, x: Seq<EventView>, i: int)
    requires
        nesting::ends_paired(x),
    ensures
        i < a.len() ==> nesting::outside_lists(a + x, i) == nesting::outside_lists(a, i),
        a.len() <= i ==> nesting::outside_lists(a + x, i) == nesting::outside_lists(
            x,
            i - a.len(),
        ),
{
    let both = a + x;
    let n = a.len() as int;
    assert forall|start: int, end: int| #[trigger] nesting::list_at(both, start, end) implies (if end
        < n {
        nesting::list_at(a, start, end)
    } else {
        n <= start && nesting::list_at(x, start - n, end - n)
    }) by {
        nesting::lemma_lists_of_both(a, x, start, end);
    }
    assert forall|start: int, end: int| #[trigger] nesting::list_at(
        a,
        start,
        end,
    ) implies nesting::list_at(both, start, end) by {
        nesting::lemma_lists_of_both(a, x, start, end);
    }
    assert forall|start: int, end: int| #[trigger] nesting::list_at(
        x,
        start,
        end,
    ) implies nesting::list_at(both, start + n, end + n) by {
        nesting::lemma_lists_of_both(a, x, start + n, end + n);
    }
    if n <= i && nesting::outside_lists(both, i) {
        assert forall|start: int, end: int| #[trigger] nesting::list_at(x, start, end) implies !(
        start < i - n < end) by {
            assert(nesting::list_at(both, start + n, end + n));
        }
    }
}

/// Parts are placed by themselves, where the second ends no list of the first.
proof fn lemma_placed_append(a: Seq<EventView>, x: Seq<EventView>)
    requires
        nesting::ends_paired(x),
    ensures
        lists::placed(a + x) == lists::placed(a) + lists::placed(x),
{
    let both = lists::placed(a + x);
    let parts = lists::placed(a) + lists::placed(x);
    assert forall|i: int| 0 <= i < both.len() implies both[i] == #[trigger] parts[i] by {
        lemma_outside_of_both(a, x, i);
    }
    assert(both == parts);
}

/// Whether `group` is one title with what belongs to it, with whole lists.
#[verifier::opaque]
spec fn whole_group(group: GroupView) -> bool {
    &&& one_title(lists::placed(group.events))
    &&& nesting::whole(group.events)
    &&& group == lists::keyed(lists::placed(group.events))
}

/// Whether `leading` and `groups` can stand one after the other in any order of the groups.
spec fn separable(leading: Seq<EventView>, groups: Seq<GroupView>) -> bool {
    &&& untitled(lists::placed(leading))
    &&& nesting::whole(leading)
    &&& forall|i: int| #![trigger groups[i]] 0 <= i < groups.len() ==> whole_group(groups[i])
}

/// What is left of whole lists, where a part with whole lists is taken off.
proof fn lemma_whole_rest(events: Seq<EventView>, at: int)
    requires
        nesting::whole(events),
        0 <= at <= events.len(),
        nesting::list_depth(events.take(at)) == 0,
    ensures
        nesting::whole(events.take(at)),
        nesting::whole(events.skip(at)),
{
    let a = events.take(at);
    let x = events.skip(at);
    assert(events == a + x);
    nesting::lemma_ends_paired_take(events, at);
    nesting::lemma_depth_after_level(a, x);
    assert(nesting::ends_paired(x)) by {
        reveal(nesting::ends_paired);
        assert forall|k: int|
            #![trigger x[k]]
            0 <= k < x.len() && nesting::list_end(x[k]) implies nesting::list_depth(x.take(k))
            > 0 by {
            assert(events[at + k] == x[k]);
            assert(events.take(at + k) == a + x.take(k));
            nesting::lemma_depth_after_level(a, x.take(k));
        }
    }
}

/// The groups of whole lists hold whole lists.
proof fn lemma_whole_groups(inner: Seq<EventView>, lead: Seq<Placed>, groups: Seq<Seq<Placed>>)
    requires
        nesting::whole(inner),
        untitled(lead),
        lists::placed(inner) == lead + joined(groups),
        forall|i: int| #![trigger groups[i]] 0 <= i < groups.len() ==> one_title(groups[i]),
    ensures
        separable(lists::bare(lead), lists::keyed_groups(groups)),
        inner == lists::bare(lead) + lists::concatenated(lists::keyed_groups(groups)),
    decreases groups.len(),
{
    reveal(whole_group);
    let all = lists::placed(inner);
    let keyed = lists::keyed_groups(groups);
    assert(lists::bare(all) == inner);
    if groups.len() == 0 {
        assert(all == lead);
        assert(keyed == Seq::<GroupView>::empty());
        assert(inner == lists::bare(lead) + lists::concatenated(keyed));
    } else {
        let rest = groups.drop_last();
        let group = groups.last();
        let prefix = lead + joined(rest);
        let at = prefix.len() as int;
        let a = inner.take(at);
        let x = inner.skip(at);
        assert(groups[groups.len() - 1] == group);
        assert(all == prefix + group);
        assert(all[at] == group[0]);
        nesting::lemma_outside_level(inner, at);
        lemma_whole_rest(inner, at);
        assert(inner == a + x);
        lemma_placed_append(a, x);
        assert(lists::placed(a) == all.take(at));
        assert(all.take(at) == prefix);
        assert(lists::placed(x) == all.skip(at));
        assert(all.skip(at) == group);
        assert(lists::bare(lists::placed(x)) == x);
        assert forall|i: int| #![trigger rest[i]] 0 <= i < rest.len() implies rest[i]
            == groups[i] by {}
        lemma_whole_groups(a, lead, rest);
        assert(keyed.drop_last() == lists::keyed_groups(rest));
        assert(keyed.last() == lists::keyed(group));
        assert(inner == lists::bare(lead) + lists::concatenated(keyed));
        assert forall|i: int| #![trigger keyed[i]] 0 <= i < keyed.len() implies whole_group(
            keyed[i],
        ) by {
            if i < rest.len() {
                assert(keyed[i] == lists::keyed_groups(rest)[i]);
            } else {
                assert(keyed[i] == lists::keyed(group));
            }
        }
    }
}

/// A list with whole lists consists of groups that can stand in any order.
proof fn lemma_separable(inner: Seq<EventView>)
    requires
        titles_opened(inner),
        nesting::whole(inner),
    ensures
        separable(
            lists::leading_events(inner),
            lists::keyed_groups(lists::title_groups(inner)),
        ),
        inner == lists::leading_events(inner) + lists::concatenated(
            lists::keyed_groups(lists::title_groups(inner)),
        ),
{
    let all = lists::placed(inner);
    lemma_grouped(all);
    lemma_whole_groups(inner, lists::lead_of(all), lists::groups_of(all));
}

/// One more group after others is a group of its own.
proof fn lemma_group_appended(prefix: Seq<Placed>, group: Seq<Placed>)
    requires
        one_title(group),
    ensures
        lists::groups_of(prefix + group) == lists::groups_of(prefix).push(group),
        lists::lead_of(prefix + group) == lists::lead_of(prefix),
        lists::has_title_start(prefix + group),
    decreases group.len(),
{
    let rest = group.drop_last();
    let event = group.last();
    let before = prefix + rest;
    assert((prefix + group).drop_last() == before);
    assert(before.push(event) == prefix + group);
    lists::lemma_title_marks_push(before, event);
    assert(group[group.len() - 1] == event);
    if group.len() == 1 {
        assert(before == prefix);
        assert(group == seq![event]);
    } else {
        assert forall|k: int| #![trigger rest[k]] 0 <= k < rest.len() implies rest[k]
            == group[k] by {}
        lemma_group_appended(prefix, rest);
        let groups = lists::groups_of(prefix);
        assert(groups.push(rest).drop_last() == groups);
        assert(rest.push(event) == group);
    }
}

/// Events without a title form no group.
proof fn lemma_untitled(events: Seq<Placed>)
    requires
        untitled(events),
    ensures
        lists::groups_of(events).len() == 0,
        lists::lead_of(events) == events,
        !lists::has_title_start(events),
    decreases events.len(),
{
    if events.len() > 0 {
        let rest = events.drop_last();
        assert(events[events.len() - 1] == events.last());
        assert forall|k: int| #![trigger rest[k]] 0 <= k < rest.len() implies rest[k]
            == events[k] by {}
        lemma_untitled(rest);
        lists::lemma_title_marks_push(rest, events.last());
        assert(rest.push(events.last()) == events);
    }
}

/// The first of groups that can stand in any order.
proof fn lemma_separable_last(leading: Seq<EventView>, groups: Seq<GroupView>)
    requires
        groups.len() > 0,
        separable(leading, groups),
    ensures
        separable(leading, groups.drop_last()),
        whole_group(groups.last()),
        nesting::whole(groups.last().events),
        one_title(lists::placed(groups.last().events)),
        leading + lists::concatenated(groups) == leading + lists::concatenated(groups.drop_last())
            + groups.last().events,
{
    reveal(whole_group);
    let rest = groups.drop_last();
    assert(groups[groups.len() - 1] == groups.last());
    assert forall|i: int| #![trigger rest[i]] 0 <= i < rest.len() implies rest[i] == groups[i] by {}
    assert(leading + lists::concatenated(groups) == leading + lists::concatenated(rest)
        + groups.last().events);
}

/// A sequence of groups consists of these groups, and lists are whole in it.
proof fn lemma_regrouped(leading: Seq<EventView>, groups: Seq<GroupView>)
    requires
        separable(leading, groups),
    ensures
        lists::keyed_groups(lists::title_groups(leading + lists::concatenated(groups))) == groups,
        lists::lead_of(lists::placed(leading + lists::concatenated(groups))) == lists::placed(
            leading,
        ),
        lists::leading_events(leading + lists::concatenated(groups)) == leading,
        nesting::whole(leading + lists::concatenated(groups)),
    decreases groups.len(),
{
    reveal(whole_group);
    assert(lists::bare(lists::placed(leading)) == leading);
    if groups.len() == 0 {
        lemma_untitled(lists::placed(leading));
        assert(leading + lists::concatenated(groups) == leading);
        assert(lists::keyed_groups(lists::title_groups(leading)) == groups);
    } else {
        let rest = groups.drop_last();
        let last = groups.last();
        let prefix = leading + lists::concatenated(rest);
        lemma_separable_last(leading, groups);
        lemma_regrouped(leading, rest);
        lemma_placed_append(prefix, last.events);
        lemma_group_appended(lists::placed(prefix), lists::placed(last.events));
        nesting::lemma_depth_append(prefix, last.events);
        let found = lists::title_groups(prefix);
        assert(lists::keyed_groups(found.push(lists::placed(last.events)))
            == lists::keyed_groups(found).push(last));
        assert(rest.push(last) == groups);
    }
}

/// Every group of a sorted list is a group of the list.
proof fn lemma_sorted_separable(inner: Seq<EventView>)
    requires
        separable(
            lists::leading_events(inner),
            lists::keyed_groups(lists::title_groups(inner)),
        ),
    ensures
        separable(lists::leading_events(inner), lists::sorted_groups(inner)),
{
    let groups = lists::keyed_groups(lists::title_groups(inner));
    let sorted = lists::sorted_groups(inner);
    let part = |group: GroupView| whole_group(group);
    order::lemma_sort_multiset(groups, lists::by_key());
    order::lemma_sort_all(groups, lists::by_key(), part);
    assert forall|i: int| #![trigger sorted[i]] 0 <= i < sorted.len() implies whole_group(
        sorted[i],
    ) by {
        assert(part(sorted[i]));
    }
}

/// A sorted list consists of the events that stood before its first title and of its groups, in
/// alphabetical order, and lists are whole in it.
pub proof fn law_sorted_list_consists_of_sorted_groups(list: Seq<EventView>)
    requires
        list.len() >= 2,
        titles_opened(list.subrange(1, list.len() - 1)),
        nesting::whole(list.subrange(1, list.len() - 1)),
    ensures
        ({
            let inner = list.subrange(1, list.len() - 1);
            let after = lists::sorted_list(list).subrange(1, list.len() - 1);
            &&& lists::leading_events(after) == lists::leading_events(inner)
            &&& lists::keyed_groups(lists::title_groups(after)) == lists::sorted_groups(inner)
            &&& nesting::whole(after)
        }),
{
    let inner = list.subrange(1, list.len() - 1);
    let leading = lists::leading_events(inner);
    let groups = lists::sorted_groups(inner);
    let after = lists::sorted_list(list).subrange(1, list.len() - 1);
    lists::law_sorted_list_keeps_events(list);
    lemma_separable(inner);
    lemma_sorted_separable(inner);
    assert(after == leading + lists::concatenated(groups));
    lemma_regrouped(leading, groups);
}

/// A list that is sorted stays as it is when it is sorted again.
pub proof fn law_sorted_list_stays_sorted(list: Seq<EventView>)
    requires
        list.len() >= 2,
        titles_opened(list.subrange(1, list.len() - 1)),
        nesting::whole(list.subrange(1, list.len() - 1)),
    ensures
        lists::sorted_list(lists::sorted_list(list)) == lists::sorted_list(list),
{
    let inner = list.subrange(1, list.len() - 1);
    let groups = lists::sorted_groups(inner);
    lists::law_sorted_list_keeps_events(list);
    law_sorted_list_consists_of_sorted_groups(list);
    lemma_by_key_total();
    order::lemma_sort_in_order(
        lists::keyed_groups(lists::title_groups(inner)),
        lists::by_key(),
    );
    order::lemma_sort_in_order_unchanged(groups, lists::by_key());
}

/// What holds of each list of a whole holds of each list of its parts; and the other way round,
/// where the second part ends no list of the first.
proof fn lemma_each_list_of_both(
    a: Seq<EventView>,
    x: Seq<EventView>,
    holds: spec_fn(Seq<EventView>) -> bool,
)
    ensures
        each_list(a + x, holds) ==> each_list(a, holds) && each_list(x, holds),
        nesting::ends_paired(x) && each_list(a, holds) && each_list(x, holds) ==> each_list(
            a + x,
            holds,
        ),
{
    let both = a + x;
    if each_list(both, holds) {
        assert forall|start: int, end: int| #[trigger] nesting::list_at(a, start, end) implies holds(
            a.subrange(start + 1, end),
        ) by {
            nesting::lemma_lists_of_both(a, x, start, end);
            assert(nesting::list_at(both, start, end));
            assert(both.subrange(start + 1, end) == a.subrange(start + 1, end));
        }
        assert forall|start: int, end: int| #[trigger] nesting::list_at(x, start, end) implies holds(
            x.subrange(start + 1, end),
        ) by {
            let from = a.len() + start;
            let to = a.len() + end;
            nesting::lemma_lists_of_both(a, x, from, to);
            assert(nesting::list_at(both, from, to));
            assert(both.subrange(from + 1, to) == x.subrange(start + 1, end));
        }
    }
    if nesting::ends_paired(x) && each_list(a, holds) && each_list(x, holds) {
        assert forall|start: int, end: int| #[trigger]
            nesting::list_at(both, start, end) implies holds(both.subrange(start + 1, end)) by {
            nesting::lemma_lists_of_both(a, x, start, end);
            if end < a.len() {
                assert(nesting::list_at(a, start, end));
                assert(both.subrange(start + 1, end) == a.subrange(start + 1, end));
            } else {
                let from = start - a.len();
                let to = end - a.len();
                assert(nesting::list_at(x, from, to));
                assert(both.subrange(start + 1, end) == x.subrange(from + 1, to));
            }
        }
    }
}

/// What holds of each list of a sequence of groups holds of each list of a group, and the other way
/// round.
proof fn lemma_each_list_of_groups(
    leading: Seq<EventView>,
    groups: Seq<GroupView>,
    holds: spec_fn(Seq<EventView>) -> bool,
)
    requires
        separable(leading, groups),
    ensures
        each_list(leading + lists::concatenated(groups), holds) <==> {
            &&& each_list(leading, holds)
            &&& forall|i: int|
                #![trigger groups[i]]
                0 <= i < groups.len() ==> each_list(groups[i].events, holds)
        },
    decreases groups.len(),
{
    if groups.len() == 0 {
        assert(leading + lists::concatenated(groups) == leading);
    } else {
        let rest = groups.drop_last();
        let last = groups.last();
        lemma_separable_last(leading, groups);
        lemma_each_list_of_groups(leading, rest, holds);
        lemma_each_list_of_both(leading + lists::concatenated(rest), last.events, holds);
        assert(groups[groups.len() - 1] == last);
        assert forall|i: int| #![trigger groups[i]] 0 <= i < rest.len() implies groups[i]
            == rest[i] by {}
        assert forall|i: int| #![trigger rest[i]] 0 <= i < rest.len() implies groups[i]
            == rest[i] by {}
    }
}

/// What holds of each list of a list holds of what stands in it.
proof fn lemma_each_list_of_list(
    first: EventView,
    inner: Seq<EventView>,
    last: EventView,
    holds: spec_fn(Seq<EventView>) -> bool,
)
    requires
        nesting::list_start(first),
        nesting::list_end(last),
        nesting::whole(inner),
    ensures
        each_list(seq![first] + inner + seq![last], holds) <==> holds(inner) && each_list(
            inner,
            holds,
        ),
{
    let head = seq![first];
    let tail = seq![last];
    let list = head + inner + tail;
    let end = list.len() - 1;
    assert(list.subrange(1, end) == inner);
    assert(nesting::list_at(list, 0, end));
    if each_list(list, holds) {
        lemma_each_list_of_both(head + inner, tail, holds);
        lemma_each_list_of_both(head, inner, holds);
    }
    if holds(inner) && each_list(inner, holds) {
        assert forall|from: int, to: int| #[trigger] nesting::list_at(list, from, to) implies holds(
            list.subrange(from + 1, to),
        ) by {
            if to == end {
                nesting::lemma_list_at(list, from, end);
                nesting::lemma_list_at(list, 0, end);
            } else if from == 0 {
                lemma_one_end(list, 0, to, end);
            } else {
                nesting::lemma_lists_of_both(head + inner, tail, from, to);
                nesting::lemma_lists_of_both(head, inner, from, to);
                assert(nesting::list_at(inner, from - 1, to - 1));
                assert(list.subrange(from + 1, to) == inner.subrange(from, to - 1));
            }
        }
    }
}

/// Titles start before they end in a sequence of groups.
proof fn lemma_groups_opened(leading: Seq<EventView>, groups: Seq<GroupView>)
    requires
        separable(leading, groups),
    ensures
        titles_opened(leading + lists::concatenated(groups)),
    decreases groups.len(),
{
    reveal(whole_group);
    if groups.len() == 0 {
        assert(leading + lists::concatenated(groups) == leading);
    } else {
        let before = leading + lists::concatenated(groups.drop_last());
        let prefix = lists::placed(before);
        let group = lists::placed(groups.last().events);
        let all = prefix + group;
        let at = prefix.len() as int;
        lemma_separable_last(leading, groups);
        lemma_groups_opened(leading, groups.drop_last());
        lemma_placed_append(before, groups.last().events);
        assert forall|k: int|
            #![trigger all[k]]
            0 <= k < all.len() && lists::closes_title(all[k]) implies lists::has_title_start(
            all.take(k),
        ) by {
            if k < at {
                assert(all[k] == prefix[k]);
                assert(all.take(k) == prefix.take(k));
            } else {
                let part = all.take(k);
                assert(all[at] == group[0]);
                assert(k > at);
                assert(part[at] == all[at]);
                assert(lists::opens_title(part[at]));
            }
        }
    }
}

/// Whether position `i` of `events` lies in no list that starts before it.
spec fn level(events: Seq<EventView>, i: int) -> bool {
    nesting::list_depth(events.take(i)) == 0
}

/// Whether two sequences have the same events outside their lists, at the same positions.
spec fn same_level(x: Seq<EventView>, z: Seq<EventView>) -> bool {
    &&& x.len() == z.len()
    &&& forall|i: int| 0 <= i <= x.len() ==> #[trigger] level(x, i) == level(z, i)
    &&& forall|i: int| 0 <= i < x.len() && #[trigger] level(x, i) ==> x[i] == z[i]
}

/// Whether two sequences have the same titles, with the same text, at the same positions.
spec fn same_titles(p: Seq<Placed>, q: Seq<Placed>) -> bool {
    &&& p.len() == q.len()
    &&& forall|i: int|
        #![trigger p[i]]
        #![trigger q[i]]
        0 <= i < p.len() ==> {
            &&& lists::opens_title(p[i]) == lists::opens_title(q[i])
            &&& lists::closes_title(p[i]) == lists::closes_title(q[i])
            &&& lists::title_part(p[i]) == lists::title_part(q[i])
        }
}

/// Sequences with the same events outside their lists have the same titles.
proof fn lemma_same_placed(x: Seq<EventView>, z: Seq<EventView>)
    requires
        same_level(x, z),
        nesting::whole(x),
        nesting::whole(z),
    ensures
        same_titles(lists::placed(x), lists::placed(z)),
{
    let p = lists::placed(x);
    let q = lists::placed(z);
    assert forall|i: int|
        #![trigger p[i]]
        #![trigger q[i]]
        0 <= i < p.len() implies {
        &&& lists::opens_title(p[i]) == lists::opens_title(q[i])
        &&& lists::closes_title(p[i]) == lists::closes_title(q[i])
        &&& lists::title_part(p[i]) == lists::title_part(q[i])
    } by {
        assert(level(x, i) == level(z, i));
        nesting::lemma_outside_level(x, i);
        nesting::lemma_outside_level(z, i);
    }
}

/// A title starts or ends in one of two such sequences if it does in the other.
proof fn lemma_same_marks(p: Seq<Placed>, q: Seq<Placed>)
    requires
        same_titles(p, q),
    ensures
        lists::has_title_start(p) == lists::has_title_start(q),
        lists::has_title_end(p) == lists::has_title_end(q),
{
    if lists::has_title_start(p) {
        let i = choose|i: int| 0 <= i < p.len() && lists::opens_title(#[trigger] p[i]);
        assert(lists::opens_title(q[i]));
    }
    if lists::has_title_start(q) {
        let i = choose|i: int| 0 <= i < q.len() && lists::opens_title(#[trigger] q[i]);
        assert(lists::opens_title(p[i]));
    }
    if lists::has_title_end(p) {
        let i = choose|i: int| 0 <= i < p.len() && lists::closes_title(#[trigger] p[i]);
        assert(lists::closes_title(q[i]));
    }
    if lists::has_title_end(q) {
        let i = choose|i: int| 0 <= i < q.len() && lists::closes_title(#[trigger] q[i]);
        assert(lists::closes_title(p[i]));
    }
}

/// The first events of such sequences are such sequences.
proof fn lemma_same_titles_take(p: Seq<Placed>, q: Seq<Placed>, n: int)
    requires
        same_titles(p, q),
        0 <= n <= p.len(),
    ensures
        same_titles(p.take(n), q.take(n)),
{
    let x = p.take(n);
    let z = q.take(n);
    assert forall|i: int|
        #![trigger x[i]]
        #![trigger z[i]]
        0 <= i < n implies x[i] == p[i] && z[i] == q[i] by {}
}

/// Such sequences have the same text in their titles.
proof fn lemma_same_title_text(p: Seq<Placed>, q: Seq<Placed>)
    requires
        same_titles(p, q),
    ensures
        lists::title_text(p) == lists::title_text(q),
    decreases p.len(),
{
    if p.len() > 0 {
        let at = p.len() - 1;
        lemma_same_titles_take(p, q, at);
        assert(p.take(at) == p.drop_last() && q.take(at) == q.drop_last());
        assert(p[at] == p.last() && q[at] == q.last());
        lemma_same_title_text(p.drop_last(), q.drop_last());
    }
}

/// Such sequences have the same title.
proof fn lemma_same_title(p: Seq<Placed>, q: Seq<Placed>)
    requires
        same_titles(p, q),
    ensures
        lists::title_text(lists::title_span(p)) == lists::title_text(lists::title_span(q)),
        lists::title_of(p) == lists::title_of(q),
    decreases p.len(),
{
    lemma_same_marks(p, q);
    if lists::has_title_end(p) {
        let at = p.len() - 1;
        lemma_same_titles_take(p, q, at);
        assert(p.take(at) == p.drop_last() && q.take(at) == q.drop_last());
        lemma_same_title(p.drop_last(), q.drop_last());
    } else {
        lemma_same_title_text(p, q);
    }
}

/// What is said of the titles of one of two sequences with the same events outside their lists
/// holds of the other.
proof fn lemma_same_shape(x: Seq<EventView>, z: Seq<EventView>)
    requires
        same_level(x, z),
        nesting::whole(x),
        nesting::whole(z),
    ensures
        titles_opened(x) ==> titles_opened(z),
        one_title(lists::placed(x)) ==> one_title(lists::placed(z)),
        untitled(lists::placed(x)) ==> untitled(lists::placed(z)),
        lists::title_of(lists::placed(x)) == lists::title_of(lists::placed(z)),
{
    let p = lists::placed(x);
    let q = lists::placed(z);
    lemma_same_placed(x, z);
    lemma_same_title(p, q);
    assert forall|k: int| #![trigger q[k]] 0 <= k < q.len() implies lists::has_title_start(
        p.take(k),
    ) == lists::has_title_start(q.take(k)) by {
        lemma_same_titles_take(p, q, k);
        lemma_same_marks(p.take(k), q.take(k));
    }
    assert forall|k: int| #![trigger q[k]] 0 <= k < q.len() implies lists::closes_title(q[k])
        == lists::closes_title(p[k]) by {}
}

/// Sequences with the same events outside their lists, one after the other.
proof fn lemma_same_level_append(
    a: Seq<EventView>,
    b: Seq<EventView>,
    x: Seq<EventView>,
    z: Seq<EventView>,
)
    requires
        same_level(a, b),
        nesting::list_depth(a) == nesting::list_depth(b),
        same_level(x, z),
        nesting::ends_paired(x),
        nesting::ends_paired(z),
    ensures
        same_level(a + x, b + z),
{
    let p = a + x;
    let q = b + z;
    let n = a.len() as int;
    assert forall|i: int| 0 <= i <= p.len() implies #[trigger] level(p, i) == level(q, i) && (i < n
        ==> level(p, i) == level(a, i)) && (i >= n && level(p, i) ==> level(x, i - n)) by {
        if i < n {
            assert(p.take(i) == a.take(i));
            assert(q.take(i) == b.take(i));
            assert(level(a, i) == level(b, i));
        } else {
            assert(p.take(i) == a + x.take(i - n));
            assert(q.take(i) == b + z.take(i - n));
            nesting::lemma_ends_paired_take(x, i - n);
            nesting::lemma_ends_paired_take(z, i - n);
            nesting::lemma_depth_append(a, x.take(i - n));
            nesting::lemma_depth_append(b, z.take(i - n));
            assert(level(x, i - n) == level(z, i - n));
        }
    }
    assert forall|i: int| 0 <= i < p.len() && #[trigger] level(p, i) implies p[i] == q[i] by {
        if i < n {
            assert(level(a, i));
        } else {
            assert(level(x, i - n));
        }
    }
}

/// Of a list, only the start and what follows its end lie outside it.
proof fn lemma_list_levels(first: EventView, inner: Seq<EventView>, last: EventView)
    requires
        nesting::list_start(first),
        nesting::list_end(last),
        nesting::whole(inner),
    ensures
        forall|i: int|
            0 <= i <= inner.len() + 2 ==> #[trigger] level(seq![first] + inner + seq![last], i) == (i
                == 0 || i == inner.len() + 2),
{
    let head = seq![first];
    let list = head + inner + seq![last];
    nesting::lemma_list_whole(first, inner, last);
    assert(nesting::list_depth(head.drop_last()) == 0);
    assert forall|i: int| 0 <= i <= inner.len() + 2 implies #[trigger] level(list, i) == (i == 0
        || i == inner.len() + 2) by {
        if i == 0 {
            assert(list.take(0).len() == 0);
        } else if i == inner.len() + 2 {
            assert(list.take(i) == list);
        } else {
            assert(list.take(i) == head + inner.take(i - 1));
            nesting::lemma_ends_paired_take(inner, i - 1);
            nesting::lemma_depth_append(head, inner.take(i - 1));
        }
    }
}

/// Lists of one length have the same events outside, whatever stands in them.
proof fn lemma_same_level_lists(
    first: EventView,
    inner: Seq<EventView>,
    other: Seq<EventView>,
    last: EventView,
)
    requires
        nesting::list_start(first),
        nesting::list_end(last),
        nesting::whole(inner),
        nesting::whole(other),
        inner.len() == other.len(),
    ensures
        same_level(seq![first] + inner + seq![last], seq![first] + other + seq![last]),
{
    let x = seq![first] + inner + seq![last];
    let z = seq![first] + other + seq![last];
    lemma_list_levels(first, inner, last);
    lemma_list_levels(first, other, last);
    assert forall|i: int| 0 <= i <= x.len() implies #[trigger] level(x, i) == level(z, i) by {}
    assert forall|i: int| 0 <= i < x.len() && #[trigger] level(x, i) implies x[i] == z[i] by {
        assert(i == 0);
    }
}

/// Sorting a list keeps it a list: it starts and ends as it did, and lists are whole in it.
proof fn lemma_sorted_list_shape(first: EventView, inner: Seq<EventView>, last: EventView)
    requires
        nesting::list_start(first),
        nesting::list_end(last),
        nesting::whole(inner),
        titles_opened(inner),
    ensures
        ({
            let moved = lists::leading_events(inner) + lists::concatenated(
                lists::sorted_groups(inner),
            );
            &&& lists::sorted_list(seq![first] + inner + seq![last]) == seq![first] + moved + seq![
                last,
            ]
            &&& moved.len() == inner.len()
            &&& nesting::whole(moved)
            &&& nesting::whole(seq![first] + moved + seq![last])
            &&& titles_opened(moved)
            &&& separable(lists::leading_events(inner), lists::sorted_groups(inner))
            &&& lists::keyed_groups(lists::title_groups(moved)) == lists::sorted_groups(inner)
        }),
{
    let list = seq![first] + inner + seq![last];
    let leading = lists::leading_events(inner);
    let groups = lists::sorted_groups(inner);
    let moved = leading + lists::concatenated(groups);
    assert(list.subrange(1, list.len() - 1) == inner);
    lists::law_sorted_list_keeps_events(list);
    lemma_separable(inner);
    lemma_sorted_separable(inner);
    lemma_regrouped(leading, groups);
    lemma_groups_opened(leading, groups);
    assert(lists::sorted_list(list) == seq![first] + moved + seq![last]);
    nesting::lemma_list_whole(first, moved, last);
}

/// Sorting moves nothing that lies outside lists.
proof fn lemma_sorted_level(x: Seq<EventView>)
    requires
        nesting::ends_paired(x),
        titled(x),
    ensures
        same_level(x, lists::sorted_lists(x)),
        nesting::ends_paired(lists::sorted_lists(x)),
        nesting::list_depth(lists::sorted_lists(x)) == nesting::list_depth(x),
    decreases x.len(),
{
    let opened = |inner: Seq<EventView>| titles_opened(inner);
    if x.len() > 0 {
        let before = x.drop_last();
        let event = x.last();
        nesting::lemma_ends_paired_last(x);
        let none: Seq<EventView> = seq![];
        assert(none + before == before);
        nesting::lemma_open_list_append(none, before, 0);
        if nesting::list_end(event) {
            let start = nesting::open_list(before)->0;
            let a = x.take(start);
            let inner = last_inner(x, start);
            let list = last_list(x, start);
            let sorted = lists::sorted_lists(inner);
            lemma_closed(x, start);
            nesting::lemma_ends_paired_take(x, start);
            lemma_each_list_of_both(a, list, opened);
            lemma_each_list_of_list(x[start], inner, event, opened);
            lemma_sorted_level(a);
            lemma_sorted_level(inner);
            lemma_same_shape(inner, sorted);
            lemma_sorted_list_shape(x[start], sorted, event);
            lemma_same_level_lists(
                x[start],
                inner,
                lists::leading_events(sorted) + lists::concatenated(lists::sorted_groups(sorted)),
                event,
            );
            lemma_same_level_append(a, lists::sorted_lists(a), list, lists::sorted_lists(list));
            nesting::lemma_depth_append(a, list);
            nesting::lemma_depth_append(lists::sorted_lists(a), lists::sorted_lists(list));
        } else {
            let more = seq![event];
            let prev = lists::sorted_lists(before);
            assert(x == before + more);
            lemma_each_list_of_both(before, more, opened);
            lemma_sorted_level(before);
            assert(none.push(event) == more);
            nesting::lemma_ends_paired_none();
            nesting::lemma_ends_paired_push(none, event);
            assert(prev.push(event) == prev + more);
            lemma_same_level_append(before, prev, more, more);
            nesting::lemma_depth_append(before, more);
            nesting::lemma_depth_append(prev, more);
        }
    } else {
        nesting::lemma_ends_paired_none();
    }
}

/// Sorting keeps which lists are open.
proof fn lemma_open_list_kept(x: Seq<EventView>, skipped: nat)
    requires
        titled(x),
    ensures
        nesting::open_list_beyond(lists::sorted_lists(x), skipped) == nesting::open_list_beyond(
            x,
            skipped,
        ),
    decreases x.len(),
{
    let opened = |inner: Seq<EventView>| titles_opened(inner);
    if x.len() > 0 {
        let before = x.drop_last();
        let event = x.last();
        match nesting::open_list(before) {
            Some(start) if nesting::list_end(event) => {
                let a = x.take(start);
                let list = last_list(x, start);
                lemma_closed(x, start);
                lemma_each_list_of_both(a, list, opened);
                lemma_sorted_level(list);
                lemma_open_list_kept(a, skipped);
                nesting::lemma_open_list_append(a, list, skipped);
                nesting::lemma_open_list_append(
                    lists::sorted_lists(a),
                    lists::sorted_lists(list),
                    skipped,
                );
            },
            _ => {
                let prev = lists::sorted_lists(before);
                assert(x == before + seq![event]);
                lemma_each_list_of_both(before, seq![event], opened);
                assert(prev.push(event).drop_last() == prev);
                if nesting::list_start(event) {
                    if skipped > 0 {
                        lemma_open_list_kept(before, (skipped - 1) as nat);
                    }
                    lists::lemma_sorted_lists_kept(before);
                } else if nesting::list_end(event) {
                    lemma_open_list_kept(before, skipped + 1);
                } else {
                    lemma_open_list_kept(before, skipped);
                }
            },
        }
    }
}

/// A group with the lists within it sorted.
pub open spec fn sorted_within() -> spec_fn(GroupView) -> GroupView {
    |group: GroupView| GroupView { key: group.key, events: lists::sorted_lists(group.events) }
}

/// Sorting a sequence of groups sorts each, and leaves them groups with the keys they had.
proof fn lemma_sorted_groups_within(leading: Seq<EventView>, groups: Seq<GroupView>)
    requires
        separable(leading, groups),
        titled(leading + lists::concatenated(groups)),
    ensures
        separable(lists::sorted_lists(leading), groups.map_values(sorted_within())),
        lists::sorted_lists(leading + lists::concatenated(groups)) == lists::sorted_lists(leading)
            + lists::concatenated(groups.map_values(sorted_within())),
    decreases groups.len(),
{
    reveal(whole_group);
    let opened = |inner: Seq<EventView>| titles_opened(inner);
    let mapped = groups.map_values(sorted_within());
    if groups.len() == 0 {
        assert(leading + lists::concatenated(groups) == leading);
        assert(lists::sorted_lists(leading) + lists::concatenated(mapped) == lists::sorted_lists(
            leading,
        ));
        lemma_sorted_level(leading);
        lemma_same_shape(leading, lists::sorted_lists(leading));
    } else {
        let rest = groups.drop_last();
        let last = groups.last();
        let prefix = leading + lists::concatenated(rest);
        let sorted = lists::sorted_lists(last.events);
        lemma_separable_last(leading, groups);
        lemma_each_list_of_both(prefix, last.events, opened);
        lemma_sorted_groups_within(leading, rest);
        lemma_sorted_append(prefix, last.events);
        lemma_sorted_level(last.events);
        lemma_same_shape(last.events, sorted);
        assert(mapped.drop_last() == rest.map_values(sorted_within()));
        assert(mapped.last() == sorted_within()(last));
        assert(lists::bare(lists::placed(sorted)) == sorted);
        assert forall|i: int| #![trigger mapped[i]] 0 <= i < mapped.len() implies whole_group(
            mapped[i],
        ) by {
            if i < rest.len() {
                assert(mapped[i] == rest.map_values(sorted_within())[i]);
            } else {
                assert(mapped[i] == mapped.last());
            }
        }
        assert(lists::sorted_lists(leading) + lists::concatenated(mapped.drop_last()) + sorted
            == lists::sorted_lists(leading) + lists::concatenated(mapped));
    }
}

/// Sorting what stands in a list keeps its groups in place, with the lists within each sorted.
proof fn lemma_groups_of_sorted(inner: Seq<EventView>)
    requires
        nesting::whole(inner),
        titles_opened(inner),
        titled(inner),
    ensures
        nesting::whole(lists::sorted_lists(inner)),
        titles_opened(lists::sorted_lists(inner)),
        lists::leading_events(lists::sorted_lists(inner)) == lists::sorted_lists(
            lists::leading_events(inner),
        ),
        lists::keyed_groups(lists::title_groups(lists::sorted_lists(inner)))
            == lists::keyed_groups(lists::title_groups(inner)).map_values(sorted_within()),
        lists::sorted_groups(lists::sorted_lists(inner)) == lists::sorted_groups(
            inner,
        ).map_values(sorted_within()),
{
    let leading = lists::leading_events(inner);
    let groups = lists::keyed_groups(lists::title_groups(inner));
    let mapped = groups.map_values(sorted_within());
    lemma_separable(inner);
    lemma_sorted_groups_within(leading, groups);
    lemma_regrouped(lists::sorted_lists(leading), mapped);
    lemma_groups_opened(lists::sorted_lists(leading), mapped);
    order::lemma_sort_map(groups, lists::by_key(), sorted_within());
}

/// Every group of a list moves as a whole: the sorted list consists of what stood before its first
/// title and of its groups in alphabetical order, and the lists within each of these are sorted in
/// turn.
pub proof fn law_groups_move_as_wholes(first: EventView, inner: Seq<EventView>, last: EventView)
    requires
        nesting::list_start(first),
        nesting::list_end(last),
        nesting::whole(inner),
        titles_opened(inner),
        titled(inner),
    ensures
        lists::sorted_lists(seq![first] + inner + seq![last]) == seq![first] + lists::sorted_lists(
            lists::leading_events(inner),
        ) + lists::concatenated(lists::sorted_groups(inner).map_values(sorted_within())) + seq![
            last,
        ],
{
    let sorted = lists::sorted_lists(inner);
    let list = seq![first] + sorted + seq![last];
    lemma_sorted_of_list(first, inner, last);
    lemma_groups_of_sorted(inner);
    assert(list.subrange(1, list.len() - 1) == sorted);
    assert(list.first() == first && list.last() == last);
}

/// In a sorted page, titles still start before they end in every list, and its groups stand in
/// alphabetical order.
proof fn lemma_sorted_lists_orderly(events: Seq<EventView>)
    requires
        titled(events),
    ensures
        titled(lists::sorted_lists(events)),
        alphabetical_lists(lists::sorted_lists(events)),
    decreases events.len(),
{
    let opened = |inner: Seq<EventView>| titles_opened(inner);
    let ordered = |inner: Seq<EventView>|
        order::in_order(lists::keyed_groups(lists::title_groups(inner)), lists::by_key());
    let result = lists::sorted_lists(events);
    if events.len() > 0 {
        let before = events.drop_last();
        let event = events.last();
        match nesting::open_list(before) {
            Some(start) if nesting::list_end(event) => {
                let a = events.take(start);
                let first = events[start];
                let inner = last_inner(events, start);
                let list = last_list(events, start);
                let sorted = lists::sorted_lists(inner);
                let leading = lists::leading_events(sorted);
                let groups = lists::keyed_groups(lists::title_groups(sorted));
                let moved = leading + lists::concatenated(lists::sorted_groups(sorted));
                lemma_closed(events, start);
                lemma_each_list_of_both(a, list, opened);
                lemma_each_list_of_list(first, inner, event, opened);
                lemma_sorted_lists_orderly(a);
                lemma_sorted_lists_orderly(inner);
                lemma_groups_of_sorted(inner);
                lemma_separable(sorted);
                lemma_sorted_list_shape(first, sorted, event);
                lemma_by_key_total();
                order::lemma_sort_in_order(groups, lists::by_key());
                lemma_moved_lists(sorted, opened);
                lemma_moved_lists(sorted, ordered);
                lemma_each_list_of_list(first, moved, event, opened);
                lemma_each_list_of_list(first, moved, event, ordered);
                lemma_each_list_of_both(lists::sorted_lists(a), lists::sorted_lists(list), opened);
                lemma_each_list_of_both(lists::sorted_lists(a), lists::sorted_lists(list), ordered);
            },
            _ => {
                let prev = lists::sorted_lists(before);
                let more = seq![event];
                assert(events == before + more);
                lemma_each_list_of_both(before, more, opened);
                lemma_sorted_lists_orderly(before);
                lemma_open_list_kept(before, 0);
                lemma_lists_pushed(prev, event, opened);
                lemma_lists_pushed(prev, event, ordered);
            },
        }
    }
}

/// What holds of each list holds of each once the groups of the sequence have moved.
proof fn lemma_moved_lists(inner: Seq<EventView>, holds: spec_fn(Seq<EventView>) -> bool)
    requires
        nesting::whole(inner),
        titles_opened(inner),
        each_list(inner, holds),
    ensures
        each_list(
            lists::leading_events(inner) + lists::concatenated(lists::sorted_groups(inner)),
            holds,
        ),
{
    let leading = lists::leading_events(inner);
    let groups = lists::keyed_groups(lists::title_groups(inner));
    let sorted = lists::sorted_groups(inner);
    let good = |group: GroupView| each_list(group.events, holds);
    lemma_separable(inner);
    lemma_sorted_separable(inner);
    lemma_each_list_of_groups(leading, groups, holds);
    order::lemma_sort_multiset(groups, lists::by_key());
    order::lemma_sort_all(groups, lists::by_key(), good);
    assert forall|i: int| #![trigger sorted[i]] 0 <= i < sorted.len() implies each_list(
        sorted[i].events,
        holds,
    ) by {
        assert(good(sorted[i]));
    }
    lemma_each_list_of_groups(leading, sorted, holds);
}

/// What holds of each list holds of each after one more event that ends none.
proof fn lemma_lists_pushed(
    events: Seq<EventView>,
    event: EventView,
    holds: spec_fn(Seq<EventView>) -> bool,
)
    requires
        each_list(events, holds),
        nesting::open_list(events) is None || !nesting::list_end(event),
    ensures
        each_list(events.push(event), holds),
{
    let more = events.push(event);
    assert(more == events + seq![event]);
    assert(more.take(events.len() as int) == events);
    assert forall|start: int, end: int| #[trigger] nesting::list_at(more, start, end) implies holds(
        more.subrange(start + 1, end),
    ) by {
        nesting::lemma_lists_of_both(events, seq![event], start, end);
        nesting::lemma_list_at(more, start, end);
        assert(nesting::list_at(events, start, end));
        assert(more.subrange(start + 1, end) == events.subrange(start + 1, end));
    }
}

/// Every definition list of a sorted page, also one within another, has its groups in alphabetical
/// order of their keys.
pub proof fn law_every_list_is_alphabetical(events: Seq<EventView>)
    requires
        titled(events),
    ensures
        alphabetical_lists(lists::sorted_lists(events)),
{
    lemma_sorted_lists_orderly(events);
}

/// A page that is sorted stays as it is when it is sorted again.
pub proof fn law_sorted_page_stays_sorted(events: Seq<EventView>)
    requires
        titled(events),
    ensures
        lists::sorted_lists(lists::sorted_lists(events)) == lists::sorted_lists(events),
    decreases events.len(),
{
    let opened = |inner: Seq<EventView>| titles_opened(inner);
    if events.len() > 0 {
        let before = events.drop_last();
        let event = events.last();
        match nesting::open_list(before) {
            Some(start) if nesting::list_end(event) => {
                let a = events.take(start);
                let first = events[start];
                let inner = last_inner(events, start);
                let list = last_list(events, start);
                lemma_closed(events, start);
                lemma_each_list_of_both(a, list, opened);
                lemma_each_list_of_list(first, inner, event, opened);
                law_sorted_page_stays_sorted(a);
                law_sorted_page_stays_sorted(inner);
                lemma_sorted_level(list);
                lemma_sorted_append(lists::sorted_lists(a), lists::sorted_lists(list));
                lemma_list_stays_sorted(first, inner, event);
            },
            _ => {
                let prev = lists::sorted_lists(before);
                assert(events == before + seq![event]);
                lemma_each_list_of_both(before, seq![event], opened);
                law_sorted_page_stays_sorted(before);
                lemma_open_list_kept(before, 0);
                assert(prev.push(event).drop_last() == prev);
            },
        }
    }
}

/// A list stays as it is when it is sorted again, if what stands in it does.
proof fn lemma_list_stays_sorted(first: EventView, inner: Seq<EventView>, last: EventView)
    requires
        nesting::list_start(first),
        nesting::list_end(last),
        nesting::whole(inner),
        titles_opened(inner),
        titled(inner),
        lists::sorted_lists(lists::sorted_lists(inner)) == lists::sorted_lists(inner),
    ensures
        ({
            let sorted = lists::sorted_lists(seq![first] + inner + seq![last]);
            lists::sorted_lists(sorted) == sorted
        }),
{
    let sorted = lists::sorted_lists(inner);
    let leading = lists::leading_events(sorted);
    let groups = lists::sorted_groups(sorted);
    let moved = leading + lists::concatenated(groups);
    let list = seq![first] + sorted + seq![last];
    lemma_sorted_of_list(first, inner, last);
    lemma_groups_of_sorted(inner);
    lemma_sorted_lists_orderly(inner);
    lemma_groups_of_sorted(sorted);
    lemma_sorted_list_shape(first, sorted, last);
    lemma_moved_lists(sorted, |inner: Seq<EventView>| titles_opened(inner));
    lemma_sorted_groups_within(leading, groups);
    assert(lists::sorted_lists(moved) == moved);
    lemma_sorted_of_list(first, moved, last);
    assert(list.subrange(1, list.len() - 1) == sorted);
    law_sorted_list_stays_sorted(list);
}

/// What is open after one sequence of events and another.
proof fn lemma_open_after_both(open: OpenElements, a: Seq<EventView>, b: Seq<EventView>)
    ensures
        markdown::open_after_all(open, a + b) == match markdown::open_after_all(open, a) {
            Some(between) => markdown::open_after_all(between, b),
            None => None,
        },
    decreases b.len(),
{
    if b.len() == 0 {
        assert(a + b == a);
    } else {
        lemma_open_after_both(open, a, b.drop_last());
        assert((a + b).drop_last() == a + b.drop_last());
        assert((a + b).last() == b.last());
    }
}

/// What is open after one more event.
proof fn lemma_open_after_push(open: OpenElements, events: Seq<EventView>, event: EventView)
    ensures
        markdown::open_after_all(open, events.push(event)) == match markdown::open_after_all(
            open,
            events,
        ) {
            Some(between) => markdown::open_after(between, event),
            None => None,
        },
{
    assert(events.push(event).drop_last() == events);
}

/// Whether the links, images and headings within a list all close before its next title starts and
/// before it ends, where `open` is open around the list.
pub open spec fn closed_between_titles(inner: Seq<EventView>, open: OpenElements) -> bool {
    &&& markdown::open_after_all(open, inner) == Some(open)
    &&& forall|k: int|
        #![trigger inner[k]]
        0 <= k < inner.len() && lists::opens_title(lists::placed(inner)[k])
            ==> markdown::open_after_all(open, inner.take(k)) == Some(open)
}

/// Whether this holds of every list among `events`, where `open` is open before them.
pub open spec fn lists_closed(events: Seq<EventView>, open: OpenElements) -> bool {
    forall|start: int, end: int| #[trigger]
        nesting::list_at(events, start, end) ==> (markdown::open_after_all(
            open,
            events.take(start),
        ) matches Some(around) ==> closed_between_titles(events.subrange(start + 1, end), around))
}

/// What holds of the lists of a whole holds of the lists of its parts.
proof fn lemma_lists_closed_of_both(
    a: Seq<EventView>,
    x: Seq<EventView>,
    open: OpenElements,
    between: OpenElements,
)
    requires
        lists_closed(a + x, open),
        markdown::open_after_all(open, a) == Some(between),
    ensures
        lists_closed(a, open),
        lists_closed(x, between),
{
    let both = a + x;
    assert forall|start: int, end: int| #[trigger] nesting::list_at(a, start, end) implies (
    markdown::open_after_all(open, a.take(start)) matches Some(around) ==> closed_between_titles(
        a.subrange(start + 1, end),
        around,
    )) by {
        nesting::lemma_lists_of_both(a, x, start, end);
        assert(nesting::list_at(both, start, end));
        assert(both.take(start) == a.take(start));
        assert(both.subrange(start + 1, end) == a.subrange(start + 1, end));
    }
    assert forall|start: int, end: int| #[trigger] nesting::list_at(x, start, end) implies (
    markdown::open_after_all(between, x.take(start)) matches Some(around)
        ==> closed_between_titles(x.subrange(start + 1, end), around)) by {
        let from = a.len() + start;
        let to = a.len() + end;
        nesting::lemma_lists_of_both(a, x, from, to);
        assert(nesting::list_at(both, from, to));
        assert(both.take(from) == a + x.take(start));
        lemma_open_after_both(open, a, x.take(start));
        assert(both.subrange(from + 1, to) == x.subrange(start + 1, end));
    }
}

/// The last group of a list leaves open what was open before it, and so does what precedes it.
proof fn lemma_last_group_closed(
    prefix: Seq<EventView>,
    group: Seq<EventView>,
    open: OpenElements,
)
    requires
        nesting::ends_paired(group),
        one_title(lists::placed(group)),
        closed_between_titles(prefix + group, open),
    ensures
        closed_between_titles(prefix, open),
        markdown::open_after_all(open, group) == Some(open),
{
    let all = prefix + group;
    let at = prefix.len() as int;
    lemma_placed_append(prefix, group);
    assert(all[at] == group[0]);
    assert(all.take(at) == prefix);
    assert(lists::placed(all)[at] == lists::placed(group)[0]);
    lemma_open_after_both(open, prefix, group);
    assert forall|k: int|
        #![trigger prefix[k]]
        0 <= k < prefix.len() && lists::opens_title(
            lists::placed(prefix)[k],
        ) implies markdown::open_after_all(open, prefix.take(k)) == Some(open) by {
        assert(all[k] == prefix[k]);
        assert(all.take(k) == prefix.take(k));
        assert(lists::placed(all)[k] == lists::placed(prefix)[k]);
    }
}

/// Each group of a list leaves open what was open before it.
proof fn lemma_groups_closed(leading: Seq<EventView>, groups: Seq<GroupView>, open: OpenElements)
    requires
        separable(leading, groups),
        closed_between_titles(leading + lists::concatenated(groups), open),
        lists_closed(leading + lists::concatenated(groups), open),
    ensures
        markdown::open_after_all(open, leading) == Some(open),
        lists_closed(leading, open),
        forall|i: int|
            #![trigger groups[i]]
            0 <= i < groups.len() ==> markdown::open_after_all(open, groups[i].events) == Some(open)
                && lists_closed(groups[i].events, open),
    decreases groups.len(),
{
    if groups.len() == 0 {
        assert(leading + lists::concatenated(groups) == leading);
    } else {
        let rest = groups.drop_last();
        let group = groups.last().events;
        let prefix = leading + lists::concatenated(rest);
        lemma_separable_last(leading, groups);
        lemma_last_group_closed(prefix, group, open);
        lemma_lists_closed_of_both(prefix, group, open, open);
        lemma_groups_closed(leading, rest, open);
        assert forall|i: int|
            #![trigger groups[i]]
            0 <= i < groups.len() implies markdown::open_after_all(open, groups[i].events) == Some(
            open,
        ) && lists_closed(groups[i].events, open) by {
            if i < rest.len() {
                assert(groups[i] == rest[i]);
            }
        }
    }
}

/// Groups that each leave open what was open before them do so together.
proof fn lemma_concatenated_open(groups: Seq<GroupView>, open: OpenElements)
    requires
        forall|i: int|
            #![trigger groups[i]]
            0 <= i < groups.len() ==> markdown::open_after_all(open, groups[i].events) == Some(
                open,
            ),
    ensures
        markdown::open_after_all(open, lists::concatenated(groups)) == Some(open),
    decreases groups.len(),
{
    if groups.len() > 0 {
        let rest = groups.drop_last();
        assert(groups[groups.len() - 1] == groups.last());
        assert forall|i: int| #![trigger rest[i]] 0 <= i < rest.len() implies rest[i]
            == groups[i] by {}
        lemma_concatenated_open(rest, open);
        lemma_open_after_both(open, lists::concatenated(rest), groups.last().events);
    }
}

/// What is open after a list is what is open after what stands in it.
proof fn lemma_open_after_list(
    first: EventView,
    inner: Seq<EventView>,
    last: EventView,
    open: OpenElements,
)
    requires
        nesting::list_start(first),
        nesting::list_end(last),
    ensures
        markdown::open_after_all(open, seq![first]) == Some(open),
        markdown::open_after_all(open, seq![first] + inner + seq![last])
            == markdown::open_after_all(open, inner),
{
    let none: Seq<EventView> = seq![];
    lemma_open_after_push(open, none, first);
    assert(none.push(first) == seq![first]);
    lemma_open_after_both(open, seq![first], inner);
    lemma_open_after_push(open, seq![first] + inner, last);
    assert(seq![first] + inner + seq![last] == (seq![first] + inner).push(last));
}

/// Sorting a list leaves open what was open before it, if sorting each of its groups does.
proof fn lemma_moved_open(
    first: EventView,
    inner: Seq<EventView>,
    last: EventView,
    open: OpenElements,
)
    requires
        nesting::list_start(first),
        nesting::list_end(last),
        nesting::whole(inner),
        titles_opened(inner),
        titled(inner),
        markdown::open_after_all(open, lists::sorted_lists(lists::leading_events(inner))) == Some(
            open,
        ),
        forall|i: int|
            #![trigger lists::keyed_groups(lists::title_groups(inner))[i]]
            0 <= i < lists::keyed_groups(lists::title_groups(inner)).len()
                ==> markdown::open_after_all(
                open,
                lists::sorted_lists(lists::keyed_groups(lists::title_groups(inner))[i].events),
            ) == Some(open),
    ensures
        markdown::open_after_all(
            open,
            lists::sorted_lists(seq![first] + inner + seq![last]),
        ) == Some(open),
{
    let groups = lists::keyed_groups(lists::title_groups(inner));
    let sorted = lists::sorted_groups(inner);
    let moved = sorted.map_values(sorted_within());
    let front = lists::sorted_lists(lists::leading_events(inner));
    let closed = |group: GroupView|
        markdown::open_after_all(open, lists::sorted_lists(group.events)) == Some(open);
    law_groups_move_as_wholes(first, inner, last);
    order::lemma_sort_multiset(groups, lists::by_key());
    order::lemma_sort_all(groups, lists::by_key(), closed);
    assert forall|i: int|
        #![trigger moved[i]]
        0 <= i < moved.len() implies markdown::open_after_all(open, moved[i].events) == Some(
        open,
    ) by {
        assert(closed(sorted[i]));
    }
    lemma_concatenated_open(moved, open);
    lemma_open_after_both(open, front, lists::concatenated(moved));
    lemma_open_after_list(first, front + lists::concatenated(moved), last, open);
    assert(seq![first] + (front + lists::concatenated(moved)) + seq![last] == seq![first] + front
        + lists::concatenated(moved) + seq![last]);
}

/// Sorting a list leaves open what the list does.
proof fn lemma_sorted_list_open(
    first: EventView,
    inner: Seq<EventView>,
    last: EventView,
    open: OpenElements,
)
    requires
        nesting::list_start(first),
        nesting::list_end(last),
        nesting::whole(inner),
        titles_opened(inner),
        titled(inner),
        closed_between_titles(inner, open),
        lists_closed(inner, open),
    ensures
        markdown::open_after_all(
            open,
            lists::sorted_lists(seq![first] + inner + seq![last]),
        ) == Some(open),
    decreases inner.len(), 2nat,
{
    let leading = lists::leading_events(inner);
    let groups = lists::keyed_groups(lists::title_groups(inner));
    lemma_separable(inner);
    lemma_groups_closed(leading, groups, open);
    lemma_each_list_of_groups(
        leading,
        groups,
        |inner: Seq<EventView>| titles_opened(inner),
    );
    lemma_groups_shorter(leading, groups);
    lemma_sorted_open(leading, open);
    assert forall|i: int|
        #![trigger groups[i]]
        0 <= i < groups.len() implies markdown::open_after_all(
        open,
        lists::sorted_lists(groups[i].events),
    ) == Some(open) by {
        lemma_sorted_open(groups[i].events, open);
    }
    lemma_moved_open(first, inner, last, open);
}

/// No part of a sequence of groups is longer than it.
proof fn lemma_groups_shorter(leading: Seq<EventView>, groups: Seq<GroupView>)
    ensures
        leading.len() <= (leading + lists::concatenated(groups)).len(),
        forall|i: int|
            #![trigger groups[i]]
            0 <= i < groups.len() ==> groups[i].events.len() <= (leading + lists::concatenated(
                groups,
            )).len(),
    decreases groups.len(),
{
    if groups.len() > 0 {
        let rest = groups.drop_last();
        lemma_groups_shorter(leading, rest);
        assert forall|i: int|
            #![trigger groups[i]]
            0 <= i < groups.len() implies groups[i].events.len() <= (leading + lists::concatenated(
            groups,
        )).len() by {
            if i < rest.len() {
                assert(groups[i] == rest[i]);
            }
        }
    }
}

/// Sorting leaves open what the events do.
proof fn lemma_sorted_open(events: Seq<EventView>, open: OpenElements)
    requires
        titled(events),
        markdown::open_after_all(open, events) is Some,
        lists_closed(events, open),
    ensures
        markdown::open_after_all(open, lists::sorted_lists(events)) == markdown::open_after_all(
            open,
            events,
        ),
    decreases events.len(), 1nat,
{
    let opened = |inner: Seq<EventView>| titles_opened(inner);
    if events.len() > 0 {
        let before = events.drop_last();
        let event = events.last();
        let more = seq![event];
        assert(events == before + more);
        match nesting::open_list(before) {
            Some(start) if nesting::list_end(event) => {
                let a = events.take(start);
                let first = events[start];
                let inner = last_inner(events, start);
                let list = last_list(events, start);
                lemma_closed(events, start);
                lemma_open_after_both(open, a, list);
                let around = markdown::open_after_all(open, a)->0;
                lemma_each_list_of_both(a, list, opened);
                lemma_each_list_of_list(first, inner, event, opened);
                lemma_lists_closed_of_both(a, list, open, around);
                lemma_open_after_list(first, inner, event, around);
                assert(closed_between_titles(inner, around));
                lemma_open_after_both(around, seq![first], inner);
                lemma_lists_closed_of_both(seq![first] + inner, more, around, around);
                lemma_lists_closed_of_both(seq![first], inner, around, around);
                lemma_sorted_open(a, open);
                lemma_sorted_list_open(first, inner, event, around);
                lemma_open_after_both(open, lists::sorted_lists(a), lists::sorted_lists(list));
            },
            _ => {
                let between = markdown::open_after_all(open, before)->0;
                lemma_each_list_of_both(before, more, opened);
                lemma_lists_closed_of_both(before, more, open, between);
                lemma_sorted_open(before, open);
                lemma_open_after_push(open, lists::sorted_lists(before), event);
            },
        }
    }
}

/// Sorting the definition lists of a page keeps it writable, and leaves open at its end what the
/// page does, where titles start before they end in every list and what opens between titles closes
/// there.
pub proof fn law_sorting_keeps_writability(events: Seq<EventView>)
    requires
        markdown::writable(events),
        titled(events),
        lists_closed(events, markdown::nothing_open()),
    ensures
        markdown::writable(lists::sorted_lists(events)),
        markdown::open_after_all(markdown::nothing_open(), lists::sorted_lists(events))
            == markdown::open_after_all(markdown::nothing_open(), events),
{
    lemma_sorted_open(events, markdown::nothing_open());
}

/// A chapter that can be written as Markdown can still be written once it is sorted and linked. If
/// it is to be sorted, titles have to start before they end in every definition list, and what
/// opens between them has to close there.
pub proof fn law_chapter_stays_writable(
    events: Seq<EventView>,
    terms: Seq<TermView>,
    path: Seq<char>,
    config: ConfigView,
)
    requires
        markdown::writable(events),
        path.len() == 0 && config.sort_glossary ==> titled(events) && lists_closed(
            events,
            markdown::nothing_open(),
        ),
    ensures
        markdown::writable(linker::chapter_events(events, terms, path, config)),
{
    let on_glossary_page = path.len() == 0;
    if on_glossary_page && config.sort_glossary {
        law_sorting_keeps_writability(events);
        linking_laws::law_linking_keeps_writability(
            lists::sorted_lists(events),
            terms,
            path,
            config,
            Set::empty(),
            on_glossary_page,
        );
    } else {
        linking_laws::law_linking_keeps_writability(
            events,
            terms,
            path,
            config,
            Set::empty(),
            on_glossary_page,
        );
    }
}

/// Off the glossary page nothing is sorted: whether the glossary is to be sorted or linked makes no
/// difference there.
pub proof fn law_other_pages_are_not_sorted(
    events: Seq<EventView>,
    terms: Seq<TermView>,
    path: Seq<char>,
    config: ConfigView,
)
    requires
        path.len() > 0,
    ensures
        linker::chapter_events(events, terms, path, config) == linker::linked_events(
            events,
            terms,
            path,
            config,
            Set::empty(),
            false,
        ).events,
{
}

/// Where the glossary page is sorted but not linked, its events are moved and nothing else: no link
/// is added.
pub proof fn law_sorting_alone_adds_no_links(
    events: Seq<EventView>,
    terms: Seq<TermView>,
    path: Seq<char>,
    config: ConfigView,
)
    requires
        path.len() == 0,
        config.sort_glossary,
        !config.process_glossary,
    ensures
        linker::chapter_events(events, terms, path, config).to_multiset() == events.to_multiset(),
        linker::chapter_events(events, terms, path, config).len() == events.len(),
{
    lists::lemma_sorted_lists_kept(events);
}

/// Where the glossary page is not to be sorted, it keeps its order: what is neither text nor HTML
/// stays as it is, in its place among the others.
pub proof fn law_unsorted_glossary_keeps_order(
    events: Seq<EventView>,
    terms: Seq<TermView>,
    path: Seq<char>,
    config: ConfigView,
)
    requires
        !config.sort_glossary,
    ensures
        linker::chapter_events(events, terms, path, config).filter(linking_laws::markup())
            == events.filter(linking_laws::markup()),
{
    linking_laws::law_markup_is_kept(
        events,
        terms,
        path,
        config,
        Set::empty(),
        path.len() == 0,
    );
}

} // verus!
