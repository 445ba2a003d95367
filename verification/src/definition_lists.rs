//! Sorting the definition lists of a glossary page.

use crate::glossary;
use crate::glossary::Term;
use crate::markdown;
use crate::markdown::{Event, EventView, Tag};
use crate::nesting;
use crate::order;
use crate::text;
use vstd::prelude::*;
use vstd::seq_lib::*;
use vstd::slice::slice_subrange;
use vstd::utf8::*;

verus! {

/// Whether a title of a definition list starts at `event`.
pub open spec fn title_start(event: EventView) -> bool {
    event matches EventView::Start(Tag::DefinitionListTitle, _)
}

/// Whether a title of a definition list ends at `event`.
pub open spec fn title_end(event: EventView) -> bool {
    event matches EventView::End(Tag::DefinitionListTitle, _)
}

/// An event of a definition list.
pub struct Placed {
    pub event: EventView,
    /// Whether it belongs to the list itself, and not to a list within it.
    pub own: bool,
}

/// The events between the start and the end of a list, each with whether it belongs to the list
/// itself. What stands in a list that starts and ends among them does not; a start or an end
/// without a partner changes nothing.
pub open spec fn placed(inner: Seq<EventView>) -> Seq<Placed> {
    Seq::new(
        inner.len(),
        |i: int| Placed { event: inner[i], own: nesting::outside_lists(inner, i) },
    )
}

/// The events that `events` place.
pub open spec fn bare(events: Seq<Placed>) -> Seq<EventView> {
    events.map_values(|placed: Placed| placed.event)
}

/// Whether a title of the list starts at `placed`.
pub open spec fn opens_title(placed: Placed) -> bool {
    placed.own && title_start(placed.event)
}

/// Whether a title of the list ends at `placed`.
pub open spec fn closes_title(placed: Placed) -> bool {
    placed.own && title_end(placed.event)
}

/// Whether a title of the list starts among `events`.
pub open spec fn has_title_start(events: Seq<Placed>) -> bool {
    exists|i: int| 0 <= i < events.len() && opens_title(#[trigger] events[i])
}

/// Whether a title of the list ends among `events`.
pub open spec fn has_title_end(events: Seq<Placed>) -> bool {
    exists|i: int| 0 <= i < events.len() && closes_title(#[trigger] events[i])
}

/// What an event contributes to a title: text and inline code, but for what stands in a list within
/// the title.
pub open spec fn title_part(placed: Placed) -> Seq<char> {
    match placed.event {
        EventView::Text(text) if placed.own => text,
        EventView::Code(text) if placed.own => text,
        _ => seq![],
    }
}

/// The text and inline code among `events`, joined.
pub open spec fn title_text(events: Seq<Placed>) -> Seq<char>
    decreases events.len(),
{
    if events.len() == 0 {
        seq![]
    } else {
        title_text(events.drop_last()) + title_part(events.last())
    }
}

/// The events of `group` before its title ends.
pub open spec fn title_span(group: Seq<Placed>) -> Seq<Placed>
    decreases group.len(),
{
    if has_title_end(group) {
        title_span(group.drop_last())
    } else {
        group
    }
}

/// The title of `group`, or nothing where no title ends in it.
pub open spec fn title_of(group: Seq<Placed>) -> Seq<char> {
    if has_title_end(group) {
        text::trimmed(title_text(title_span(group)))
    } else {
        seq![]
    }
}

/// `groups` with `event` at the end of the last of them.
pub open spec fn extend_last(groups: Seq<Seq<Placed>>, event: Placed) -> Seq<Seq<Placed>> {
    if groups.len() == 0 {
        seq![seq![event]]
    } else {
        groups.drop_last().push(groups.last().push(event))
    }
}

/// The groups that `events` of a list form: each starts where a title of the list starts and lasts
/// until the next one does. Lists within a group are part of it.
///
/// An end of a title that no start precedes makes a group too.
pub open spec fn groups_of(events: Seq<Placed>) -> Seq<Seq<Placed>>
    decreases events.len(),
{
    if events.len() == 0 {
        seq![]
    } else {
        let before = events.drop_last();
        let event = events.last();
        if opens_title(event) {
            groups_of(before).push(seq![event])
        } else if closes_title(event) || has_title_start(before) {
            extend_last(groups_of(before), event)
        } else {
            groups_of(before)
        }
    }
}

/// Those of `events` of a list that precede its first title.
pub open spec fn lead_of(events: Seq<Placed>) -> Seq<Placed>
    decreases events.len(),
{
    if events.len() == 0 {
        seq![]
    } else if closes_title(events.last()) || has_title_start(events) {
        lead_of(events.drop_last())
    } else {
        lead_of(events.drop_last()).push(events.last())
    }
}

/// The groups of the list in which `inner` stands.
pub open spec fn title_groups(inner: Seq<EventView>) -> Seq<Seq<Placed>> {
    groups_of(placed(inner))
}

/// The events that precede the first title of the list in which `inner` stands.
pub open spec fn leading_events(inner: Seq<EventView>) -> Seq<EventView> {
    bare(lead_of(placed(inner)))
}

/// A title with its definitions.
#[derive(Debug)]
struct Group {
    key: String,
    events: Vec<Event>,
}

/// What a group holds: the key by which it is sorted, and its events.
pub struct GroupView {
    pub key: Seq<char>,
    pub events: Seq<EventView>,
}

impl View for Group {
    type V = GroupView;

    closed spec fn view(&self) -> GroupView {
        GroupView { key: self.key@, events: markdown::views(self.events@) }
    }
}

/// What of a title is sorted by: its short form, or else the whole title.
pub open spec fn sorted_part(title: Seq<char>) -> Seq<char> {
    match glossary::short_name_of(title) {
        Some(short) => short,
        None => title,
    }
}

/// The key by which a title is sorted, in lower case.
pub open spec fn sort_key(title: Seq<char>) -> Seq<char> {
    text::lowercased(sorted_part(title))
}

/// The events of a group together with the key of its title.
pub open spec fn keyed(group: Seq<Placed>) -> GroupView {
    GroupView { key: sort_key(title_of(group)), events: bare(group) }
}

/// The alphabetical order of groups by their keys.
pub open spec fn by_key() -> spec_fn(GroupView, GroupView) -> bool {
    |a: GroupView, b: GroupView| text::alphabetical(a.key, b.key)
}

/// Each of `groups` together with the key of its title.
pub open spec fn keyed_groups(groups: Seq<Seq<Placed>>) -> Seq<GroupView> {
    groups.map_values(|group: Seq<Placed>| keyed(group))
}

/// The groups of a list in alphabetical order; those with equal keys keep their order.
pub open spec fn sorted_groups(inner: Seq<EventView>) -> Seq<GroupView> {
    order::sort_stable(keyed_groups(title_groups(inner)), by_key())
}

/// The events of `groups`, one group after the other.
pub open spec fn concatenated(groups: Seq<GroupView>) -> Seq<EventView>
    decreases groups.len(),
{
    if groups.len() == 0 {
        seq![]
    } else {
        concatenated(groups.drop_last()) + groups.last().events
    }
}

/// The definition list `list` with its groups in alphabetical order. The first and the last event,
/// between which the list stands, stay where they are.
pub open spec fn sorted_list(list: Seq<EventView>) -> Seq<EventView> {
    let inner = list.subrange(1, list.len() - 1);
    seq![list.first()] + leading_events(inner) + concatenated(sorted_groups(inner)) + seq![
        list.last(),
    ]
}

/// `events` with the groups of every definition list in alphabetical order: where a list ends, its
/// groups are put in order, and those of the lists within it are by then. A start or an end without
/// a partner stays as it is.
pub open spec fn sorted_lists(events: Seq<EventView>) -> Seq<EventView>
    decreases events.len(),
{
    if events.len() == 0 {
        seq![]
    } else {
        let before = sorted_lists(events.drop_last());
        match nesting::open_list(events.drop_last()) {
            Some(start) if nesting::list_end(events.last()) => {
                before.take(start) + sorted_list(before.skip(start).push(events.last()))
            },
            _ => before.push(events.last()),
        }
    }
}

/// The key by which a title is sorted: the short form where the title is
/// `SHORT (Long Description)`, otherwise the whole title. It is in lower case, so that sorting does
/// not tell cases apart: of an ASCII title, the case of every letter is lost.
pub fn sort_key_for_title(title: &str) -> (key: String)
    ensures
        key@ == sort_key(title@),
        is_ascii_chars(title@) ==> key@ == sorted_part(title@).map_values(
            |c: char| text::ascii_lowercased(c),
        ),
{
    let term = Term::new(title);
    proof {
        if is_ascii_chars(title@) {
            glossary::lemma_first_opening(title@, 0);
            if let Some(at) = glossary::first_opening(title@, 0) {
                text::lemma_trimmed_ascii(title@.take(at));
            }
        }
    }
    match term.short_name() {
        Some(short) => text::to_lowercase(short),
        None => text::to_lowercase(title),
    }
}

/// What each of `groups` holds.
spec fn group_views(groups: Seq<Group>) -> Seq<GroupView> {
    groups.map_values(|group: Group| group@)
}

/// Puts `group` behind every group that does not have to follow it.
fn insert_group(groups: &mut Vec<Group>, group: Group)
    ensures
        group_views(final(groups)@) == order::insert_stable(
            group_views(old(groups)@),
            group@,
            by_key(),
        ),
{
    let mut at: usize = groups.len();
    while at > 0 && !text::is_alphabetical(groups[at - 1].key.as_str(), group.key.as_str())
        invariant
            at <= groups.len(),
            groups@ == old(groups)@,
            forall|j: int|
                #![trigger group_views(groups@)[j]]
                at <= j < groups.len() ==> !by_key()(group_views(groups@)[j], group@),
        decreases at,
    {
        at -= 1;
    }
    proof {
        order::lemma_insert_at(group_views(groups@), group@, by_key(), at as int);
        assert(group_views(groups@.insert(at as int, group)) == group_views(groups@).insert(
            at as int,
            group@,
        ));
    }
    groups.insert(at, group);
}

/// Appends copies of `events` to `out`.
fn append_copies(out: &mut Vec<Event>, events: &Vec<Event>)
    ensures
        markdown::views(final(out)@) == markdown::views(old(out)@) + markdown::views(events@),
{
    let mut i: usize = 0;
    while i < events.len()
        invariant
            i <= events.len(),
            markdown::views(out@) == markdown::views(old(out)@) + markdown::views(events@).take(
                i as int,
            ),
        decreases events.len() - i,
    {
        let event = events[i].clone();
        proof {
            assert(markdown::views(out@.push(event)) == markdown::views(out@).push(event@));
            assert(markdown::views(events@).take(i + 1) == markdown::views(events@).take(
                i as int,
            ).push(event@));
        }
        out.push(event);
        i += 1;
    }
    assert(markdown::views(events@).take(i as int) == markdown::views(events@));
}

/// One more event starts a title among `events` exactly if it is one.
pub proof fn lemma_title_marks_push(events: Seq<Placed>, event: Placed)
    ensures
        has_title_start(events.push(event)) == (has_title_start(events) || opens_title(event)),
        has_title_end(events.push(event)) == (has_title_end(events) || closes_title(event)),
        events.push(event).drop_last() == events,
        events.push(event).last() == event,
{
    let more = events.push(event);
    let at = events.len() as int;
    assert(more.drop_last() == events);
    assert(more[at] == event);
    if has_title_start(events) {
        let i = choose|i: int| 0 <= i < events.len() && opens_title(#[trigger] events[i]);
        assert(opens_title(more[i]));
    }
    if has_title_start(more) {
        let i = choose|i: int| 0 <= i < more.len() && opens_title(#[trigger] more[i]);
        assert(i < at ==> opens_title(events[i]));
    }
    if has_title_end(events) {
        let i = choose|i: int| 0 <= i < events.len() && closes_title(#[trigger] events[i]);
        assert(closes_title(more[i]));
    }
    if has_title_end(more) {
        let i = choose|i: int| 0 <= i < more.len() && closes_title(#[trigger] more[i]);
        assert(i < at ==> closes_title(events[i]));
    }
}

/// What is known of a list while its groups are collected: `seen` has been read, `current` is the
/// group that is being read and `sorted` holds the groups before it.
spec fn collecting(
    seen: Seq<Placed>,
    sorted: Seq<GroupView>,
    current: Seq<Placed>,
    leading: Seq<Placed>,
) -> bool {
    let groups = groups_of(seen);
    &&& leading == lead_of(seen)
    &&& groups.len() == 0 ==> current.len() == 0 && sorted.len() == 0 && !has_title_start(seen)
    &&& groups.len() > 0 ==> {
        &&& current.len() > 0
        &&& current == groups.last()
        &&& sorted == order::sort_stable(keyed_groups(groups.drop_last()), by_key())
    }
}

/// The groups read so far are sorted once the current one has been put among them.
proof fn lemma_collecting_flush(
    seen: Seq<Placed>,
    sorted: Seq<GroupView>,
    current: Seq<Placed>,
    leading: Seq<Placed>,
)
    requires
        collecting(seen, sorted, current, leading),
        current.len() > 0,
    ensures
        order::insert_stable(sorted, keyed(current), by_key()) == order::sort_stable(
            keyed_groups(groups_of(seen)),
            by_key(),
        ),
{
    let groups = groups_of(seen);
    assert(keyed_groups(groups).drop_last() == keyed_groups(groups.drop_last()));
    assert(keyed_groups(groups).last() == keyed(current));
}

/// Reading the start of a title.
proof fn lemma_collecting_start(
    seen: Seq<Placed>,
    sorted: Seq<GroupView>,
    current: Seq<Placed>,
    leading: Seq<Placed>,
    event: Placed,
)
    requires
        collecting(seen, sorted, current, leading),
        opens_title(event),
    ensures
        current.len() == 0 ==> collecting(seen.push(event), sorted, seq![event], leading),
        current.len() > 0 ==> collecting(
            seen.push(event),
            order::insert_stable(sorted, keyed(current), by_key()),
            seq![event],
            leading,
        ),
{
    lemma_title_marks_push(seen, event);
    let groups = groups_of(seen);
    let more = groups_of(seen.push(event));
    assert(more == groups.push(seq![event]));
    assert(more.drop_last() == groups);
    if current.len() > 0 {
        lemma_collecting_flush(seen, sorted, current, leading);
    } else {
        assert(keyed_groups(groups) == Seq::<GroupView>::empty());
        assert(sorted == Seq::<GroupView>::empty());
    }
}

/// Reading an event that stands before every title.
proof fn lemma_collecting_lead(
    seen: Seq<Placed>,
    sorted: Seq<GroupView>,
    current: Seq<Placed>,
    leading: Seq<Placed>,
    event: Placed,
)
    requires
        collecting(seen, sorted, current, leading),
        !opens_title(event),
        !closes_title(event),
        !has_title_start(seen),
    ensures
        collecting(seen.push(event), sorted, current, leading.push(event)),
{
    lemma_title_marks_push(seen, event);
}

/// How the title of a group changes with one more event.
proof fn lemma_title_push(group: Seq<Placed>, event: Placed)
    ensures
        closes_title(event) || has_title_end(group) ==> title_span(group.push(event))
            == title_span(group),
        closes_title(event) ==> title_of(group.push(event)) == text::trimmed(
            title_text(title_span(group)),
        ),
        !closes_title(event) ==> title_of(group.push(event)) == title_of(group),
        !closes_title(event) && !has_title_end(group) ==> title_text(title_span(group.push(event)))
            == title_text(title_span(group)) + title_part(event),
{
    lemma_title_marks_push(group, event);
}

/// Reading an event that stands in the current group.
proof fn lemma_collecting_extend(
    seen: Seq<Placed>,
    sorted: Seq<GroupView>,
    current: Seq<Placed>,
    leading: Seq<Placed>,
    event: Placed,
)
    requires
        collecting(seen, sorted, current, leading),
        !opens_title(event),
        closes_title(event) || has_title_start(seen),
    ensures
        collecting(seen.push(event), sorted, current.push(event), leading),
{
    lemma_title_marks_push(seen, event);
    let groups = groups_of(seen);
    let more = groups_of(seen.push(event));
    assert(more == extend_last(groups, event));
    if groups.len() == 0 {
        assert(more.drop_last() == Seq::<Seq<Placed>>::empty());
        assert(keyed_groups(more.drop_last()) == Seq::<GroupView>::empty());
        assert(current.push(event) == seq![event]);
        assert(sorted == Seq::<GroupView>::empty());
    } else {
        assert(more.drop_last() == groups.drop_last());
    }
}

/// Sorts the groups of the definition list that `slice` holds, from its start to its end, by the
/// keys of their titles. Lists within a group move with it and stay as they are; a start or an end
/// of a list without a partner within the list changes nothing.
pub fn sort_one_definition_list(slice: &[Event]) -> (out: Vec<Event>)
    requires
        slice@.len() >= 2,
    ensures
        markdown::views(out@) == sorted_list(markdown::views(slice@)),
{
    let ghost all = markdown::views(slice@);
    let ghost inner = all.subrange(1, all.len() - 1);
    let ghost events = placed(inner);
    let own = nesting::own_events(slice_subrange(slice, 1, slice.len() - 1));
    let mut groups: Vec<Group> = Vec::new();
    let mut leading: Vec<Event> = Vec::new();
    let mut current: Vec<Event> = Vec::new();
    let mut current_title = String::new();
    let mut title_so_far = String::new();
    let mut in_title = false;
    let mut group_started = false;
    let ghost mut front: Seq<Placed> = seq![];
    let ghost mut held: Seq<Placed> = seq![];
    let mut i: usize = 0;
    proof {
        assert(markdown::views(slice@.subrange(1, slice@.len() - 1)) == inner);
        assert(events.take(0) == Seq::<Placed>::empty());
        assert(group_views(groups@) == Seq::<GroupView>::empty());
        assert(markdown::views(current@) == bare(held));
        assert(markdown::views(leading@) == bare(front));
    }
    while i < own.len()
        invariant
            i <= own.len(),
            own@.len() == slice@.len() - 2,
            all == markdown::views(slice@),
            inner == all.subrange(1, all.len() - 1),
            events == placed(inner),
            forall|j: int|
                #![trigger own@[j]]
                0 <= j < own@.len() ==> own@[j] == nesting::outside_lists(inner, j),
            markdown::views(current@) == bare(held),
            markdown::views(leading@) == bare(front),
            collecting(events.take(i as int), group_views(groups@), held, front),
            group_started == has_title_start(events.take(i as int)),
            in_title == (group_started && !has_title_end(held)),
            current_title@ == title_of(held),
            title_so_far@ == title_text(title_span(held)),
        decreases own.len() - i,
    {
        let event = slice[i + 1].clone();
        let own_event = own[i];
        let ghost seen = events.take(i as int);
        let ghost next = events[i as int];
        proof {
            let sorted = group_views(groups@);
            assert(next.event == event@ && next.own == own_event);
            assert(events.take(i + 1) == seen.push(next));
            lemma_title_marks_push(seen, next);
            lemma_title_marks_push(held, next);
            assert(markdown::views(current@.push(event)) == bare(held).push(event@));
            assert(bare(held.push(next)) == bare(held).push(event@));
            assert(markdown::views(leading@.push(event)) == bare(front).push(event@));
            assert(bare(front.push(next)) == bare(front).push(event@));
            lemma_title_push(held, next);
            if opens_title(next) {
                lemma_collecting_start(seen, sorted, held, front, next);
                lemma_title_push(seq![], next);
                assert(Seq::<Placed>::empty().push(next) == seq![next]);
                held = seq![next];
            } else if closes_title(next) || group_started {
                lemma_collecting_extend(seen, sorted, held, front, next);
                held = held.push(next);
            } else {
                lemma_collecting_lead(seen, sorted, held, front, next);
                front = front.push(next);
            }
        }
        match &event {
            Event::Start(Tag::DefinitionListTitle, _) if own_event => {
                if current.len() > 0 {
                    let mut finished: Vec<Event> = Vec::new();
                    core::mem::swap(&mut current, &mut finished);
                    let key = sort_key_for_title(current_title.as_str());
                    insert_group(&mut groups, Group { key, events: finished });
                    current_title = String::new();
                }
                in_title = true;
                title_so_far = String::new();
                group_started = true;
                assert(markdown::views(current@.push(event)) == bare(seq![next]));
                current.push(event);
            },
            Event::End(Tag::DefinitionListTitle, _) if own_event => {
                in_title = false;
                current_title = text::trim(title_so_far.as_str()).to_owned();
                current.push(event);
            },
            Event::Text(t) if in_title && own_event => {
                title_so_far.append(t.as_str());
                current.push(event);
            },
            Event::Code(t) if in_title && own_event => {
                title_so_far.append(t.as_str());
                current.push(event);
            },
            _ => {
                if group_started {
                    current.push(event);
                } else {
                    leading.push(event);
                }
            },
        }
        i += 1;
    }
    assert(events.take(i as int) == events);
    if current.len() > 0 {
        proof {
            assert(markdown::views(current@).len() == bare(held).len());
            lemma_collecting_flush(events, group_views(groups@), held, front);
        }
        let key = sort_key_for_title(current_title.as_str());
        insert_group(&mut groups, Group { key, events: current });
    } else {
        assert(markdown::views(current@).len() == bare(held).len());
        assert(keyed_groups(title_groups(inner)) == Seq::<GroupView>::empty());
        assert(group_views(groups@) == Seq::<GroupView>::empty());
    }
    assert(group_views(groups@) == sorted_groups(inner));
    let ghost front = leading_events(inner);
    assert(markdown::views(leading@) == front);
    let mut out: Vec<Event> = Vec::new();
    let first = slice[0].clone();
    out.push(first);
    out.append(&mut leading);
    assert(markdown::views(out@) == seq![all.first()] + front);
    let mut g: usize = 0;
    while g < groups.len()
        invariant
            g <= groups.len(),
            markdown::views(out@) == seq![all.first()] + front + concatenated(
                group_views(groups@).take(g as int),
            ),
        decreases groups.len() - g,
    {
        proof {
            let more = group_views(groups@).take(g + 1);
            assert(more.drop_last() == group_views(groups@).take(g as int));
            assert(more.last() == groups@[g as int]@);
        }
        append_copies(&mut out, &groups[g].events);
        g += 1;
    }
    assert(group_views(groups@).take(g as int) == group_views(groups@));
    let last = slice[slice.len() - 1].clone();
    assert(markdown::views(out@.push(last)) == markdown::views(out@).push(last@));
    out.push(last);
    out
}

/// The events of a group that is put among others join theirs.
proof fn lemma_concatenated_insert(groups: Seq<GroupView>, group: GroupView)
    ensures
        concatenated(order::insert_stable(groups, group, by_key())).to_multiset() == concatenated(
            groups,
        ).to_multiset().add(group.events.to_multiset()),
    decreases groups.len(),
{
    if groups.len() > 0 && !by_key()(groups.last(), group) {
        let rest = groups.drop_last();
        let inner = order::insert_stable(rest, group, by_key());
        lemma_concatenated_insert(rest, group);
        assert(inner.push(groups.last()).drop_last() == inner);
        lemma_multiset_commutative(concatenated(inner), groups.last().events);
        lemma_multiset_commutative(concatenated(rest), groups.last().events);
    } else {
        assert(groups.push(group).drop_last() == groups);
        lemma_multiset_commutative(concatenated(groups), group.events);
    }
}

/// Sorting groups keeps their events.
proof fn lemma_concatenated_sort(groups: Seq<GroupView>)
    ensures
        concatenated(order::sort_stable(groups, by_key())).to_multiset() == concatenated(
            groups,
        ).to_multiset(),
    decreases groups.len(),
{
    if groups.len() > 0 {
        lemma_concatenated_sort(groups.drop_last());
        lemma_concatenated_insert(
            order::sort_stable(groups.drop_last(), by_key()),
            groups.last(),
        );
        lemma_multiset_commutative(concatenated(groups.drop_last()), groups.last().events);
    }
}

/// What precedes the first title and the groups are all that there is.
proof fn lemma_groups_multiset(events: Seq<Placed>)
    ensures
        bare(events).to_multiset() == bare(lead_of(events)).to_multiset().add(
            concatenated(keyed_groups(groups_of(events))).to_multiset(),
        ),
    decreases events.len(),
{
    broadcast use group_to_multiset_ensures;

    let groups = groups_of(events);
    let lead = lead_of(events);
    if events.len() == 0 {
        assert(keyed_groups(groups) == Seq::<GroupView>::empty());
        assert(bare(events) == Seq::<EventView>::empty());
        assert(bare(lead) == Seq::<EventView>::empty());
        assert(bare(lead).to_multiset().add(concatenated(keyed_groups(groups)).to_multiset())
            == bare(events).to_multiset());
    } else {
        let before = events.drop_last();
        let event = events.last();
        let fewer = groups_of(before);
        lemma_groups_multiset(before);
        lemma_title_marks_push(before, event);
        assert(before.push(event) == events);
        assert(bare(events) == bare(before).push(event.event));
        if opens_title(event) {
            assert(keyed_groups(groups).drop_last() == keyed_groups(fewer));
            assert(keyed_groups(groups).last().events == seq![event.event]);
            assert(concatenated(keyed_groups(groups)) == concatenated(keyed_groups(fewer)).push(
                event.event,
            ));
        } else if closes_title(event) || has_title_start(before) {
            if fewer.len() == 0 {
                assert(keyed_groups(groups).drop_last() == keyed_groups(fewer));
                assert(keyed_groups(groups).last().events == seq![event.event]);
            } else {
                assert(keyed_groups(groups).drop_last() == keyed_groups(fewer).drop_last());
                assert(keyed_groups(groups).last().events == bare(fewer.last()).push(event.event));
                assert(keyed_groups(fewer).last().events == bare(fewer.last()));
            }
            assert(concatenated(keyed_groups(groups)) == concatenated(keyed_groups(fewer)).push(
                event.event,
            ));
        } else {
            assert(bare(lead) == bare(lead_of(before)).push(event.event));
        }
        assert(bare(events).to_multiset() =~= bare(lead).to_multiset().add(
            concatenated(keyed_groups(groups)).to_multiset(),
        ));
    }
}

/// Sorting a definition list keeps its events: each occurs as often as before, and the first and
/// the last stay in place, with the others between them.
pub proof fn law_sorted_list_keeps_events(list: Seq<EventView>)
    requires
        list.len() >= 2,
    ensures
        sorted_list(list).to_multiset() == list.to_multiset(),
        sorted_list(list).len() == list.len(),
        sorted_list(list).first() == list.first(),
        sorted_list(list).last() == list.last(),
        sorted_list(list).subrange(1, list.len() - 1).to_multiset() == list.subrange(
            1,
            list.len() - 1,
        ).to_multiset(),
{
    broadcast use group_to_multiset_ensures;

    let inner = list.subrange(1, list.len() - 1);
    let front = leading_events(inner);
    let back = concatenated(sorted_groups(inner));
    lemma_groups_multiset(placed(inner));
    assert(bare(placed(inner)) == inner);
    lemma_concatenated_sort(keyed_groups(title_groups(inner)));
    lemma_multiset_commutative(front, back);
    assert((front + back).to_multiset() == inner.to_multiset());
    let first = seq![list.first()];
    let last = seq![list.last()];
    assert(sorted_list(list) == first + (front + back) + last);
    assert(list == first + inner + last);
    lemma_multiset_commutative(first, front + back);
    lemma_multiset_commutative(first, inner);
    lemma_multiset_commutative(first + (front + back), last);
    lemma_multiset_commutative(first + inner, last);
    assert(sorted_list(list).to_multiset() == list.to_multiset());
    assert(sorted_list(list).to_multiset().len() == list.to_multiset().len());
    assert(sorted_list(list).subrange(1, list.len() - 1) == front + back);
}

/// Sorting keeps the events of a page.
pub proof fn lemma_sorted_lists_kept(events: Seq<EventView>)
    ensures
        sorted_lists(events).len() == events.len(),
        sorted_lists(events).to_multiset() == events.to_multiset(),
    decreases events.len(),
{
    if events.len() > 0 {
        let before = events.drop_last();
        let prev = sorted_lists(before);
        let last = seq![events.last()];
        lemma_sorted_lists_kept(before);
        assert(events == before + last);
        lemma_multiset_commutative(before, last);
        lemma_multiset_commutative(prev, last);
        match nesting::open_list(before) {
            Some(start) if nesting::list_end(events.last()) => {
                nesting::lemma_open_list(before, 0);
                let list = prev.skip(start).push(events.last());
                law_sorted_list_keeps_events(list);
                lemma_multiset_commutative(prev.take(start), sorted_list(list));
                lemma_multiset_commutative(prev.take(start), list);
                assert(prev.take(start) + list == prev + last);
            },
            _ => {
                assert(prev.push(events.last()) == prev + last);
            },
        }
    } else {
        assert(events == sorted_lists(events));
    }
}

/// Sorts every definition list among `events` so that its groups of titles and definitions appear
/// alphabetically by sort key; of lists within one another, each is sorted. What stands between
/// lists, the number of lists and the bounds of each are preserved. A start or an end of a list
/// without a partner stays as it is.
pub fn sort_definition_lists(events: &mut Vec<Event>)
    ensures
        markdown::views(final(events)@) == sorted_lists(markdown::views(old(events)@)),
{
    let ghost all = markdown::views(events@);
    let mut sorted: Vec<Event> = Vec::new();
    let mut starts: Vec<usize> = Vec::new();
    let mut i: usize = 0;
    assert(all.take(0) == Seq::<EventView>::empty());
    assert(markdown::views(sorted@) == Seq::<EventView>::empty());
    while i < events.len()
        invariant
            i <= events.len(),
            events@ == old(events)@,
            all == markdown::views(events@),
            sorted@.len() == i,
            markdown::views(sorted@) == sorted_lists(all.take(i as int)),
            nesting::are_open(starts@, all.take(i as int)),
        decreases events.len() - i,
    {
        let event = events[i].clone();
        let ghost before = all.take(i as int);
        let ghost after = all.take(i + 1);
        let ghost held = markdown::views(sorted@);
        proof {
            assert(after == before.push(event@));
            assert(after.drop_last() == before);
            nesting::lemma_open_list(before, 0);
            nesting::lemma_are_open_push(starts@, before, i, event@);
            lemma_sorted_lists_kept(after);
            assert(markdown::views(sorted@.push(event)) == held.push(event@));
        }
        match &event {
            Event::Start(Tag::DefinitionList, _) => {
                starts.push(i);
                sorted.push(event);
            },
            Event::End(Tag::DefinitionList, _) => {
                if let Some(start) = starts.pop() {
                    let mut list = sorted.split_off(start);
                    list.push(event);
                    let mut groups = sort_one_definition_list(list.as_slice());
                    proof {
                        assert(markdown::views(sorted@) == held.take(start as int));
                        assert(markdown::views(list@) == held.skip(start as int).push(event@));
                        assert(markdown::views(sorted@ + groups@) == markdown::views(sorted@)
                            + markdown::views(groups@));
                    }
                    sorted.append(&mut groups);
                } else {
                    sorted.push(event);
                }
            },
            _ => {
                sorted.push(event);
            },
        }
        proof {
            assert(markdown::views(sorted@) == sorted_lists(after));
            assert(markdown::views(sorted@).len() == sorted@.len());
        }
        i += 1;
    }
    assert(all.take(i as int) == all);
    *events = sorted;
}

} // verus!
