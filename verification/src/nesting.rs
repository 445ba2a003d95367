//! How definition lists lie within one another.

use crate::markdown;
use crate::markdown::{Event, EventView, Tag};
use vstd::prelude::*;

verus! {

/// Whether a definition list starts at `event`.
pub open spec fn list_start(event: EventView) -> bool {
    event matches EventView::Start(Tag::DefinitionList, _)
}

/// Whether a definition list ends at `event`.
pub open spec fn list_end(event: EventView) -> bool {
    event matches EventView::End(Tag::DefinitionList, _)
}

/// How many definition lists are open at the end of `events`. An end where none is open is passed
/// over.
pub open spec fn list_depth(events: Seq<EventView>) -> nat
    decreases events.len(),
{
    if events.len() == 0 {
        0
    } else {
        let before = list_depth(events.drop_last());
        if list_start(events.last()) {
            before + 1
        } else if list_end(events.last()) && before > 0 {
            (before - 1) as nat
        } else {
            before
        }
    }
}

/// Where the list starts that is open at the end of `events` once the innermost `skipped` lists
/// have ended.
pub open spec fn open_list_beyond(events: Seq<EventView>, skipped: nat) -> Option<int>
    decreases events.len(),
{
    if events.len() == 0 {
        None
    } else if list_start(events.last()) {
        if skipped == 0 {
            Some(events.len() - 1)
        } else {
            open_list_beyond(events.drop_last(), (skipped - 1) as nat)
        }
    } else if list_end(events.last()) {
        open_list_beyond(events.drop_last(), skipped + 1)
    } else {
        open_list_beyond(events.drop_last(), skipped)
    }
}

/// Where the innermost definition list that is open at the end of `events` starts.
pub open spec fn open_list(events: Seq<EventView>) -> Option<int> {
    open_list_beyond(events, 0)
}

/// Whether every list that ends among `events` has started there.
#[verifier::opaque]
pub open spec fn ends_paired(events: Seq<EventView>) -> bool {
    forall|k: int|
        #![trigger events[k]]
        0 <= k < events.len() && list_end(events[k]) ==> list_depth(events.take(k)) > 0
}

/// Whether `events` hold lists as a whole: each that ends has started, and each that starts ends.
pub open spec fn whole(events: Seq<EventView>) -> bool {
    ends_paired(events) && list_depth(events) == 0
}

/// Whether the definition list that starts at `start` ends at `end`: between them, lists are whole.
pub open spec fn list_at(events: Seq<EventView>, start: int, end: int) -> bool {
    &&& 0 <= start < end < events.len()
    &&& list_start(events[start])
    &&& list_end(events[end])
    &&& whole(events.subrange(start + 1, end))
}

/// Whether position `i` of `events` lies within no definition list. The start and the end of a list
/// are not within it.
pub open spec fn outside_lists(events: Seq<EventView>, i: int) -> bool {
    forall|start: int, end: int| #[trigger] list_at(events, start, end) ==> !(start < i < end)
}

/// Where nothing stands, no list ends.
pub proof fn lemma_ends_paired_none()
    ensures
        ends_paired(Seq::<EventView>::empty()),
{
    reveal(ends_paired);
}

/// The first of events in which ends are paired are such events.
pub proof fn lemma_ends_paired_take(events: Seq<EventView>, n: int)
    requires
        0 <= n <= events.len(),
        ends_paired(events),
    ensures
        ends_paired(events.take(n)),
{
    reveal(ends_paired);
    let part = events.take(n);
    assert forall|k: int|
        #![trigger part[k]]
        0 <= k < part.len() && list_end(part[k]) implies list_depth(part.take(k)) > 0 by {
        assert(part[k] == events[k]);
        assert(part.take(k) == events.take(k));
    }
}

/// One more event keeps ends paired, unless it is an end where no list is open.
pub proof fn lemma_ends_paired_push(events: Seq<EventView>, event: EventView)
    requires
        ends_paired(events),
        list_end(event) ==> list_depth(events) > 0,
    ensures
        ends_paired(events.push(event)),
{
    reveal(ends_paired);
    let more = events.push(event);
    assert forall|k: int|
        #![trigger more[k]]
        0 <= k < more.len() && list_end(more[k]) implies list_depth(more.take(k)) > 0 by {
        if k < events.len() {
            assert(more[k] == events[k]);
            assert(more.take(k) == events.take(k));
        } else {
            assert(more.take(k) == events);
        }
    }
}

/// The last of events in which ends are paired.
pub proof fn lemma_ends_paired_last(events: Seq<EventView>)
    requires
        events.len() > 0,
        ends_paired(events),
    ensures
        ends_paired(events.drop_last()),
        list_end(events.last()) ==> list_depth(events.drop_last()) > 0,
{
    reveal(ends_paired);
    let last = events.len() - 1;
    lemma_ends_paired_take(events, last);
    assert(events.take(last) == events.drop_last());
    assert(events[last] == events.last());
}

/// Events after such as leave no list open count for themselves.
pub proof fn lemma_depth_after_level(a: Seq<EventView>, x: Seq<EventView>)
    requires
        list_depth(a) == 0,
    ensures
        list_depth(a + x) == list_depth(x),
    decreases x.len(),
{
    if x.len() == 0 {
        assert(a + x == a);
    } else {
        lemma_depth_after_level(a, x.drop_last());
        assert((a + x).drop_last() == a + x.drop_last());
    }
}

/// Events in which ends are paired close nothing that was open before them.
pub proof fn lemma_depth_append(a: Seq<EventView>, x: Seq<EventView>)
    requires
        ends_paired(x),
    ensures
        list_depth(a + x) == list_depth(a) + list_depth(x),
        ends_paired(a) ==> ends_paired(a + x),
    decreases x.len(),
{
    if x.len() == 0 {
        assert(a + x == a);
    } else {
        let rest = x.drop_last();
        lemma_ends_paired_last(x);
        lemma_depth_append(a, rest);
        assert((a + x).drop_last() == a + rest);
        assert((a + x).last() == x.last());
        assert(a + x == (a + rest).push(x.last()));
        if ends_paired(a) {
            lemma_ends_paired_push(a + rest, x.last());
        }
    }
}

/// Which lists are open after events in which ends are paired.
pub proof fn lemma_open_list_append(a: Seq<EventView>, x: Seq<EventView>, skipped: nat)
    requires
        ends_paired(x),
    ensures
        skipped >= list_depth(x) ==> open_list_beyond(a + x, skipped) == open_list_beyond(
            a,
            (skipped - list_depth(x)) as nat,
        ),
        skipped < list_depth(x) ==> (open_list_beyond(x, skipped) matches Some(start) && 0 <= start
            < x.len() && open_list_beyond(a + x, skipped) == Some(a.len() + start)),
    decreases x.len(),
{
    if x.len() == 0 {
        assert(a + x == a);
    } else {
        let rest = x.drop_last();
        lemma_ends_paired_last(x);
        assert((a + x).drop_last() == a + rest);
        assert((a + x).last() == x.last());
        if list_start(x.last()) {
            if skipped > 0 {
                lemma_open_list_append(a, rest, (skipped - 1) as nat);
            }
        } else if list_end(x.last()) {
            lemma_open_list_append(a, rest, skipped + 1);
        } else {
            lemma_open_list_append(a, rest, skipped);
        }
    }
}

/// What it means that a list is open at the end of `events`.
pub proof fn lemma_open_list(events: Seq<EventView>, skipped: nat)
    ensures
        open_list_beyond(events, skipped) matches Some(start) ==> {
            &&& 0 <= start < events.len()
            &&& list_start(events[start])
            &&& ends_paired(events.skip(start + 1))
            &&& list_depth(events.skip(start + 1)) == skipped
        },
    decreases events.len(),
{
    if let Some(start) = open_list_beyond(events, skipped) {
        let before = events.drop_last();
        let event = events.last();
        if list_start(event) && skipped == 0 {
            assert(events.skip(start + 1) == Seq::<EventView>::empty());
            lemma_ends_paired_none();
        } else {
            let fewer = if list_start(event) {
                (skipped - 1) as nat
            } else if list_end(event) {
                skipped + 1
            } else {
                skipped
            };
            lemma_open_list(before, fewer);
            assert(before[start] == events[start]);
            assert(events.skip(start + 1) == before.skip(start + 1).push(event));
            assert(events.skip(start + 1).drop_last() == before.skip(start + 1));
            lemma_ends_paired_push(before.skip(start + 1), event);
        }
    }
}

/// A list ends at `end` exactly if it is the innermost that is open there.
pub proof fn lemma_list_at(events: Seq<EventView>, start: int, end: int)
    requires
        0 <= end < events.len(),
    ensures
        list_at(events, start, end) <==> list_end(events[end]) && open_list(events.take(end))
            == Some(start),
{
    let before = events.take(end);
    if list_end(events[end]) && open_list(before) == Some(start) {
        lemma_open_list(before, 0);
        assert(before.skip(start + 1) == events.subrange(start + 1, end));
    }
    if list_at(events, start, end) {
        let head = events.take(start + 1);
        let inner = events.subrange(start + 1, end);
        assert(before == head + inner);
        lemma_open_list_append(head, inner, 0);
        assert(head.last() == events[start]);
    }
}

/// A list and what stands in it are whole.
pub proof fn lemma_list_whole(first: EventView, inner: Seq<EventView>, last: EventView)
    requires
        list_start(first),
        list_end(last),
        whole(inner),
    ensures
        whole(seq![first] + inner + seq![last]),
        list_depth(seq![first] + inner) == 1,
        ends_paired(seq![first] + inner),
{
    let none: Seq<EventView> = seq![];
    let head = seq![first];
    assert(head == none.push(first));
    lemma_ends_paired_none();
    lemma_ends_paired_push(none, first);
    assert(list_depth(head.drop_last()) == 0);
    lemma_depth_append(head, inner);
    lemma_ends_paired_push(head + inner, last);
    assert(head + inner + seq![last] == (head + inner).push(last));
    assert((head + inner).push(last).drop_last() == head + inner);
}

/// The lists of two sequences are those of either, where ends are paired in the second.
pub proof fn lemma_lists_of_both(a: Seq<EventView>, x: Seq<EventView>, start: int, end: int)
    ensures
        end < a.len() ==> list_at(a + x, start, end) == list_at(a, start, end),
        a.len() <= start ==> list_at(a + x, start, end) == list_at(
            x,
            start - a.len(),
            end - a.len(),
        ),
        ends_paired(x) && start < a.len() <= end ==> !list_at(a + x, start, end),
{
    let both = a + x;
    if 0 <= start < end < a.len() {
        assert(both.subrange(start + 1, end) == a.subrange(start + 1, end));
    }
    if a.len() <= start && start < end < both.len() {
        assert(both.subrange(start + 1, end) == x.subrange(
            start - a.len() + 1,
            end - a.len(),
        ));
    }
    if ends_paired(x) && start < a.len() <= end && list_at(both, start, end) {
        reveal(ends_paired);
        let at = end - a.len();
        let part = x.take(at);
        assert(x[at] == both[end]);
        lemma_ends_paired_take(x, at);
        lemma_depth_append(a.skip(start + 1), part);
        assert(both.subrange(start + 1, end) == a.skip(start + 1) + part);
    }
}

/// Whether `starts` are where the lists start that are open at the end of `events`, the innermost
/// last.
pub open spec fn are_open(starts: Seq<usize>, events: Seq<EventView>) -> bool {
    forall|skipped: nat| #[trigger]
        open_list_beyond(events, skipped) == if skipped < starts.len() {
            Some(starts[starts.len() - 1 - skipped] as int)
        } else {
            None
        }
}

/// What is open changes only where a list starts or ends.
pub proof fn lemma_are_open_push(
    starts: Seq<usize>,
    events: Seq<EventView>,
    at: usize,
    event: EventView,
)
    requires
        are_open(starts, events),
        at == events.len(),
    ensures
        list_start(event) ==> are_open(starts.push(at), events.push(event)),
        list_end(event) && starts.len() > 0 ==> are_open(starts.drop_last(), events.push(event)),
        list_end(event) && starts.len() == 0 ==> are_open(starts, events.push(event)),
        !list_start(event) && !list_end(event) ==> are_open(starts, events.push(event)),
        starts.len() > 0 ==> open_list(events) == Some(starts.last() as int),
        starts.len() == 0 ==> open_list(events) is None,
{
    let more = events.push(event);
    let after = if list_start(event) {
        starts.push(at)
    } else if list_end(event) && starts.len() > 0 {
        starts.drop_last()
    } else {
        starts
    };
    assert(more.drop_last() == events);
    assert(open_list(events) == open_list_beyond(events, 0));
    assert forall|skipped: nat| #[trigger]
        open_list_beyond(more, skipped) == if skipped < after.len() {
            Some(after[after.len() - 1 - skipped] as int)
        } else {
            None
        } by {
        if list_start(event) {
            assert(skipped > 0 ==> open_list_beyond(events, (skipped - 1) as nat)
                == open_list_beyond(more, skipped));
        } else if list_end(event) {
            assert(open_list_beyond(events, skipped + 1) == open_list_beyond(more, skipped));
        } else {
            assert(open_list_beyond(events, skipped) == open_list_beyond(more, skipped));
        }
    }
}

/// Whether position `j` lies within no list that ends before `end`.
spec fn outside_before(events: Seq<EventView>, j: int, end: int) -> bool {
    forall|start: int, at: int| #[trigger]
        list_at(events, start, at) && at < end ==> !(start < j < at)
}

/// One more event ends the innermost list that is open, if it ends one.
proof fn lemma_outside_before(events: Seq<EventView>, j: int, end: int)
    requires
        0 <= end < events.len(),
    ensures
        outside_before(events, j, end + 1) == (outside_before(events, j, end) && !(list_end(
            events[end],
        ) && (open_list(events.take(end)) matches Some(start) && start < j < end))),
{
    assert forall|start: int| #[trigger] list_at(events, start, end) == (list_end(events[end])
        && open_list(events.take(end)) == Some(start)) by {
        lemma_list_at(events, start, end);
    }
    if list_end(events[end]) {
        if let Some(start) = open_list(events.take(end)) {
            assert(list_at(events, start, end));
        }
    }
}

/// Which of `events` lie within no list that starts and ends among them.
pub fn own_events(events: &[Event]) -> (own: Vec<bool>)
    ensures
        own@.len() == events@.len(),
        forall|i: int|
            #![trigger own@[i]]
            0 <= i < own@.len() ==> own@[i] == outside_lists(markdown::views(events@), i),
{
    let ghost all = markdown::views(events@);
    let mut own: Vec<bool> = Vec::new();
    let mut starts: Vec<usize> = Vec::new();
    let mut i: usize = 0;
    assert(all.take(0) == Seq::<EventView>::empty());
    while i < events.len()
        invariant
            i <= events@.len(),
            all == markdown::views(events@),
            own@.len() == i,
            are_open(starts@, all.take(i as int)),
            forall|j: int|
                #![trigger own@[j]]
                0 <= j < i ==> own@[j] == outside_before(all, j, i as int),
        decreases events.len() - i,
    {
        let ghost before = all.take(i as int);
        let ghost found = own@;
        proof {
            assert(events@[i as int]@ == all[i as int]);
            assert(all.take(i + 1) == before.push(all[i as int]));
            lemma_open_list(before, 0);
            lemma_are_open_push(starts@, before, i, all[i as int]);
            assert forall|j: int| #[trigger] outside_before(all, j, i + 1) == (outside_before(
                all,
                j,
                i as int,
            ) && !(list_end(all[i as int]) && (open_list(before) matches Some(start) && start < j
                < i))) by {
                lemma_outside_before(all, j, i as int);
            }
            assert(outside_before(all, i as int, i as int));
        }
        match &events[i] {
            Event::Start(Tag::DefinitionList, _) => {
                starts.push(i);
            },
            Event::End(Tag::DefinitionList, _) => {
                if let Some(start) = starts.pop() {
                    let mut j: usize = start + 1;
                    while j < i
                        invariant
                            start < j <= i,
                            own@.len() == i,
                            found.len() == i,
                            forall|k: int|
                                #![trigger own@[k]]
                                0 <= k < i ==> own@[k] == (found[k] && !(start < k < j)),
                        decreases i - j,
                    {
                        own.set(j, false);
                        j += 1;
                    }
                }
            },
            _ => {},
        }
        own.push(true);
        i += 1;
    }
    assert forall|j: int| #![trigger own@[j]] 0 <= j < own@.len() implies own@[j]
        == outside_lists(all, j) by {
        assert(outside_before(all, j, all.len() as int) == outside_lists(all, j));
    }
    own
}

/// Among whole lists, an event lies within no list exactly if none is open before it, unless it is
/// the end of one.
pub proof fn lemma_outside_level(events: Seq<EventView>, i: int)
    requires
        whole(events),
        0 <= i < events.len(),
    ensures
        list_depth(events.take(i)) == 0 ==> outside_lists(events, i),
        outside_lists(events, i) && !list_end(events[i]) ==> list_depth(events.take(i)) == 0,
{
    if list_depth(events.take(i)) == 0 {
        assert forall|start: int, end: int| #[trigger] list_at(events, start, end) implies !(start
            < i < end) by {
            if start < i < end {
                let inner = events.subrange(start + 1, end);
                let part = inner.take(i - start - 1);
                let head = events.take(start + 1);
                lemma_ends_paired_take(inner, i - start - 1);
                assert(events.take(i) == head + part);
                lemma_depth_append(head, part);
                assert(head.last() == events[start]);
            }
        }
    } else {
        let (start, end) = lemma_enclosing_list(events, i);
        assert(list_at(events, start, end));
    }
}

/// Among whole lists, a list that is open ends.
proof fn lemma_enclosing_list(events: Seq<EventView>, i: int) -> (bounds: (int, int))
    requires
        whole(events),
        0 <= i <= events.len(),
        list_depth(events.take(i)) > 0,
    ensures
        list_at(events, bounds.0, bounds.1),
        bounds.0 < i <= bounds.1,
    decreases events.len(),
{
    let before = events.drop_last();
    let last = events.len() - 1;
    if i == events.len() {
        assert(events.take(i) == events);
    }
    assert(events.take(last) == before);
    lemma_ends_paired_last(events);
    if list_end(events.last()) {
        let none: Seq<EventView> = seq![];
        lemma_open_list_append(none, before, 0);
        assert(none + before == before);
        let start = open_list(before)->0;
        lemma_list_at(events, start, last);
        if start < i {
            (start, last)
        } else {
            let a = events.take(start);
            let list = events.skip(start);
            assert(events == a + list);
            lemma_open_list(before, 0);
            lemma_ends_paired_take(events, start);
            lemma_list_whole(events[start], before.skip(start + 1), events.last());
            assert(list == seq![events[start]] + before.skip(start + 1) + seq![events.last()]);
            lemma_depth_append(a, list);
            assert(a.take(i) == events.take(i));
            let bounds = lemma_enclosing_list(a, i);
            lemma_lists_of_both(a, list, bounds.0, bounds.1);
            bounds
        }
    } else {
        assert(before.take(i) == events.take(i));
        let bounds = lemma_enclosing_list(before, i);
        lemma_lists_of_both(before, seq![events.last()], bounds.0, bounds.1);
        assert(before + seq![events.last()] == events);
        bounds
    }
}

/// How many definition lists start among `events` beyond those that end.
pub open spec fn list_balance(events: Seq<EventView>) -> int
    decreases events.len(),
{
    if events.len() == 0 {
        0
    } else {
        list_balance(events.drop_last()) + match events.last() {
            EventView::Start(Tag::DefinitionList, _) => 1int,
            EventView::End(Tag::DefinitionList, _) => -1int,
            _ => 0int,
        }
    }
}

/// Where ends are paired, depth is what starts beyond what ends.
proof fn lemma_depth_is_balance(events: Seq<EventView>)
    requires
        ends_paired(events),
    ensures
        list_balance(events) == list_depth(events),
    decreases events.len(),
{
    if events.len() > 0 {
        lemma_ends_paired_last(events);
        lemma_depth_is_balance(events.drop_last());
    }
}

/// Where nowhere more lists have ended than started, ends are paired.
proof fn lemma_balanced_ends_are_paired(events: Seq<EventView>)
    requires
        forall|m: int| 0 <= m <= events.len() ==> #[trigger] list_balance(events.take(m)) >= 0,
    ensures
        ends_paired(events),
    decreases events.len(),
{
    if events.len() > 0 {
        let before = events.drop_last();
        let n = events.len() as int;
        assert forall|m: int| 0 <= m <= before.len() implies #[trigger] list_balance(before.take(m))
            >= 0 by {
            assert(before.take(m) == events.take(m));
            assert(list_balance(events.take(m)) >= 0);
        }
        lemma_balanced_ends_are_paired(before);
        lemma_depth_is_balance(before);
        assert(events.take(n) == events);
        assert(list_balance(events.take(n)) >= 0);
        lemma_ends_paired_push(before, events.last());
        assert(before.push(events.last()) == events);
    } else {
        lemma_ends_paired_none();
        assert(events == Seq::<EventView>::empty());
    }
}

/// The start and the end of a list are paired by counting: between them as many lists end as start,
/// and nowhere before have more ended.
pub proof fn law_lists_are_paired_by_counting(events: Seq<EventView>, start: int, end: int)
    ensures
        list_at(events, start, end) <==> {
            &&& 0 <= start < end < events.len()
            &&& events[start] matches EventView::Start(Tag::DefinitionList, _)
            &&& events[end] matches EventView::End(Tag::DefinitionList, _)
            &&& list_balance(events.subrange(start + 1, end)) == 0
            &&& forall|m: int|
                start < m <= end ==> #[trigger] list_balance(events.subrange(start + 1, m)) >= 0
        },
{
    if 0 <= start < end < events.len() {
        let inner = events.subrange(start + 1, end);
        if ends_paired(inner) {
            lemma_depth_is_balance(inner);
            assert forall|m: int| start < m <= end implies #[trigger] list_balance(
                events.subrange(start + 1, m),
            ) >= 0 by {
                assert(events.subrange(start + 1, m) == inner.take(m - start - 1));
                lemma_ends_paired_take(inner, m - start - 1);
                lemma_depth_is_balance(inner.take(m - start - 1));
            }
        }
        if forall|m: int|
            start < m <= end ==> #[trigger] list_balance(events.subrange(start + 1, m)) >= 0 {
            assert forall|m: int| 0 <= m <= inner.len() implies #[trigger] list_balance(
                inner.take(m),
            ) >= 0 by {
                assert(events.subrange(start + 1, start + 1 + m) == inner.take(m));
                assert(list_balance(events.subrange(start + 1, start + 1 + m)) >= 0);
            }
            lemma_balanced_ends_are_paired(inner);
            lemma_depth_is_balance(inner);
        }
    }
}

} // verus!
