use termlink::definition_lists::{
    sort_definition_lists, sort_key_for_title, sort_one_definition_list,
};
use termlink::markdown::{Event, Tag};
use termlink::nesting::own_events;

fn text(s: &str) -> Event {
    Event::Text(s.to_string())
}

fn open_list(at: usize) -> Event {
    Event::Start(Tag::DefinitionList, at)
}

fn close_list(at: usize) -> Event {
    Event::End(Tag::DefinitionList, at)
}

fn group(title: &str, body: &str, at: usize) -> Vec<Event> {
    vec![
        Event::Start(Tag::DefinitionListTitle, at),
        text(title),
        Event::End(Tag::DefinitionListTitle, at + 1),
        Event::Start(Tag::Other, at + 2),
        text(body),
        Event::End(Tag::Other, at + 3),
    ]
}

fn list(groups: &[Vec<Event>]) -> Vec<Event> {
    let mut events = vec![open_list(100)];
    for group in groups {
        events.extend(group.iter().cloned());
    }
    events.push(close_list(101));
    events
}

#[test]
fn keys_are_short_forms_in_lower_case() {
    assert_eq!(sort_key_for_title("API (Application Programming Interface)"), "api");
    assert_eq!(sort_key_for_title("Backend"), "backend");
    assert_eq!(sort_key_for_title("ÄRGER (x)"), "ärger");
    assert_eq!(sort_key_for_title(""), "");
    assert_eq!(sort_key_for_title("BACKEND"), sort_key_for_title("backend"));
    assert_eq!(sort_key_for_title("Two WORDS"), "two words");
}

#[test]
fn groups_are_alphabetical() {
    let z = group("Zeta", "last", 0);
    let a = group("alpha", "first", 10);
    let m = group("MU (x)", "middle", 20);
    assert_eq!(
        sort_one_definition_list(&list(&[z.clone(), a.clone(), m.clone()])),
        list(&[a, m, z])
    );
}

#[test]
fn equal_keys_keep_source_order() {
    let one = group("API (b)", "one", 0);
    let two = group("api", "two", 10);
    let three = group("Api (a)", "three", 20);
    let first = group("Aaa", "zero", 30);
    assert_eq!(
        sort_one_definition_list(&list(&[one.clone(), two.clone(), first.clone(), three.clone()])),
        list(&[first, one, two, three])
    );
}

#[test]
fn inline_code_counts_in_titles() {
    let code = vec![
        Event::Start(Tag::DefinitionListTitle, 0),
        text(" "),
        Event::Code("beta".to_string()),
        text("-x "),
        Event::End(Tag::DefinitionListTitle, 1),
    ];
    let alpha = group("beta-a", "x", 10);
    let gamma = group("beta-z", "y", 20);
    assert_eq!(
        sort_one_definition_list(&list(&[gamma.clone(), code.clone(), alpha.clone()])),
        list(&[alpha, code, gamma])
    );
}

#[test]
fn events_before_the_first_title_stay_in_front() {
    let z = group("Zeta", "last", 0);
    let a = group("Alpha", "first", 10);
    let lead = vec![text("lead"), Event::Other(50)];
    assert_eq!(
        sort_one_definition_list(&list(&[lead.clone(), z.clone(), a.clone()])),
        list(&[lead, a, z])
    );
}

#[test]
fn text_behind_a_title_does_not_count() {
    let one = group("b", "a", 0);
    let two = group("a", "z", 10);
    assert_eq!(
        sort_one_definition_list(&list(&[one.clone(), two.clone()])),
        list(&[two, one])
    );
}

#[test]
fn list_without_titles_stays_as_it_is() {
    let events = list(&[vec![text("b"), text("a")]]);
    assert_eq!(sort_one_definition_list(&events), events);
    let empty = list(&[]);
    assert_eq!(sort_one_definition_list(&empty), empty);
}

#[test]
fn end_of_a_title_that_did_not_start_is_a_group() {
    let events = vec![
        open_list(0),
        Event::End(Tag::DefinitionListTitle, 1),
        text("lead"),
        Event::Start(Tag::DefinitionListTitle, 2),
        text("a"),
        Event::End(Tag::DefinitionListTitle, 3),
        close_list(4),
    ];
    assert_eq!(
        sort_one_definition_list(&events),
        vec![
            open_list(0),
            text("lead"),
            Event::End(Tag::DefinitionListTitle, 1),
            Event::Start(Tag::DefinitionListTitle, 2),
            text("a"),
            Event::End(Tag::DefinitionListTitle, 3),
            close_list(4),
        ]
    );
}

#[test]
fn title_that_does_not_end_sorts_first() {
    let unended = vec![Event::Start(Tag::DefinitionListTitle, 0), text("zzz")];
    let a = group("alpha", "x", 10);
    assert_eq!(
        sort_one_definition_list(&list(&[a.clone(), unended.clone()])),
        list(&[unended, a])
    );
}

#[test]
fn every_list_is_sorted_by_itself() {
    let z = group("Zeta", "z", 0);
    let a = group("Alpha", "a", 10);
    let m = group("Mu", "m", 20);
    let b = group("Beta", "b", 30);
    let mut events = vec![text("before")];
    events.extend(list(&[z.clone(), a.clone()]));
    events.push(text("between"));
    events.extend(list(&[m.clone(), b.clone()]));
    events.push(text("after"));

    let mut expected = vec![text("before")];
    expected.extend(list(&[a, z]));
    expected.push(text("between"));
    expected.extend(list(&[b, m]));
    expected.push(text("after"));

    sort_definition_lists(&mut events);
    assert_eq!(events, expected);
}

#[test]
fn sorted_page_stays_sorted() {
    let mut events = list(&[group("Zeta", "z", 0), group("alpha", "a", 10), group("Mu", "m", 20)]);
    sort_definition_lists(&mut events);
    let once = events.clone();
    sort_definition_lists(&mut events);
    assert_eq!(events, once);
}

fn title(s: &str, at: usize) -> Vec<Event> {
    vec![
        Event::Start(Tag::DefinitionListTitle, at),
        text(s),
        Event::End(Tag::DefinitionListTitle, at + 1),
    ]
}

fn definition(body: &[Event], at: usize) -> Vec<Event> {
    let mut events = vec![Event::Start(Tag::Other, at)];
    events.extend(body.iter().cloned());
    events.push(Event::End(Tag::Other, at + 1));
    events
}

fn joined(parts: &[Vec<Event>]) -> Vec<Event> {
    parts.concat()
}

#[test]
fn every_one_of_nested_lists_is_sorted() {
    let b = joined(&[title("b", 0), definition(&[text("1")], 2)]);
    let a = joined(&[title("a", 4), definition(&[text("2")], 6)]);
    let alpha = joined(&[title("Alpha", 8), definition(&[text("3")], 10)]);
    let zeta = |inner: Vec<Event>| joined(&[title("Zeta", 12), definition(&inner, 14)]);

    let mut events = list(&[zeta(list(&[b.clone(), a.clone()])), alpha.clone()]);
    let expected = list(&[alpha, zeta(list(&[a, b]))]);
    sort_definition_lists(&mut events);
    assert_eq!(events, expected);

    sort_definition_lists(&mut events);
    assert_eq!(events, expected);
}

#[test]
fn list_directly_in_another_moves_with_its_group() {
    let z = group("Zeta", "z", 0);
    let a = group("Alpha", "a", 10);
    let outer = group("Outer", "o", 20);
    let first = group("Aaa", "later", 40);
    let mut events =
        list(&[joined(&[outer.clone(), list(&[z.clone(), a.clone()])]), first.clone()]);
    sort_definition_lists(&mut events);
    assert_eq!(events, list(&[first, joined(&[outer, list(&[a, z])])]));
}

#[test]
fn lists_are_sorted_at_every_depth() {
    let nest = |name: &str, at: usize, inner: Vec<Event>| {
        joined(&[title(name, at), definition(&inner, at + 2)])
    };
    let leaf = |name: &str, at: usize| nest(name, at, vec![text("x")]);
    let mut events = list(&[
        nest(
            "two",
            0,
            list(&[nest("d", 10, list(&[leaf("f", 20), leaf("e", 30)])), leaf("c", 40)]),
        ),
        nest("one", 50, list(&[leaf("b", 60), leaf("a", 70)])),
    ]);
    let expected = list(&[
        nest("one", 50, list(&[leaf("a", 70), leaf("b", 60)])),
        nest(
            "two",
            0,
            list(&[leaf("c", 40), nest("d", 10, list(&[leaf("e", 30), leaf("f", 20)]))]),
        ),
    ]);
    sort_definition_lists(&mut events);
    assert_eq!(events, expected);
}

#[test]
fn titles_of_inner_lists_are_no_titles_of_the_outer_one() {
    // The titles of the inner list neither split the group nor count in its key.
    let inner = list(&[group("aaa", "1", 0), group("zzz", "2", 10)]);
    let m = joined(&[title("m", 20), inner]);
    let b = group("b", "3", 30);
    let y = group("y", "4", 40);
    assert_eq!(
        sort_one_definition_list(&list(&[y.clone(), m.clone(), b.clone()])),
        list(&[b, m, y])
    );
}

#[test]
fn lists_before_the_first_title_stay_in_front_and_are_sorted() {
    let z = group("z", "1", 0);
    let a = group("a", "2", 10);
    let y = group("y", "3", 20);
    let b = group("b", "4", 30);
    let mut events = list(&[list(&[z.clone(), a.clone()]), y.clone(), b.clone()]);
    sort_definition_lists(&mut events);
    assert_eq!(events, list(&[list(&[a, z]), b, y]));
}

#[test]
fn text_of_a_list_in_a_title_does_not_count() {
    let odd = joined(&[
        vec![Event::Start(Tag::DefinitionListTitle, 0), text("b")],
        list(&[group("zzz", "1", 10)]),
        vec![text("c"), Event::End(Tag::DefinitionListTitle, 1)],
    ]);
    let bd = group("bd", "2", 20);
    let bb = group("bb", "3", 30);
    assert_eq!(
        sort_one_definition_list(&list(&[bd.clone(), odd.clone(), bb.clone()])),
        list(&[bb, odd, bd])
    );
}

#[test]
fn starts_and_ends_without_a_partner_change_nothing() {
    let z = group("z", "1", 0);
    let a = group("a", "2", 10);
    // The end belongs to the second start; the first has no partner.
    let mut events = joined(&[
        vec![open_list(50)],
        group("y", "3", 20),
        list(&[z.clone(), a.clone()]),
        group("b", "4", 30),
    ]);
    let expected = joined(&[
        vec![open_list(50)],
        group("y", "3", 20),
        list(&[a.clone(), z.clone()]),
        group("b", "4", 30),
    ]);
    sort_definition_lists(&mut events);
    assert_eq!(events, expected);

    // An end where no list is open is passed over, and the list behind it is sorted.
    let mut events = joined(&[list(&[z.clone(), a.clone()]), vec![close_list(60)], list(&[z.clone(), a.clone()])]);
    let expected = joined(&[list(&[a.clone(), z.clone()]), vec![close_list(60)], list(&[a, z])]);
    sort_definition_lists(&mut events);
    assert_eq!(events, expected);
}

#[test]
fn start_without_an_end_in_the_list_hides_no_title() {
    let b = title("b", 0);
    let a = title("a", 10);
    assert_eq!(
        sort_one_definition_list(&list(&[vec![open_list(50)], b.clone(), a.clone()])),
        list(&[vec![open_list(50)], a.clone(), b.clone()])
    );
    // It moves with its group, and text behind it counts in a title.
    let b_open = joined(&[b.clone(), vec![open_list(50)]]);
    assert_eq!(
        sort_one_definition_list(&list(&[b_open.clone(), a.clone()])),
        list(&[a.clone(), b_open])
    );
    let zb = vec![
        Event::Start(Tag::DefinitionListTitle, 0),
        open_list(50),
        text("z"),
        Event::End(Tag::DefinitionListTitle, 1),
    ];
    assert_eq!(
        sort_one_definition_list(&list(&[zb.clone(), a.clone()])),
        list(&[a.clone(), zb])
    );
    // A list behind it that ends is still a list within the list.
    let inner = list(&[title("y", 20), title("x", 30)]);
    let c = joined(&[title("c", 40), vec![open_list(50)], inner]);
    assert_eq!(
        sort_one_definition_list(&list(&[c.clone(), b.clone(), a.clone()])),
        list(&[a, b, c])
    );
}

#[test]
fn end_without_a_start_in_the_list_changes_nothing() {
    let b = joined(&[title("b", 0), vec![close_list(50)]]);
    let a = title("a", 10);
    assert_eq!(
        sort_one_definition_list(&list(&[b.clone(), a.clone()])),
        list(&[a, b])
    );
}

#[test]
fn own_events_lie_in_no_list_that_starts_and_ends() {
    let events = vec![
        text("0"),
        open_list(1),
        text("2"),
        open_list(3),
        text("4"),
        close_list(5),
        text("6"),
        close_list(7),
        close_list(8),
        open_list(9),
        text("10"),
    ];
    assert_eq!(
        own_events(&events),
        vec![true, true, false, false, false, false, false, true, true, true, true]
    );
    assert!(own_events(&[]).is_empty());
}

#[test]
fn lists_that_do_not_start_or_end_stay_as_they_are() {
    let mut events = vec![close_list(0)];
    events.extend(group("Zeta", "z", 10));
    events.extend(group("Alpha", "a", 20));
    events.push(open_list(1));
    events.extend(group("Zeta", "z", 30));
    events.extend(group("Alpha", "a", 40));
    let before = events.clone();
    sort_definition_lists(&mut events);
    assert_eq!(events, before);

    let mut none: Vec<Event> = vec![];
    sort_definition_lists(&mut none);
    assert!(none.is_empty());
}
