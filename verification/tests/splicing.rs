use termlink::linker::{replace_terms_to_events, splice_matches, LinkMatch, LinkedTerms};
use termlink::markdown::Event;
use termlink::{Config, Term};

fn text(s: &str) -> Event {
    Event::Text(s.to_string())
}

fn html(s: &str) -> Event {
    Event::Html(s.to_string())
}

fn found(start: usize, end: usize, html: &str) -> LinkMatch {
    LinkMatch { start, end, html: html.to_string() }
}

#[test]
fn unmatched_text_is_unchanged() {
    assert_eq!(splice_matches("abc", vec![]), vec![text("abc")]);
    assert_eq!(splice_matches("", vec![]), vec![text("")]);
}

#[test]
fn matches_are_put_in_order() {
    assert_eq!(
        splice_matches("one two three", vec![found(8, 13, "3"), found(0, 3, "1")]),
        vec![html("1"), text(" two "), html("3")]
    );
}

#[test]
fn overlapping_matches_are_left_out() {
    assert_eq!(
        splice_matches("abcdef", vec![found(2, 5, "late"), found(1, 3, "early"), found(3, 4, "next")]),
        vec![text("a"), html("early"), html("next"), text("ef")]
    );
}

#[test]
fn first_of_matches_that_start_together_is_kept() {
    assert_eq!(
        splice_matches("abc", vec![found(0, 1, "first"), found(0, 3, "second")]),
        vec![html("first"), text("bc")]
    );
}

#[test]
fn match_of_the_whole_text_leaves_no_text() {
    assert_eq!(splice_matches("abc", vec![found(0, 3, "x")]), vec![html("x")]);
}

#[test]
fn matches_may_touch() {
    assert_eq!(
        splice_matches("abcd", vec![found(0, 2, "x"), found(2, 4, "y")]),
        vec![html("x"), html("y")]
    );
}

#[test]
fn text_around_a_match_may_hold_any_character() {
    assert_eq!(
        splice_matches("größe API €", vec![found(8, 11, "x")]),
        vec![text("größe "), html("x"), text(" €")]
    );
}

#[test]
fn splicing_keeps_text() {
    let source = "REST and API, API and REST.";
    let api = Term::new("API");
    let rest = Term::new("REST");
    let mut linked = LinkedTerms::new();
    let events = replace_terms_to_events(
        source,
        &[&api, &rest],
        "g.html",
        &Config::default(),
        &mut linked,
    );
    assert_eq!(
        events,
        vec![
            html("<a href=\"g.html#rest\" class=\"glossary-term\">REST</a>"),
            text(" and "),
            html("<a href=\"g.html#api\" class=\"glossary-term\">API</a>"),
            text(", API and REST."),
        ]
    );
    assert!(linked.contains("api"));
    assert!(linked.contains("rest"));
    assert!(!linked.contains("xpt"));
}

#[test]
fn linked_terms_are_passed_over() {
    let api = Term::new("API");
    let mut linked = LinkedTerms::new();
    linked.insert("api");
    let config = Config::default();
    assert_eq!(
        replace_terms_to_events("API", &[&api], "g.html", &config, &mut linked),
        vec![text("API")]
    );
    let every = config.with_link_first_only(false);
    assert_eq!(
        replace_terms_to_events("API", &[&api], "g.html", &every, &mut linked),
        vec![html("<a href=\"g.html#api\" class=\"glossary-term\">API</a>")]
    );
}

#[test]
fn overlapped_term_counts_as_linked() {
    let long = Term::new("REST API");
    let short = Term::new("API");
    let mut linked = LinkedTerms::new();
    let events = replace_terms_to_events(
        "A REST API.",
        &[&long, &short],
        "g.html",
        &Config::default(),
        &mut linked,
    );
    assert_eq!(
        events,
        vec![
            text("A "),
            html("<a href=\"g.html#rest-api\" class=\"glossary-term\">REST API</a>"),
            text("."),
        ]
    );
    assert!(linked.contains("api"));
}

#[test]
fn terms_with_one_anchor_are_linked_once() {
    let one = Term::new("API");
    let other = Term::new("api");
    let mut linked = LinkedTerms::new();
    let events = replace_terms_to_events(
        "API and api",
        &[&one, &other],
        "g.html",
        &Config::default().with_case_sensitive(true),
        &mut linked,
    );
    assert_eq!(
        events,
        vec![html("<a href=\"g.html#api\" class=\"glossary-term\">API</a>"), text(" and api")]
    );
}
