use pulldown_cmark::Options;
use termlink::linker::{
    closes_context, context_opened_by, process_chapter, process_events, Context, LinkedTerms,
};
use termlink::markdown::{markdown_options, Event, Tag};
use termlink::{add_term_links, Config, Glossary, Term};

fn text(s: &str) -> Event {
    Event::Text(s.to_string())
}

fn link(path: &str, anchor: &str, shown: &str) -> Event {
    Event::Html(format!("<a href=\"{path}#{anchor}\" class=\"glossary-term\">{shown}</a>"))
}

fn process(events: Vec<Event>, terms: &[&Term], config: &Config, on_glossary_page: bool) -> Vec<Event> {
    let mut linked = LinkedTerms::new();
    process_events(events, terms, "g.html", config, &mut linked, on_glossary_page)
}

#[test]
fn chapters_are_read_with_these_extensions() {
    let options = Options::ENABLE_DEFINITION_LIST
        | Options::ENABLE_TABLES
        | Options::ENABLE_FOOTNOTES
        | Options::ENABLE_STRIKETHROUGH
        | Options::ENABLE_TASKLISTS
        | Options::ENABLE_GFM;
    assert_eq!(markdown_options(), options.bits());
}

#[test]
fn contexts_open_and_close() {
    let cases = [
        (Tag::CodeBlock, Context::CodeBlock),
        (Tag::Link, Context::Link),
        (Tag::Image, Context::Image),
        (Tag::Heading, Context::Heading),
    ];
    for (tag, context) in cases {
        for on_glossary_page in [false, true] {
            assert_eq!(
                context_opened_by(&Event::Start(tag, 0), on_glossary_page),
                Some(context)
            );
            assert!(closes_context(&Event::End(tag, 0), on_glossary_page));
            assert_eq!(context_opened_by(&Event::End(tag, 0), on_glossary_page), None);
            assert!(!closes_context(&Event::Start(tag, 0), on_glossary_page));
        }
    }
    let title = Event::Start(Tag::DefinitionListTitle, 0);
    assert_eq!(context_opened_by(&title, true), Some(Context::DefinitionTitle));
    assert_eq!(context_opened_by(&title, false), None);
    let title_end = Event::End(Tag::DefinitionListTitle, 0);
    assert!(closes_context(&title_end, true));
    assert!(!closes_context(&title_end, false));
    for event in [text("x"), Event::Start(Tag::Other, 0), Event::Start(Tag::DefinitionList, 0)] {
        assert_eq!(context_opened_by(&event, true), None);
        assert!(!closes_context(&event, true));
    }
}

#[test]
fn protected_events_are_unchanged() {
    let api = Term::new("API");
    for tag in [Tag::CodeBlock, Tag::Link, Tag::Image, Tag::Heading] {
        let events = vec![Event::Start(tag, 0), text("API"), Event::End(tag, 2)];
        assert_eq!(process(events.clone(), &[&api], &Config::default(), false), events);
    }
    let title = vec![
        Event::Start(Tag::DefinitionListTitle, 0),
        text("API"),
        Event::End(Tag::DefinitionListTitle, 2),
    ];
    assert_eq!(process(title.clone(), &[&api], &Config::default(), true), title);
    assert_eq!(
        process(title, &[&api], &Config::default(), false),
        vec![
            Event::Start(Tag::DefinitionListTitle, 0),
            link("g.html", "api", "API"),
            Event::End(Tag::DefinitionListTitle, 2),
        ]
    );
}

#[test]
fn nested_contexts_protect_until_the_outer_one_closes() {
    let api = Term::new("API");
    let events = vec![
        Event::Start(Tag::Heading, 0),
        Event::Start(Tag::Link, 1),
        text("API"),
        Event::End(Tag::Link, 3),
        text("API"),
        Event::End(Tag::Heading, 5),
        text("API"),
    ];
    let mut expected = events.clone();
    expected[6] = link("g.html", "api", "API");
    assert_eq!(process(events, &[&api], &Config::default(), false), expected);
}

#[test]
fn text_behind_too_many_ends_is_linked() {
    let api = Term::new("API");
    let events = vec![
        Event::End(Tag::Link, 0),
        Event::End(Tag::Link, 1),
        text("API"),
        Event::Start(Tag::Link, 3),
        text("API"),
    ];
    let mut expected = events.clone();
    expected[2] = link("g.html", "api", "API");
    assert_eq!(
        process(events, &[&api], &Config::default().with_link_first_only(false), false),
        expected
    );
}

#[test]
fn other_events_are_kept() {
    let api = Term::new("API");
    let events = vec![
        Event::Code("API".to_string()),
        Event::Other(1),
        Event::Html("API".to_string()),
        Event::Start(Tag::Other, 3),
        Event::End(Tag::Other, 4),
    ];
    assert_eq!(process(events.clone(), &[&api], &Config::default(), false), events);
}

#[test]
fn first_occurrence_only_across_events() {
    let api = Term::new("API");
    let events = vec![text("API"), Event::Other(1), text("API")];
    assert_eq!(
        process(events.clone(), &[&api], &Config::default(), false),
        vec![link("g.html", "api", "API"), Event::Other(1), text("API")]
    );
    assert_eq!(
        process(events, &[&api], &Config::default().with_link_first_only(false), false),
        vec![link("g.html", "api", "API"), Event::Other(1), link("g.html", "api", "API")]
    );
}

fn glossary_events() -> Vec<Event> {
    let mut events = vec![Event::Start(Tag::DefinitionList, 0)];
    for (at, title, body) in [(1, "REST", "See API."), (7, "API", "A contract.")] {
        events.push(Event::Start(Tag::DefinitionListTitle, at));
        events.push(text(title));
        events.push(Event::End(Tag::DefinitionListTitle, at + 2));
        events.push(Event::Start(Tag::Other, at + 3));
        events.push(text(body));
        events.push(Event::End(Tag::Other, at + 5));
    }
    events.push(Event::End(Tag::DefinitionList, 13));
    events
}

fn order_of(events: &[Event]) -> Vec<usize> {
    events
        .iter()
        .filter_map(|event| match event {
            Event::Start(Tag::DefinitionListTitle, at) => Some(*at),
            _ => None,
        })
        .collect()
}

#[test]
fn sorting_and_linking_follow_the_configuration() {
    let glossary = Glossary::from_terms(vec![Term::new("REST"), Term::new("API")]);
    let cases = [
        // Sorted, linked, on the glossary page: order, number of links.
        (false, false, true, vec![1, 7], 1),
        (false, true, true, vec![1, 7], 1),
        (true, true, true, vec![7, 1], 1),
        (true, false, true, vec![7, 1], 0),
        (true, false, false, vec![1, 7], 2),
        (true, true, false, vec![1, 7], 2),
        (false, false, false, vec![1, 7], 2),
    ];
    for (sort, process, on_page, order, links) in cases {
        let config = Config::default().with_sort_glossary(sort).with_process_glossary(process);
        let path = if on_page { "" } else { "glossary.html" };
        let out = process_chapter(glossary_events(), &glossary, path, &config);
        assert_eq!(order_of(&out), order, "{sort} {process} {on_page}");
        let html = out.iter().filter(|event| matches!(event, Event::Html(_))).count();
        assert_eq!(html, links, "{sort} {process} {on_page}");
    }
}

#[test]
fn chapter_without_terms_comes_back_as_markdown() {
    let none = Glossary::from_terms(vec![]);
    let config = Config::default();
    for content in [
        "",
        "Plain text.",
        "# Heading\n\nText with *emphasis*, **strong** and `code`.",
        "|a|b|\n|-|-|\n|1|2|",
        "A ~~struck~~ word.",
        "* [ ] open\n* [x] done",
        "Visit [the docs](docs.html) or ![an image](a.png).",
        "<div>raw</div>\n",
    ] {
        let out = add_term_links(content, &none, "glossary.html", &config).unwrap();
        assert_eq!(out.trim(), content.trim());
    }
}

#[test]
fn footnotes_come_back() {
    let glossary = Glossary::from_terms(vec![Term::new("API")]);
    let out = add_term_links(
        "Text[^1].\n\n[^1]: The API note.\n",
        &glossary,
        "g.html",
        &Config::default(),
    )
    .unwrap();
    assert!(out.contains("Text[^1]."), "{out}");
    assert!(out.contains("[^1]: The <a href=\"g.html#api\" class=\"glossary-term\">API</a> note."), "{out}");
}

#[test]
fn table_cells_are_linked() {
    let glossary = Glossary::from_terms(vec![Term::new("API")]);
    let out =
        add_term_links("|a|b|\n|-|-|\n|1|API|\n", &glossary, "g.html", &Config::default()).unwrap();
    assert!(
        out.contains("|1|<a href=\"g.html#api\" class=\"glossary-term\">API</a>|"),
        "{out}"
    );
}

#[test]
fn headings_images_and_code_are_left_alone() {
    let glossary = Glossary::from_terms(vec![Term::new("API")]);
    let content = "# The API\n\n![API](api.png) `API` [API](api.html)";
    let out = add_term_links(content, &glossary, "g.html", &Config::default()).unwrap();
    assert_eq!(out, content);
}

#[test]
fn every_occurrence_in_its_own_text_can_be_linked() {
    let glossary = Glossary::from_terms(vec![Term::new("API")]);
    let out = add_term_links(
        "An API.\n\nThe api and the API.",
        &glossary,
        "g.html",
        &Config::default().with_link_first_only(false),
    )
    .unwrap();
    assert_eq!(
        out,
        "An <a href=\"g.html#api\" class=\"glossary-term\">API</a>.\n\nThe <a href=\"g.html#api\" class=\"glossary-term\">api</a> and the API."
    );
}

#[test]
fn case_sensitive_chapters() {
    let glossary = Glossary::from_terms(vec![Term::new("API")]);
    let out = add_term_links(
        "The api and the API.",
        &glossary,
        "g.html",
        &Config::default().with_case_sensitive(true),
    )
    .unwrap();
    assert_eq!(
        out,
        "The api and the <a href=\"g.html#api\" class=\"glossary-term\">API</a>."
    );
}

#[test]
fn sorted_glossary_page_can_be_written() {
    let glossary = Glossary::from_terms(vec![Term::new("Zeta"), Term::new("Alpha")]);
    let content = "Zeta [link](z.html)\n: last, see ![i](i.png) and Alpha.\n\nAlpha\n: first.\n";
    let config = Config::default().with_sort_glossary(true).with_process_glossary(true);
    let out = add_term_links(content, &glossary, "", &config).unwrap();
    assert!(out.find("first.").unwrap() < out.find("last, see").unwrap(), "{out}");
    assert!(
        out.contains("and <a href=\"#alpha\" class=\"glossary-term\">Alpha</a>."),
        "{out}"
    );
}

#[test]
fn nested_lists_of_the_glossary_page_are_sorted() {
    let glossary = Glossary::from_terms(vec![]);
    let content = "Zeta\n: b\n    : one\n\n    a\n    : two\n\nAlpha\n: first\n";
    let config = Config::default().with_sort_glossary(true);
    let out = add_term_links(content, &glossary, "", &config).unwrap();
    let at = |part: &str| out.find(part).unwrap();
    assert!(at("Alpha") < at("first"), "{out}");
    assert!(at("first") < at("Zeta"), "{out}");
    assert!(at("Zeta") < at("two"), "{out}");
    assert!(at("two") < at("one"), "{out}");
}
