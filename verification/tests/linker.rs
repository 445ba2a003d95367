use termlink::linker::{replace_terms_to_events, LinkedTerms};
use termlink::markdown::Event;
use termlink::{add_term_links, Config, DisplayMode, Glossary, Term};

fn default_config() -> Config {
    Config::default()
}

fn config_with_display_mode(mode: DisplayMode) -> Config {
    Config::default().with_display_mode(mode)
}

fn config_with_sort_glossary(sort: bool, process: bool) -> Config {
    Config::default().with_sort_glossary(sort).with_process_glossary(process)
}

fn sample_glossary() -> Glossary {
    Glossary::from_terms(vec![
        Term::with_definition(
            "API (Application Programming Interface)",
            Some("A set of protocols for building software.".to_string()),
        ),
        Term::with_definition("REST", Some("An architectural style for \"web\" APIs.".to_string()))
            .with_aliases(vec!["RESTful".to_string()]),
        Term::new("XPT"),
    ])
}

fn events_to_string(events: &[Event]) -> String {
    events
        .iter()
        .map(|e| match e {
            Event::Text(s) | Event::Html(s) => s.to_string(),
            _ => String::new(),
        })
        .collect()
}

#[test]
fn snapshot_full_chapter_link_mode() {
    let input = "\
The API is great. We also use REST for transport.

```rust
let api = ApiClient::new();
```

Inline `API` should not link. Visit [the API docs](docs.html).

> [!NOTE]
> The API handles auth, while XPT is a legacy format.
";
    let output = add_term_links(
        input,
        &sample_glossary(),
        "glossary.html",
        &config_with_display_mode(DisplayMode::Link),
    )
    .unwrap();
    assert_eq!(
        output,
        "The <a href=\"glossary.html#api-application-programming-interface\" class=\"glossary-term\">API</a> is great. We also use <a href=\"glossary.html#rest\" class=\"glossary-term\">REST</a> for transport.\n\n````rust\nlet api = ApiClient::new();\n````\n\nInline `API` should not link. Visit [the API docs](docs.html).\n\n > [!NOTE]\n > The API handles auth, while <a href=\"glossary.html#xpt\" class=\"glossary-term\">XPT</a> is a legacy format."
    );
}

#[test]
fn snapshot_full_chapter_tooltip_mode() {
    let input = "The API and REST are linked in tooltip mode.";
    let output = add_term_links(
        input,
        &sample_glossary(),
        "glossary.html",
        &config_with_display_mode(DisplayMode::Tooltip),
    )
    .unwrap();
    assert_eq!(
        output,
        "The <span title=\"A set of protocols for building software.\" class=\"glossary-term\">API</span> and <span title=\"An architectural style for &quot;web&quot; APIs.\" class=\"glossary-term\">REST</span> are linked in tooltip mode."
    );
}

#[test]
fn snapshot_full_chapter_both_mode() {
    let input = "The API and REST are linked in both mode.";
    let output = add_term_links(
        input,
        &sample_glossary(),
        "glossary.html",
        &config_with_display_mode(DisplayMode::Both),
    )
    .unwrap();
    assert_eq!(
        output,
        "The <a href=\"glossary.html#api-application-programming-interface\" title=\"A set of protocols for building software.\" class=\"glossary-term\">API</a> and <a href=\"glossary.html#rest\" title=\"An architectural style for &quot;web&quot; APIs.\" class=\"glossary-term\">REST</a> are linked in both mode."
    );
}

#[test]
fn link_first_only_links_only_the_first_occurrence() {
    let term = Term::new("XPT");
    let terms = vec![&term];
    let config = default_config();
    let mut linked = LinkedTerms::new();

    let events = replace_terms_to_events(
        "XPT is great. XPT is used.",
        &terms,
        "g.html",
        &config,
        &mut linked,
    );
    let rendered = events_to_string(&events);

    assert!(rendered.contains(r#"<a href="g.html#xpt""#));
    assert_eq!(rendered.matches("glossary-term").count(), 1);
}

#[test]
fn alias_matches_and_links_to_canonical_anchor() {
    let term = Term::new("REST").with_aliases(vec!["RESTful".to_string()]);
    let terms = vec![&term];
    let mut linked = LinkedTerms::new();

    let events = replace_terms_to_events(
        "This is a RESTful service.",
        &terms,
        "glossary.html",
        &default_config(),
        &mut linked,
    );
    let rendered = events_to_string(&events);

    assert!(rendered.contains(r#"<a href="glossary.html#rest""#));
    assert!(rendered.contains("RESTful</a>"));
}

#[test]
fn admonition_marker_is_preserved_for_every_kind() {
    let term = Term::new("API");
    let glossary = Glossary::from_terms(vec![term]);
    let config = default_config();

    for kind in ["NOTE", "TIP", "IMPORTANT", "WARNING", "CAUTION"] {
        let input = format!("> [!{kind}]\n> Use the API carefully.\n");
        let out = add_term_links(&input, &glossary, "glossary.html", &config)
            .unwrap_or_else(|e| panic!("add_term_links failed for {kind}: {e:?}"));

        assert!(out.contains(&format!("[!{kind}]")), "alert marker [!{kind}] lost in output:\n{out}");
        assert!(
            out.contains(r#"<a href="glossary.html#api""#),
            "termlink missing inside [!{kind}] body:\n{out}"
        );
    }
}

#[test]
fn term_overlapping_admonition_marker_text_does_not_corrupt_marker() {
    let glossary = Glossary::from_terms(vec![Term::new("NOTE")]);
    let out = add_term_links(
        "> [!NOTE]\n> Read this NOTE.\n",
        &glossary,
        "g.html",
        &default_config(),
    )
    .unwrap();
    assert!(out.contains("[!NOTE]"), "alert marker dropped: {out}");
}

#[test]
fn glossary_page_skips_definition_titles_but_links_body_terms() {
    // "API" appears only as a title, "REST" only in the body: the body link is emitted and the
    // title is left alone.
    let glossary = Glossary::from_terms(vec![
        Term::with_definition("API", Some("Application Programming Interface".to_string())),
        Term::new("REST"),
    ]);
    let content = "API\n: A protocol. See also REST.\n";
    let out = add_term_links(content, &glossary, "", &default_config()).unwrap();

    assert!(
        out.contains(r##"<a href="#rest""##),
        "REST in the definition body must be linked: {out}"
    );
    assert!(
        !out.contains(r##"href="#api""##),
        "API as a definition title must not self-link: {out}"
    );
}

#[test]
fn glossary_page_emits_same_page_anchor_hrefs() {
    let glossary = Glossary::from_terms(vec![Term::new("API")]);
    let out = add_term_links("Some prose mentioning the API.", &glossary, "", &default_config())
        .unwrap();

    assert!(out.contains(r##"<a href="#api""##), "expected bare same-page href, got: {out}");
    assert!(
        !out.contains("glossary.html"),
        "no file prefix should appear in same-page anchors: {out}"
    );
}

#[test]
fn glossary_page_skips_short_form_inside_title() {
    // The title row "API (Application Programming Interface)" holds the short form "API". Both
    // must be skipped.
    let glossary =
        Glossary::from_terms(vec![Term::new("API (Application Programming Interface)")]);
    let content = "API (Application Programming Interface)\n: The full definition here.\n";
    let out = add_term_links(content, &glossary, "", &default_config()).unwrap();

    assert!(!out.contains("href=\"#"), "no links should be emitted inside the title: {out}");
}

#[test]
fn non_glossary_page_still_links_definition_titles() {
    // Outside the glossary file, definition-list titles are not skipped: a chapter that happens to
    // use a definition list still gets its titles linked.
    let glossary = Glossary::from_terms(vec![Term::new("API")]);
    let content = "API\n: Some local definition.\n";
    let out = add_term_links(content, &glossary, "glossary.html", &default_config()).unwrap();

    assert!(
        out.contains(r#"<a href="glossary.html#api""#),
        "definition-list title on a non-glossary page must still link: {out}"
    );
}

#[test]
fn sort_glossary_orders_definition_list_alphabetically_on_glossary_page() {
    let glossary =
        Glossary::from_terms(vec![Term::new("Zeta"), Term::new("Alpha"), Term::new("Mu")]);
    let content = "Zeta\n: last letter-ish.\n\nAlpha\n: first.\n\nMu\n: middle.\n";
    let out =
        add_term_links(content, &glossary, "", &config_with_sort_glossary(true, false)).unwrap();

    let a = out.find("Alpha").expect("Alpha missing from output");
    let m = out.find("Mu").expect("Mu missing from output");
    let z = out.find("Zeta").expect("Zeta missing from output");
    assert!(a < m && m < z, "expected Alpha < Mu < Zeta in:\n{out}");
}

#[test]
fn sort_glossary_disabled_preserves_source_order() {
    let glossary = Glossary::from_terms(vec![Term::new("Zeta"), Term::new("Alpha")]);
    let content = "Zeta\n: last.\n\nAlpha\n: first.\n";
    let out =
        add_term_links(content, &glossary, "", &config_with_sort_glossary(false, true)).unwrap();
    assert!(
        out.find("Zeta").unwrap() < out.find("Alpha").unwrap(),
        "source order should be preserved when sort is off:\n{out}"
    );
}

#[test]
fn sort_glossary_uses_short_form_as_key() {
    // "API (Application Programming Interface)" should sort under 'A' (short form 'API'), placing
    // it before "Backend".
    let glossary = Glossary::from_terms(vec![
        Term::new("Backend"),
        Term::new("API (Application Programming Interface)"),
    ]);
    let content =
        "Backend\n: server side.\n\nAPI (Application Programming Interface)\n: a contract.\n";
    let out =
        add_term_links(content, &glossary, "", &config_with_sort_glossary(true, false)).unwrap();
    assert!(
        out.find("API").unwrap() < out.find("Backend").unwrap(),
        "API should sort before Backend on its short form:\n{out}"
    );
}

#[test]
fn sort_glossary_off_glossary_page_is_a_noop() {
    // A path that is not empty leads away from the page: nothing is sorted, even with
    // sort-glossary=true.
    let glossary = Glossary::from_terms(vec![Term::new("Zeta"), Term::new("Alpha")]);
    let content = "Zeta\n: last.\n\nAlpha\n: first.\n";
    let out = add_term_links(
        content,
        &glossary,
        "glossary.html",
        &config_with_sort_glossary(true, false),
    )
    .unwrap();
    assert!(
        out.find("Zeta").unwrap() < out.find("Alpha").unwrap(),
        "non-glossary page should not be sorted:\n{out}"
    );
}

#[test]
fn sort_only_mode_skips_term_linking_on_glossary_page() {
    // sort-glossary=true and process-glossary=false: the page is sorted but not linked.
    let glossary = Glossary::from_terms(vec![Term::new("REST"), Term::new("API")]);
    let content = "REST\n: A protocol. See also API.\n\nAPI\n: A contract.\n";
    let out =
        add_term_links(content, &glossary, "", &config_with_sort_glossary(true, false)).unwrap();
    assert!(!out.contains("<a "), "no anchor tags expected in sort-only mode:\n{out}");
    assert!(
        out.find("API").unwrap() < out.find("REST").unwrap(),
        "sort should still run in sort-only mode:\n{out}"
    );
}
