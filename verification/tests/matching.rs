use termlink::matcher::{build_term_pattern, find_term};
use termlink::render::render_term_html;
use termlink::{Config, DisplayMode, Term};

#[test]
fn pattern_of_a_plain_term() {
    let term = Term::new("REST");
    assert_eq!(build_term_pattern(&term, false), Some(r"(?i)\b(?:REST)\b".to_string()));
    assert_eq!(build_term_pattern(&term, true), Some(r"\b(?:REST)\b".to_string()));
}

#[test]
fn pattern_holds_every_form_escaped() {
    let term = Term::new("API (Application Programming Interface)")
        .with_aliases(vec!["A.P.I".to_string(), String::new(), "a|b".to_string()]);
    assert_eq!(
        build_term_pattern(&term, true),
        Some(r"\b(?:API \(Application Programming Interface\)|API|A\.P\.I|a\|b)\b".to_string())
    );
}

#[test]
fn pattern_escapes_every_meta_character() {
    let term = Term::new(r"\.+*?()|[]{}^$#&-~ a_1,:;<=>@!%/'`é");
    assert_eq!(
        build_term_pattern(&term, true),
        Some(
            r"\b(?:\\\.\+\*\?\(\)\|\[\]\{\}\^\$\#\&\-\~ a_1,:;<=>@!%/'`é)\b".to_string()
        )
    );
}

#[test]
fn term_without_a_form_is_never_found() {
    let term = Term::new("").with_aliases(vec![String::new()]);
    assert_eq!(build_term_pattern(&term, false), None);
    assert_eq!(find_term(&term, false, "anything"), None);
}

#[test]
fn first_occurrence_is_found() {
    let term = Term::new("XPT");
    assert_eq!(find_term(&term, true, "An XPT is an XPT."), Some((3, 6)));
    assert_eq!(find_term(&term, true, "nothing here"), None);
    assert_eq!(find_term(&term, true, ""), None);
}

#[test]
fn case_counts_only_if_asked_for() {
    let term = Term::new("XPT");
    assert_eq!(find_term(&term, true, "xpt XPT"), Some((4, 7)));
    assert_eq!(find_term(&term, false, "xpt XPT"), Some((0, 3)));
}

#[test]
fn only_whole_words_are_found() {
    let term = Term::new("API");
    assert_eq!(find_term(&term, false, "APIs and rapid"), None);
    assert_eq!(find_term(&term, false, "the API."), Some((4, 7)));
    assert_eq!(find_term(&term, false, "API_KEY"), None);
}

#[test]
fn longest_form_that_comes_first_is_found() {
    let term = Term::new("API (Interface)");
    // The name ends in a parenthesis, behind which no word starts: the short form matches.
    assert_eq!(find_term(&term, false, "an API (Interface) here"), Some((3, 6)));
}

#[test]
fn aliases_are_found() {
    let term = Term::new("REST").with_aliases(vec!["RESTful".to_string()]);
    assert_eq!(find_term(&term, false, "a RESTful service"), Some((2, 9)));
}

#[test]
fn offsets_count_bytes() {
    let term = Term::new("API");
    assert_eq!(find_term(&term, false, "größe API"), Some((8, 11)));
}

fn html(term: &Term, text: &str, path: &str, mode: DisplayMode) -> String {
    render_term_html(term, text, path, &Config::default().with_display_mode(mode))
}

#[test]
fn link_refers_to_the_anchor() {
    let term = Term::new("REST");
    assert_eq!(
        html(&term, "rest", "../glossary.html", DisplayMode::Link),
        r##"<a href="../glossary.html#rest" class="glossary-term">rest</a>"##
    );
}

#[test]
fn link_on_the_glossary_page_has_no_path() {
    let term = Term::new("REST");
    assert_eq!(
        html(&term, "REST", "", DisplayMode::Link),
        r##"<a href="#rest" class="glossary-term">REST</a>"##
    );
}

#[test]
fn tooltip_shows_the_definition() {
    let term = Term::with_definition("REST", Some("A style.".to_string()));
    assert_eq!(
        html(&term, "REST", "g.html", DisplayMode::Tooltip),
        r#"<span title="A style." class="glossary-term">REST</span>"#
    );
    assert_eq!(
        html(&Term::new("REST"), "REST", "g.html", DisplayMode::Tooltip),
        r#"<span class="glossary-term">REST</span>"#
    );
}

#[test]
fn both_modes_at_once() {
    let term = Term::with_definition("REST", Some("A style.".to_string()));
    assert_eq!(
        html(&term, "REST", "g.html", DisplayMode::Both),
        r#"<a href="g.html#rest" title="A style." class="glossary-term">REST</a>"#
    );
}

#[test]
fn escaped_text_is_inert() {
    let term = Term::with_definition("x", Some("<b> & \"c\" 'd'".to_string()));
    assert_eq!(
        html(&term, "a<b>", "p\"q.html", DisplayMode::Both),
        "<a href=\"p&quot;q.html#x\" title=\"&lt;b&gt; &amp; &quot;c&quot; 'd'\" class=\"glossary-term\">a&lt;b&gt;</a>"
    );
}
