use termlink::{Config, DisplayMode, Glossary, Term};

#[test]
fn anchors_are_lower_case_fragments() {
    assert_eq!(Term::new("REST").anchor(), "rest");
    assert_eq!(
        Term::new("API (Application Programming Interface)").anchor(),
        "api-application-programming-interface"
    );
    assert_eq!(Term::new("snake_case name-X").anchor(), "snake_case-name-x");
    assert_eq!(Term::new("C++").anchor(), "c");
    assert_eq!(Term::new("Größe 2").anchor(), "größe-2");
    assert_eq!(Term::new("").anchor(), "");
}

#[test]
fn short_names_stand_before_a_description() {
    let short = |name: &str| Term::new(name).short_name().map(str::to_string);
    assert_eq!(short("API (Application Programming Interface)"), Some("API".to_string()));
    assert_eq!(short("A (b) (c)"), Some("A".to_string()));
    assert_eq!(short("Two Words (long)"), Some("Two Words".to_string()));
    assert_eq!(short("ÄÖ (Umlaute)"), Some("ÄÖ".to_string()));
    assert_eq!(short("API"), None);
    assert_eq!(short("API(x)"), None);
    assert_eq!(short("API (x) y"), None);
    assert_eq!(short(" (x)"), None);
    assert_eq!(short("   (x)"), None);
    assert_eq!(short("(x)"), None);
    assert_eq!(short(""), None);
}

#[test]
fn terms_hold_what_they_are_given() {
    let term = Term::with_definition("REST", Some("A style.".to_string()))
        .with_aliases(vec!["RESTful".to_string(), "ReST".to_string()]);
    assert_eq!(term.name(), "REST");
    assert_eq!(term.definition(), Some("A style."));
    assert_eq!(term.aliases(), &vec!["RESTful".to_string(), "ReST".to_string()]);
    assert_eq!(term.anchor(), "rest");

    let bare = Term::new("REST");
    assert_eq!(bare.definition(), None);
    assert!(bare.aliases().is_empty());
}

#[test]
fn aliases_replace_earlier_ones() {
    let term = Term::new("REST")
        .with_aliases(vec!["a".to_string()])
        .with_aliases(vec!["b".to_string()]);
    assert_eq!(term.aliases(), &vec!["b".to_string()]);
}

#[test]
fn glossary_keeps_the_order_of_its_terms() {
    let glossary = Glossary::from_terms(vec![Term::new("Zeta"), Term::new("Alpha")]);
    let names: Vec<&str> = glossary.terms().iter().map(|term| term.name()).collect();
    assert_eq!(names, vec!["Zeta", "Alpha"]);
    assert!(Glossary::from_terms(vec![]).terms().is_empty());
}

#[test]
fn default_config_links_first_occurrences() {
    let config = Config::default();
    assert!(config.link_first_only());
    assert!(!config.case_sensitive());
    assert!(!config.process_glossary());
    assert!(!config.sort_glossary());
    assert_eq!(config.display_mode(), DisplayMode::Link);
}

#[test]
fn config_builders_set_one_value_each() {
    let config = Config::default()
        .with_link_first_only(false)
        .with_case_sensitive(true)
        .with_process_glossary(true)
        .with_sort_glossary(true)
        .with_display_mode(DisplayMode::Both);
    assert!(!config.link_first_only());
    assert!(config.case_sensitive());
    assert!(config.process_glossary());
    assert!(config.sort_glossary());
    assert_eq!(config.display_mode(), DisplayMode::Both);

    let one = Config::default().with_sort_glossary(true);
    assert!(one.sort_glossary());
    assert!(!one.process_glossary());
    assert!(one.link_first_only());
}
