//! How terms are linked.

use vstd::prelude::*;

verus! {

/// What a linked term becomes.
#[derive(Clone, Copy, Debug, PartialEq, Eq, Structural)]
pub enum DisplayMode {
    /// A link to the glossary.
    Link,
    /// The term's definition as a tooltip, without a link.
    Tooltip,
    /// A link to the glossary that also shows the definition.
    Both,
}

/// The settings of the linker.
#[derive(Clone, Copy, Debug, PartialEq, Eq, Structural)]
pub struct Config {
    link_first_only: bool,
    case_sensitive: bool,
    process_glossary: bool,
    sort_glossary: bool,
    display_mode: DisplayMode,
}

/// What a [`Config`] holds.
pub struct ConfigView {
    /// Whether a term is linked only once in a chapter.
    pub link_first_only: bool,
    /// Whether a term matches only in its own case.
    pub case_sensitive: bool,
    /// Whether terms are linked on the glossary page too.
    pub process_glossary: bool,
    /// Whether the definition lists of the glossary page are sorted.
    pub sort_glossary: bool,
    /// What a linked term becomes.
    pub display_mode: DisplayMode,
}

impl View for Config {
    type V = ConfigView;

    closed spec fn view(&self) -> ConfigView {
        ConfigView {
            link_first_only: self.link_first_only,
            case_sensitive: self.case_sensitive,
            process_glossary: self.process_glossary,
            sort_glossary: self.sort_glossary,
            display_mode: self.display_mode,
        }
    }
}

impl Default for Config {
    /// Links the first occurrence of each term, in any case, outside the glossary page.
    fn default() -> (config: Self)
        ensures
            config@ == (ConfigView {
                link_first_only: true,
                case_sensitive: false,
                process_glossary: false,
                sort_glossary: false,
                display_mode: DisplayMode::Link,
            }),
    {
        Config {
            link_first_only: true,
            case_sensitive: false,
            process_glossary: false,
            sort_glossary: false,
            display_mode: DisplayMode::Link,
        }
    }
}

impl Config {
    /// Whether a term is linked only once in a chapter.
    pub fn link_first_only(&self) -> (r: bool)
        ensures
            r == self@.link_first_only,
    {
        self.link_first_only
    }

    /// Whether a term matches only in its own case.
    pub fn case_sensitive(&self) -> (r: bool)
        ensures
            r == self@.case_sensitive,
    {
        self.case_sensitive
    }

    /// Whether terms are linked on the glossary page too.
    pub fn process_glossary(&self) -> (r: bool)
        ensures
            r == self@.process_glossary,
    {
        self.process_glossary
    }

    /// Whether the definition lists of the glossary page are sorted.
    pub fn sort_glossary(&self) -> (r: bool)
        ensures
            r == self@.sort_glossary,
    {
        self.sort_glossary
    }

    /// What a linked term becomes.
    pub fn display_mode(&self) -> (r: DisplayMode)
        ensures
            r == self@.display_mode,
    {
        self.display_mode
    }

    /// These settings with another choice of how often a term is linked.
    pub fn with_link_first_only(self, link_first_only: bool) -> (r: Config)
        ensures
            r@ == (ConfigView { link_first_only, ..self@ }),
    {
        Config { link_first_only, ..self }
    }

    /// These settings with another choice of whether case matters.
    pub fn with_case_sensitive(self, case_sensitive: bool) -> (r: Config)
        ensures
            r@ == (ConfigView { case_sensitive, ..self@ }),
    {
        Config { case_sensitive, ..self }
    }

    /// These settings with another choice of whether the glossary page is linked.
    pub fn with_process_glossary(self, process_glossary: bool) -> (r: Config)
        ensures
            r@ == (ConfigView { process_glossary, ..self@ }),
    {
        Config { process_glossary, ..self }
    }

    /// These settings with another choice of whether the glossary page is sorted.
    pub fn with_sort_glossary(self, sort_glossary: bool) -> (r: Config)
        ensures
            r@ == (ConfigView { sort_glossary, ..self@ }),
    {
        Config { sort_glossary, ..self }
    }

    /// These settings with another choice of what a linked term becomes.
    pub fn with_display_mode(self, display_mode: DisplayMode) -> (r: Config)
        ensures
            r@ == (ConfigView { display_mode, ..self@ }),
    {
        Config { display_mode, ..self }
    }
}

} // verus!
