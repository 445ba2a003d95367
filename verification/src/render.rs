//! The HTML that a linked term becomes.

use crate::config::{Config, ConfigView, DisplayMode};
use crate::glossary::{Term, TermView};
use crate::text;
use vstd::prelude::*;

verus! {

/// How a character is written in HTML text and in quoted attribute values.
pub open spec fn html_part(c: char) -> Seq<char> {
    if c == '&' {
        "&amp;"@
    } else if c == '<' {
        "&lt;"@
    } else if c == '>' {
        "&gt;"@
    } else if c == '"' {
        "&quot;"@
    } else {
        seq![c]
    }
}

/// How `s` is written in HTML text and in quoted attribute values.
pub open spec fn html_escaped(s: Seq<char>) -> Seq<char>
    decreases s.len(),
{
    if s.len() == 0 {
        seq![]
    } else {
        html_escaped(s.drop_last()) + html_part(s.last())
    }
}

/// The attribute that refers to a term: its anchor, on the glossary page or, where the path is
/// empty, on the page itself.
pub open spec fn href_attribute(glossary_path: Seq<char>, anchor: Seq<char>) -> Seq<char> {
    " href=\""@ + html_escaped(glossary_path) + "#"@ + html_escaped(anchor) + "\""@
}

/// The attribute that shows what a term means, if the glossary says so.
pub open spec fn title_attribute(definition: Option<Seq<char>>) -> Seq<char> {
    match definition {
        Some(definition) => " title=\""@ + html_escaped(definition) + "\""@,
        None => seq![],
    }
}

/// The HTML that `matched_text` becomes where it stands for `term`.
pub open spec fn term_html(
    term: TermView,
    matched_text: Seq<char>,
    glossary_path: Seq<char>,
    config: ConfigView,
) -> Seq<char> {
    let href = href_attribute(glossary_path, term.anchor);
    let title = title_attribute(term.definition);
    let shown = " class=\"glossary-term\">"@ + html_escaped(matched_text);
    match config.display_mode {
        DisplayMode::Link => "<a"@ + href + shown + "</a>"@,
        DisplayMode::Tooltip => "<span"@ + title + shown + "</span>"@,
        DisplayMode::Both => "<a"@ + href + title + shown + "</a>"@,
    }
}

/// Escaped text cannot end an attribute or open a tag: it holds no angle bracket and no quotation
/// mark.
pub proof fn law_escaped_text_is_inert(s: Seq<char>)
    ensures
        forall|i: int|
            #![trigger html_escaped(s)[i]]
            0 <= i < html_escaped(s).len() ==> html_escaped(s)[i] != '<' && html_escaped(s)[i]
                != '>' && html_escaped(s)[i] != '"',
    decreases s.len(),
{
    if s.len() > 0 {
        law_escaped_text_is_inert(s.drop_last());
        reveal_strlit("&amp;");
        reveal_strlit("&lt;");
        reveal_strlit("&gt;");
        reveal_strlit("&quot;");
        let before = html_escaped(s.drop_last());
        let part = html_part(s.last());
        assert forall|i: int|
            #![trigger html_escaped(s)[i]]
            0 <= i < html_escaped(s).len() implies html_escaped(s)[i] != '<' && html_escaped(s)[i]
            != '>' && html_escaped(s)[i] != '"' by {
            if i < before.len() {
                assert(html_escaped(s)[i] == before[i]);
            } else {
                assert(html_escaped(s)[i] == part[i - before.len()]);
            }
        }
    }
}

/// Text without a character that HTML gives a meaning to is written as it is.
pub proof fn law_plain_text_is_written_as_it_is(s: Seq<char>)
    requires
        forall|i: int|
            #![trigger s[i]]
            0 <= i < s.len() ==> s[i] != '&' && s[i] != '<' && s[i] != '>' && s[i] != '"',
    ensures
        html_escaped(s) == s,
    decreases s.len(),
{
    if s.len() > 0 {
        law_plain_text_is_written_as_it_is(s.drop_last());
        assert(s.last() == s[s.len() - 1]);
    }
}

/// On the glossary page, to which the empty path leads, links lead to anchors on the same page.
pub proof fn law_glossary_page_links_to_itself(anchor: Seq<char>)
    ensures
        href_attribute(seq![], anchor) == " href=\"#"@ + html_escaped(anchor) + "\""@,
{
    reveal_strlit(" href=\"#");
    reveal_strlit(" href=\"");
    reveal_strlit("#");
    assert(" href=\""@ + html_escaped(seq![]) + "#"@ == " href=\"#"@);
}

/// Appends `s` to `out` as it is written in HTML.
fn append_escaped(out: &mut String, s: &str)
    ensures
        final(out)@ == old(out)@ + html_escaped(s@),
{
    let chars = text::chars_of(s);
    let mut i: usize = 0;
    assert(html_escaped(s@.take(0)) == Seq::<char>::empty());
    while i < chars.len()
        invariant
            i <= chars.len(),
            chars@ == s@,
            out@ == old(out)@ + html_escaped(s@.take(i as int)),
        decreases chars.len() - i,
    {
        let c = chars[i];
        let ghost before = out@;
        if c == '&' {
            out.append("&amp;");
        } else if c == '<' {
            out.append("&lt;");
        } else if c == '>' {
            out.append("&gt;");
        } else if c == '"' {
            out.append("&quot;");
        } else {
            out.push(c);
        }
        proof {
            assert(out@ == before + html_part(c));
            assert(s@.take(i + 1).drop_last() == s@.take(i as int));
        }
        i += 1;
    }
    assert(s@.take(i as int) == s@);
}

/// Appends the attribute that refers to a term.
fn append_href(out: &mut String, glossary_path: &str, anchor: &str)
    ensures
        final(out)@ == old(out)@ + href_attribute(glossary_path@, anchor@),
{
    out.append(" href=\"");
    append_escaped(out, glossary_path);
    out.append("#");
    append_escaped(out, anchor);
    out.append("\"");
    assert(out@ == old(out)@ + href_attribute(glossary_path@, anchor@));
}

/// Appends the attribute that shows what `term` means.
fn append_title(out: &mut String, term: &Term)
    ensures
        final(out)@ == old(out)@ + title_attribute(term@.definition),
{
    if let Some(definition) = term.definition() {
        out.append(" title=\"");
        append_escaped(out, definition);
        out.append("\"");
    }
    assert(out@ == old(out)@ + title_attribute(term@.definition));
}

/// The HTML that `matched_text` becomes where it stands for `term`.
pub fn render_term_html(
    term: &Term,
    matched_text: &str,
    glossary_path: &str,
    config: &Config,
) -> (html: String)
    ensures
        html@ == term_html(term@, matched_text@, glossary_path@, config@),
{
    let mut html = String::new();
    match config.display_mode() {
        DisplayMode::Link => {
            html.append("<a");
            append_href(&mut html, glossary_path, term.anchor());
            html.append(" class=\"glossary-term\">");
            append_escaped(&mut html, matched_text);
            html.append("</a>");
        },
        DisplayMode::Tooltip => {
            html.append("<span");
            append_title(&mut html, term);
            html.append(" class=\"glossary-term\">");
            append_escaped(&mut html, matched_text);
            html.append("</span>");
        },
        DisplayMode::Both => {
            html.append("<a");
            append_href(&mut html, glossary_path, term.anchor());
            append_title(&mut html, term);
            html.append(" class=\"glossary-term\">");
            append_escaped(&mut html, matched_text);
            html.append("</a>");
        },
    }
    assert(html@ == term_html(term@, matched_text@, glossary_path@, config@));
    html
}

/// HTML is escaped piece by piece.
pub proof fn law_text_is_escaped_piece_by_piece(a: Seq<char>, b: Seq<char>)
    ensures
        html_escaped(a + b) == html_escaped(a) + html_escaped(b),
    decreases b.len(),
{
    if b.len() == 0 {
        assert(a + b == a);
        assert(html_escaped(a) + html_escaped(b) == html_escaped(a));
    } else {
        law_text_is_escaped_piece_by_piece(a, b.drop_last());
        assert((a + b).drop_last() == a + b.drop_last());
        assert(html_escaped(a) + html_escaped(b) == html_escaped(a) + html_escaped(b.drop_last())
            + html_part(b.last()));
    }
}

/// Each character that HTML gives a meaning to is written as its own entity.
pub proof fn law_special_characters_become_entities(c: char)
    ensures
        c == '&' ==> html_escaped(seq![c]) == seq!['&', 'a', 'm', 'p', ';'],
        c == '<' ==> html_escaped(seq![c]) == seq!['&', 'l', 't', ';'],
        c == '>' ==> html_escaped(seq![c]) == seq!['&', 'g', 't', ';'],
        c == '"' ==> html_escaped(seq![c]) == seq!['&', 'q', 'u', 'o', 't', ';'],
{
    reveal_strlit("&amp;");
    reveal_strlit("&lt;");
    reveal_strlit("&gt;");
    reveal_strlit("&quot;");
    assert(html_escaped(seq![c].drop_last()) == Seq::<char>::empty());
    assert(html_escaped(seq![c]) == html_part(c));
}

/// The HTML shows the chapter's own words: whatever was matched stands, escaped, between one opening
/// tag and one closing tag that do not depend on it. Take the tags away, and the chapter reads the
/// same.
pub proof fn law_html_shows_the_matched_text(
    term: TermView,
    glossary_path: Seq<char>,
    config: ConfigView,
) -> (at: int)
    ensures
        ({
            let tags = term_html(term, seq![], glossary_path, config);
            &&& 0 < at < tags.len()
            &&& tags[0] == '<'
            &&& tags[at - 1] == '>'
            &&& tags[at] == '<'
            &&& tags.last() == '>'
            &&& forall|k: int| at < k < tags.len() - 1 ==> tags[k] != '<' && tags[k] != '>'
            &&& forall|matched_text: Seq<char>| #[trigger]
                term_html(term, matched_text, glossary_path, config) == tags.take(at)
                    + html_escaped(matched_text) + tags.skip(at)
        }),
{
    let none: Seq<char> = seq![];
    let href = href_attribute(glossary_path, term.anchor);
    let title = title_attribute(term.definition);
    let class = " class=\"glossary-term\">"@;
    let open = match config.display_mode {
        DisplayMode::Link => "<a"@ + href + class,
        DisplayMode::Tooltip => "<span"@ + title + class,
        DisplayMode::Both => "<a"@ + href + title + class,
    };
    let close = match config.display_mode {
        DisplayMode::Tooltip => "</span>"@,
        _ => "</a>"@,
    };
    let tags = term_html(term, none, glossary_path, config);
    reveal_strlit("<a");
    reveal_strlit("<span");
    reveal_strlit("</a>");
    reveal_strlit("</span>");
    reveal_strlit(" class=\"glossary-term\">");
    assert forall|matched_text: Seq<char>| #[trigger]
        term_html(term, matched_text, glossary_path, config) == open + html_escaped(matched_text)
            + close by {
        let shown = class + html_escaped(matched_text);
        match config.display_mode {
            DisplayMode::Link => {
                assert("<a"@ + href + shown + "</a>"@ == open + html_escaped(matched_text) + close);
            },
            DisplayMode::Tooltip => {
                assert("<span"@ + title + shown + "</span>"@ == open + html_escaped(matched_text)
                    + close);
            },
            DisplayMode::Both => {
                assert("<a"@ + href + title + shown + "</a>"@ == open + html_escaped(matched_text)
                    + close);
            },
        }
    }
    let at = open.len() as int;
    assert(html_escaped(none) == none);
    assert(tags == open + none + close);
    assert(tags.take(at) == open);
    assert(tags.skip(at) == close);
    assert(open[at - 1] == class.last());
    at
}

/// A link refers to the anchor of the term, behind the path to the glossary; a tooltip refers to
/// nothing.
pub proof fn law_links_refer_to_the_anchor(
    term: TermView,
    other: TermView,
    matched_text: Seq<char>,
    glossary_path: Seq<char>,
    other_path: Seq<char>,
    config: ConfigView,
)
    ensures
        config.display_mode != DisplayMode::Tooltip ==> ("<a href=\""@ + html_escaped(glossary_path)
            + "#"@ + html_escaped(term.anchor) + "\""@).is_prefix_of(
            term_html(term, matched_text, glossary_path, config),
        ),
        config.display_mode == DisplayMode::Tooltip && term.definition == other.definition
            ==> term_html(term, matched_text, glossary_path, config) == term_html(
            other,
            matched_text,
            other_path,
            config,
        ),
        term.definition == other.definition && term.anchor == other.anchor ==> term_html(
            term,
            matched_text,
            glossary_path,
            config,
        ) == term_html(other, matched_text, glossary_path, config),
{
    if config.display_mode != DisplayMode::Tooltip {
        reveal_strlit("<a href=\"");
        reveal_strlit("<a");
        reveal_strlit(" href=\"");
        let html = term_html(term, matched_text, glossary_path, config);
        let start = "<a href=\""@ + html_escaped(glossary_path) + "#"@ + html_escaped(term.anchor)
            + "\""@;
        assert("<a href=\""@ == "<a"@ + " href=\""@);
        assert(start == "<a"@ + href_attribute(glossary_path, term.anchor));
        assert(start == html.subrange(0, start.len() as int));
    }
}

/// The meaning of a term is shown in tooltips, alone or with a link, and only there; a term without
/// one is linked the same with or without tooltips.
pub proof fn law_tooltips_show_the_meaning(
    term: TermView,
    matched_text: Seq<char>,
    glossary_path: Seq<char>,
    config: ConfigView,
    definition: Seq<char>,
    other: Option<Seq<char>>,
)
    ensures
        config.display_mode == DisplayMode::Link ==> term_html(
            term,
            matched_text,
            glossary_path,
            config,
        ) == term_html(
            (TermView { definition: other, ..term }),
            matched_text,
            glossary_path,
            config,
        ),
        config.display_mode == DisplayMode::Tooltip && term.definition == Some(definition)
            ==> term_html(term, matched_text, glossary_path, config) == "<span title=\""@
            + html_escaped(definition) + "\" class=\"glossary-term\">"@ + html_escaped(matched_text)
            + "</span>"@,
        config.display_mode == DisplayMode::Tooltip && term.definition is None ==> term_html(
            term,
            matched_text,
            glossary_path,
            config,
        ) == "<span class=\"glossary-term\">"@ + html_escaped(matched_text) + "</span>"@,
        config.display_mode == DisplayMode::Both && term.definition == Some(definition)
            ==> term_html(term, matched_text, glossary_path, config) == "<a href=\""@
            + html_escaped(glossary_path) + "#"@ + html_escaped(term.anchor) + "\" title=\""@
            + html_escaped(definition) + "\" class=\"glossary-term\">"@ + html_escaped(matched_text)
            + "</a>"@,
        config.display_mode == DisplayMode::Link || (config.display_mode == DisplayMode::Both
            && term.definition is None) ==> term_html(term, matched_text, glossary_path, config)
            == "<a href=\""@ + html_escaped(glossary_path) + "#"@ + html_escaped(term.anchor)
            + "\" class=\"glossary-term\">"@ + html_escaped(matched_text) + "</a>"@,
{
    let shown = html_escaped(matched_text);
    let href = href_attribute(glossary_path, term.anchor);
    let to = html_escaped(glossary_path) + "#"@ + html_escaped(term.anchor);
    let meaning = html_escaped(definition);
    let class = " class=\"glossary-term\">"@;
    reveal_strlit("<a href=\"");
    reveal_strlit("<a");
    reveal_strlit(" href=\"");
    reveal_strlit("<span title=\"");
    reveal_strlit("<span");
    reveal_strlit("<span class=\"glossary-term\">");
    reveal_strlit(" title=\"");
    reveal_strlit("\" title=\"");
    reveal_strlit("\" class=\"glossary-term\">");
    reveal_strlit(" class=\"glossary-term\">");
    reveal_strlit("\"");
    assert("\" class=\"glossary-term\">"@ == "\""@ + class);
    assert("\" title=\""@ == "\""@ + " title=\""@);
    assert("<span title=\""@ == "<span"@ + " title=\""@);
    assert("<span class=\"glossary-term\">"@ == "<span"@ + class);
    assert("<a href=\""@ == "<a"@ + " href=\""@);
    assert("<a"@ + href == "<a href=\""@ + to + "\""@);
    match config.display_mode {
        DisplayMode::Link => {
            assert("<a"@ + href + (class + shown) + "</a>"@ == "<a href=\""@ + to + (
            "\""@ + class) + shown + "</a>"@);
            assert("<a href=\""@ + to == "<a href=\""@ + html_escaped(glossary_path) + "#"@
                + html_escaped(term.anchor));
        },
        DisplayMode::Tooltip => {
            if term.definition == Some(definition) {
                assert("<span"@ + (" title=\""@ + meaning + "\""@) + (class + shown) + "</span>"@ == (
                "<span"@ + " title=\""@) + meaning + ("\""@ + class) + shown + "</span>"@);
            }
            if term.definition is None {
                assert("<span"@ + Seq::<char>::empty() + (class + shown) + "</span>"@ == ("<span"@
                    + class) + shown + "</span>"@);
            }
        },
        DisplayMode::Both => {
            assert("<a href=\""@ + to == "<a href=\""@ + html_escaped(glossary_path) + "#"@
                + html_escaped(term.anchor));
            if term.definition == Some(definition) {
                assert("<a"@ + href + (" title=\""@ + meaning + "\""@) + (class + shown) + "</a>"@
                    == "<a href=\""@ + to + ("\""@ + " title=\""@) + meaning + ("\""@ + class)
                    + shown + "</a>"@);
            }
            if term.definition is None {
                assert("<a"@ + href + Seq::<char>::empty() + (class + shown) + "</a>"@
                    == "<a href=\""@ + to + ("\""@ + class) + shown + "</a>"@);
            }
        },
    }
}

} // verus!
