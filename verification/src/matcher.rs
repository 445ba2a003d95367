//! Finding a term in running text.

use crate::glossary;
use crate::glossary::{Term, TermView};
use crate::text;
use vstd::prelude::*;

verus! {

/// Whether `c` has a meaning of its own in a regular expression.
pub open spec fn meta_character(c: char) -> bool {
    "\\.+*?()|[]{}^$#&-~"@.contains(c)
}

/// `s` as a regular expression that matches `s`: a backslash before every character that has a
/// meaning of its own.
pub open spec fn escaped(s: Seq<char>) -> Seq<char>
    decreases s.len(),
{
    if s.len() == 0 {
        seq![]
    } else if meta_character(s.last()) {
        escaped(s.drop_last()).push('\\').push(s.last())
    } else {
        escaped(s.drop_last()).push(s.last())
    }
}

/// Calls `regex::escape`, which puts a backslash before each character that has a meaning of its
/// own in a regular expression.
#[verifier::external_body]
fn escape(s: &str) -> (r: String)
    ensures
        r@ == escaped(s@),
{
    regex::escape(s)
}

/// Where the regular expression `pattern` first matches in `text`, from and up to which byte;
/// `None` where it does not match, or where it is no regular expression.
pub uninterp spec fn leftmost_match(pattern: Seq<char>, text: Seq<char>) -> Option<(usize, usize)>;

/// Calls `regex::Regex::new` and `regex::Regex::find`. The result is a function of the pattern and
/// of the text. A match starts no later than it ends, and both between two characters.
#[verifier::external_body]
fn first_match(pattern: &str, text: &str) -> (r: Option<(usize, usize)>)
    ensures
        r == leftmost_match(pattern@, text@),
        r matches Some((start, end)) ==> {
            &&& start <= end
            &&& text::boundary(text@, start as int)
            &&& text::boundary(text@, end as int)
        },
{
    let regex = regex::Regex::new(pattern).ok()?;
    regex.find(text).map(|found| (found.start(), found.end()))
}

/// Whether a text is not empty.
pub open spec fn nonempty() -> spec_fn(Seq<char>) -> bool {
    |form: Seq<char>| form.len() > 0
}

/// The texts that stand for a term: its name, its short form and its aliases, but for empty ones.
pub open spec fn forms_of(term: TermView) -> Seq<Seq<char>> {
    let short = match term.short_name {
        Some(short) => seq![short],
        None => seq![],
    };
    (seq![term.name] + short + term.aliases).filter(nonempty())
}

/// An alternation of `forms`.
pub open spec fn alternation(forms: Seq<Seq<char>>) -> Seq<char>
    decreases forms.len(),
{
    if forms.len() == 0 {
        seq![]
    } else if forms.len() == 1 {
        escaped(forms.last())
    } else {
        alternation(forms.drop_last()) + "|"@ + escaped(forms.last())
    }
}

/// The regular expression by which a term is found: any of its forms as a whole word.
pub open spec fn term_pattern(term: TermView, case_sensitive: bool) -> Seq<char> {
    let flags = if case_sensitive {
        seq![]
    } else {
        "(?i)"@
    };
    flags + "\\b(?:"@ + alternation(forms_of(term)) + ")\\b"@
}

/// Where `term` first occurs in `text`.
pub open spec fn term_match(term: TermView, case_sensitive: bool, text: Seq<char>) -> Option<
    (usize, usize),
> {
    if forms_of(term).len() == 0 {
        None
    } else {
        leftmost_match(term_pattern(term, case_sensitive), text)
    }
}

/// What each of `forms` holds.
spec fn form_views(forms: Seq<&str>) -> Seq<Seq<char>> {
    forms.map_values(|form: &str| form@)
}

/// Adds `form` to `forms`, unless it is empty. `all` are the texts of which `forms` holds those
/// that are not.
fn add_form<'a>(forms: &mut Vec<&'a str>, form: &'a str, Ghost(all): Ghost<Seq<Seq<char>>>)
    requires
        form_views(old(forms)@) == all.filter(nonempty()),
    ensures
        form_views(final(forms)@) == all.push(form@).filter(nonempty()),
{
    broadcast use Seq::lemma_filter_push;

    if !form.is_empty() {
        assert(form_views(forms@.push(form)) == form_views(forms@).push(form@));
        forms.push(form);
    }
}

/// The texts that stand for `term`.
fn searchable_forms(term: &Term) -> (forms: Vec<&str>)
    ensures
        form_views(forms@) == forms_of(term@),
{
    let mut forms: Vec<&str> = Vec::new();
    let ghost mut all: Seq<Seq<char>> = seq![];
    assert(form_views(forms@) == all.filter(nonempty()));
    add_form(&mut forms, term.name(), Ghost(all));
    proof {
        all = all.push(term@.name);
    }
    if let Some(short) = term.short_name() {
        add_form(&mut forms, short, Ghost(all));
        proof {
            all = all.push(short@);
        }
    }
    let aliases = term.aliases();
    let ghost named = all;
    let mut i: usize = 0;
    assert(named == named + term@.aliases.take(0));
    while i < aliases.len()
        invariant
            i <= aliases.len(),
            glossary::text_views(aliases@) == term@.aliases,
            all == named + term@.aliases.take(i as int),
            form_views(forms@) == all.filter(nonempty()),
        decreases aliases.len() - i,
    {
        add_form(&mut forms, aliases[i].as_str(), Ghost(all));
        proof {
            all = all.push(aliases@[i as int]@);
            assert(glossary::text_views(aliases@)[i as int] == aliases@[i as int]@);
            assert(all == named + term@.aliases.take(i + 1));
        }
        i += 1;
    }
    proof {
        assert(term@.aliases.take(i as int) == term@.aliases);
        let short = match term@.short_name {
            Some(short) => seq![short],
            None => seq![],
        };
        assert(all == seq![term@.name] + short + term@.aliases);
    }
    forms
}

/// The regular expression by which `term` is found, if it has a form to be found by.
pub fn build_term_pattern(term: &Term, case_sensitive: bool) -> (r: Option<String>)
    ensures
        match r {
            Some(pattern) => forms_of(term@).len() > 0 && pattern@ == term_pattern(
                term@,
                case_sensitive,
            ),
            None => forms_of(term@).len() == 0,
        },
{
    let forms = searchable_forms(term);
    if forms.len() == 0 {
        assert(form_views(forms@).len() == 0);
        return None;
    }
    let mut pattern = String::new();
    if !case_sensitive {
        pattern.append("(?i)");
    }
    pattern.append("\\b(?:");
    let ghost prefix = pattern@;
    let mut i: usize = 0;
    assert(prefix == prefix + alternation(forms_of(term@).take(0)));
    while i < forms.len()
        invariant
            i <= forms.len(),
            form_views(forms@) == forms_of(term@),
            pattern@ == prefix + alternation(forms_of(term@).take(i as int)),
        decreases forms.len() - i,
    {
        if i > 0 {
            pattern.append("|");
        }
        let form = escape(forms[i]);
        pattern.append(form.as_str());
        proof {
            let more = forms_of(term@).take(i + 1);
            assert(more.drop_last() == forms_of(term@).take(i as int));
            assert(more.last() == form_views(forms@)[i as int]);
            assert(pattern@ == prefix + alternation(more));
        }
        i += 1;
    }
    assert(forms_of(term@).take(i as int) == forms_of(term@));
    pattern.append(")\\b");
    assert(pattern@ == term_pattern(term@, case_sensitive));
    Some(pattern)
}

/// Where `term` first occurs in `text`: from and up to which byte.
pub fn find_term(term: &Term, case_sensitive: bool, text: &str) -> (r: Option<(usize, usize)>)
    ensures
        r == term_match(term@, case_sensitive, text@),
        r matches Some((start, end)) ==> {
            &&& start <= end
            &&& text::boundary(text@, start as int)
            &&& text::boundary(text@, end as int)
        },
{
    match build_term_pattern(term, case_sensitive) {
        Some(pattern) => first_match(pattern.as_str(), text),
        None => None,
    }
}

/// Whether case counts depends on the setting alone: the pattern of a term is the same with and
/// without it, but for the flag in front.
pub proof fn law_setting_alone_decides_on_case(term: TermView)
    ensures
        term_pattern(term, false) == "(?i)"@ + term_pattern(term, true),
        "\\b(?:"@.is_prefix_of(term_pattern(term, true)),
        !"(?i)"@.is_prefix_of(term_pattern(term, true)),
{
    let pattern = term_pattern(term, true);
    reveal_strlit("(?i)");
    reveal_strlit("\\b(?:");
    assert(term_pattern(term, false) == "(?i)"@ + pattern);
    assert("\\b(?:"@ == pattern.subrange(0, 5));
    assert(pattern[0] == '\\');
    if "(?i)"@.is_prefix_of(pattern) {
        assert("(?i)"@[0] == pattern.subrange(0, 4)[0]);
    }
}

/// A pattern matches whole words: it is the alternation of the forms between two word boundaries.
pub proof fn law_patterns_match_whole_words(term: TermView)
    ensures
        term_pattern(term, true) == "\\b(?:"@ + alternation(forms_of(term)) + ")\\b"@,
{
    assert(Seq::<char>::empty() + "\\b(?:"@ == "\\b(?:"@);
}

/// An alternation of one form is the form, escaped; one of more forms is made of alternations of
/// some and of the others.
pub proof fn law_alternations_are_made_of_alternations(a: Seq<Seq<char>>, b: Seq<Seq<char>>)
    ensures
        a.len() == 1 ==> alternation(a) == escaped(a[0]),
        a.len() > 0 && b.len() > 0 ==> alternation(a + b) == alternation(a) + "|"@ + alternation(b),
    decreases b.len(),
{
    if a.len() > 0 && b.len() > 0 {
        let rest = b.drop_last();
        assert((a + b).drop_last() == a + rest);
        if rest.len() == 0 {
            assert(a + rest == a);
        } else {
            law_alternations_are_made_of_alternations(a, rest);
            assert(alternation(a) + "|"@ + alternation(b) == alternation(a) + "|"@ + alternation(
                rest,
            ) + "|"@ + escaped(b.last()));
        }
    }
}

/// A term is found by its name, its short form and its aliases, by each that is not empty and by
/// nothing else.
pub proof fn law_terms_are_found_by_their_forms(term: TermView, form: Seq<char>)
    ensures
        forms_of(term).contains(form) <==> form.len() > 0 && (form == term.name || term.short_name
            == Some(form) || term.aliases.contains(form)),
{
    let short = match term.short_name {
        Some(short) => seq![short],
        None => seq![],
    };
    let all = seq![term.name] + short + term.aliases;
    let n = 1 + short.len() as int;
    if forms_of(term).contains(form) {
        let i = choose|i: int| 0 <= i < forms_of(term).len() && forms_of(term)[i] == form;
        all.lemma_filter_pred(nonempty(), i);
        all.lemma_filter_contains_rev(nonempty(), form);
        let j = choose|j: int| 0 <= j < all.len() && all[j] == form;
        if j >= n {
            assert(term.aliases[j - n] == form);
        } else if j == 1 {
            assert(short[0] == form);
        }
    }
    if form.len() > 0 {
        if form == term.name {
            assert(all[0] == form);
            all.lemma_filter_contains(nonempty(), 0);
        }
        if term.short_name == Some(form) {
            assert(all[1] == form);
            all.lemma_filter_contains(nonempty(), 1);
        }
        if term.aliases.contains(form) {
            let j = choose|j: int| 0 <= j < term.aliases.len() && term.aliases[j] == form;
            assert(all[j + n] == form);
            all.lemma_filter_contains(nonempty(), j + n);
        }
    }
}

/// The name is looked for before the short form, and that before the aliases.
pub proof fn law_forms_stand_in_order(term: TermView)
    requires
        term.name.len() > 0,
        term.short_name matches Some(short) ==> short.len() > 0,
        forall|i: int| 0 <= i < term.aliases.len() ==> (#[trigger] term.aliases[i]).len() > 0,
    ensures
        term.short_name is None ==> forms_of(term) == seq![term.name] + term.aliases,
        term.short_name matches Some(short) ==> forms_of(term) == seq![term.name, short]
            + term.aliases,
{
    let none: Seq<Seq<char>> = seq![];
    let front = match term.short_name {
        Some(short) => seq![term.name, short],
        None => seq![term.name],
    };
    let all = front + term.aliases;
    assert forall|i: int| 0 <= i < all.len() implies nonempty()(#[trigger] all[i]) by {
        if i >= front.len() {
            assert(all[i] == term.aliases[i - front.len()]);
        }
    }
    lemma_nothing_left_out(all);
    match term.short_name {
        Some(short) => {
            assert(seq![term.name] + seq![short] + term.aliases == all);
        },
        None => {
            assert(seq![term.name] + none + term.aliases == all);
        },
    }
}

/// Where no text is empty, none is left out.
proof fn lemma_nothing_left_out(forms: Seq<Seq<char>>)
    requires
        forall|i: int| 0 <= i < forms.len() ==> nonempty()(#[trigger] forms[i]),
    ensures
        forms.filter(nonempty()) == forms,
    decreases forms.len(),
{
    broadcast use Seq::lemma_filter_push;

    if forms.len() > 0 {
        let rest = forms.drop_last();
        assert forall|i: int| 0 <= i < rest.len() implies nonempty()(#[trigger] rest[i]) by {
            assert(rest[i] == forms[i]);
        }
        lemma_nothing_left_out(rest);
        assert(nonempty()(forms[forms.len() - 1]));
        assert(rest.push(forms.last()) == forms);
    } else {
        assert(forms.filter(nonempty()) == forms);
    }
}

/// Every term with a form is looked for, wherever its pattern matches first; which term it is
/// otherwise makes no difference.
pub proof fn law_every_term_with_a_form_is_looked_for(
    term: TermView,
    other: TermView,
    case_sensitive: bool,
    text: Seq<char>,
    form: Seq<char>,
)
    ensures
        forms_of(term).contains(form) ==> term_match(term, case_sensitive, text) == leftmost_match(
            term_pattern(term, case_sensitive),
            text,
        ),
        forms_of(term).len() == 0 ==> term_match(term, case_sensitive, text) is None,
        forms_of(term) == forms_of(other) ==> term_match(term, case_sensitive, text) == term_match(
            other,
            case_sensitive,
            text,
        ),
{
}

} // verus!
