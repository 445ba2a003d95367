//! Glossary terms.

use crate::text;
use vstd::prelude::*;

verus! {

/// A term of the glossary.
#[derive(Debug)]
pub struct Term {
    name: String,
    anchor: String,
    short_name: Option<String>,
    definition: Option<String>,
    aliases: Vec<String>,
}

/// What a [`Term`] holds.
pub struct TermView {
    /// The name as the glossary gives it.
    pub name: Seq<char>,
    /// The fragment by which the glossary page is linked.
    pub anchor: Seq<char>,
    /// `SHORT`, where the name is `SHORT (Long Description)`.
    pub short_name: Option<Seq<char>>,
    /// What the term means.
    pub definition: Option<Seq<char>>,
    /// Other names of the term.
    pub aliases: Seq<Seq<char>>,
}

/// What an optional text holds.
pub open spec fn optional_text(s: Option<String>) -> Option<Seq<char>> {
    match s {
        Some(s) => Some(s@),
        None => None,
    }
}

/// What each of `texts` holds.
pub open spec fn text_views(texts: Seq<String>) -> Seq<Seq<char>> {
    texts.map_values(|s: String| s@)
}

impl View for Term {
    type V = TermView;

    closed spec fn view(&self) -> TermView {
        TermView {
            name: self.name@,
            anchor: self.anchor@,
            short_name: optional_text(self.short_name),
            definition: optional_text(self.definition),
            aliases: text_views(self.aliases@),
        }
    }
}

/// What a character of a name adds to the anchor: letters, numbers, `_` and `-` stay, white space
/// becomes `-`, anything else is left out.
pub open spec fn anchor_part(c: char) -> Seq<char> {
    if text::alphanumeric(c) || c == '_' || c == '-' {
        seq![text::ascii_lowercased(c)]
    } else if text::white_space(c) {
        seq!['-']
    } else {
        seq![]
    }
}

/// The anchor of the term called `name`.
pub open spec fn anchor_of(name: Seq<char>) -> Seq<char>
    decreases name.len(),
{
    if name.len() == 0 {
        seq![]
    } else {
        anchor_of(name.drop_last()) + anchor_part(name.last())
    }
}

/// The first position from `from` on at which `name` has a space and an opening parenthesis.
pub open spec fn first_opening(name: Seq<char>, from: int) -> Option<int>
    decreases name.len() - from,
{
    if from < 0 || from + 1 >= name.len() {
        None
    } else if name[from] == ' ' && name[from + 1] == '(' {
        Some(from)
    } else {
        first_opening(name, from + 1)
    }
}

/// The first opening parenthesis that follows a space is within the name.
pub proof fn lemma_first_opening(name: Seq<char>, from: int)
    ensures
        first_opening(name, from) matches Some(at) ==> from <= at && 0 <= at < name.len() - 1,
    decreases name.len() - from,
{
    if 0 <= from && from + 1 < name.len() {
        lemma_first_opening(name, from + 1);
    }
}

/// The short form of `name`: where it ends in `)`, what stands before its first ` (`, unless that
/// is blank.
pub open spec fn short_name_of(name: Seq<char>) -> Option<Seq<char>> {
    match first_opening(name, 0) {
        Some(at) => {
            let short = text::trimmed(name.take(at));
            if name.last() == ')' && short.len() > 0 {
                Some(short)
            } else {
                None
            }
        },
        None => None,
    }
}

/// The term called `name`, with what it means and without aliases.
pub open spec fn defined_term(name: Seq<char>, definition: Option<Seq<char>>) -> TermView {
    TermView {
        name,
        anchor: anchor_of(name),
        short_name: short_name_of(name),
        definition,
        aliases: seq![],
    }
}

/// Whether the ASCII characters of `name` that count as letters or numbers are the ASCII letters and
/// digits.
pub open spec fn ascii_classified(name: Seq<char>) -> bool {
    forall|i: int|
        #![trigger name[i]]
        0 <= i < name.len() && name[i] <= '\u{7f}' ==> text::alphanumeric(name[i])
            == text::ascii_alphanumeric(name[i])
}

/// Derives the anchor of the term called `name`.
fn derive_anchor(name: &str) -> (anchor: String)
    ensures
        anchor@ == anchor_of(name@),
        ascii_classified(name@),
{
    let chars = text::chars_of(name);
    let mut anchor = String::new();
    let mut i: usize = 0;
    while i < chars.len()
        invariant
            i <= chars.len(),
            chars@ == name@,
            anchor@ == anchor_of(name@.take(i as int)),
            forall|j: int|
                #![trigger name@[j]]
                0 <= j < i && name@[j] <= '\u{7f}' ==> text::alphanumeric(name@[j])
                    == text::ascii_alphanumeric(name@[j]),
        decreases chars.len() - i,
    {
        let c = chars[i];
        proof {
            assert(name@.take(i + 1).drop_last() == name@.take(i as int));
        }
        let letter = text::is_alphanumeric(c);
        if letter || c == '_' || c == '-' {
            anchor.push(text::ascii_lowercase(c));
        } else if text::is_white_space(c) {
            anchor.push('-');
        }
        i += 1;
        assert(anchor@ == anchor_of(name@.take(i as int)));
    }
    assert(name@.take(i as int) == name@);
    anchor
}

/// Finds the short form of `name`.
fn find_short_name(name: &str) -> (r: Option<String>)
    ensures
        optional_text(r) == short_name_of(name@),
{
    let chars = text::chars_of(name);
    let mut at: usize = 0;
    while chars.len() - at > 1 && !(chars[at] == ' ' && chars[at + 1] == '(')
        invariant
            chars@ == name@,
            at <= chars.len(),
            first_opening(name@, 0) == first_opening(name@, at as int),
        decreases chars.len() - at,
    {
        at += 1;
    }
    if chars.len() - at <= 1 {
        return None;
    }
    if chars[chars.len() - 1] != ')' {
        return None;
    }
    let short = text::trim(name.substring_char(0, at));
    if short.is_empty() {
        None
    } else {
        Some(short.to_owned())
    }
}

impl Term {
    /// The term called `name`.
    pub fn new(name: &str) -> (term: Term)
        ensures
            term@ == defined_term(name@, None),
            ascii_classified(name@),
    {
        Term::with_definition(name, None)
    }

    /// The term called `name`, with what it means.
    pub fn with_definition(name: &str, definition: Option<String>) -> (term: Term)
        ensures
            term@ == defined_term(name@, optional_text(definition)),
            ascii_classified(name@),
    {
        let term = Term {
            name: name.to_owned(),
            anchor: derive_anchor(name),
            short_name: find_short_name(name),
            definition,
            aliases: Vec::new(),
        };
        assert(text_views(term.aliases@) == Seq::<Seq<char>>::empty());
        term
    }

    /// This term, with `aliases` in place of its other names.
    pub fn with_aliases(self, aliases: Vec<String>) -> (term: Term)
        ensures
            term@ == (TermView { aliases: text_views(aliases@), ..self@ }),
    {
        Term { aliases, ..self }
    }

    /// The name as the glossary gives it.
    pub fn name(&self) -> (r: &str)
        ensures
            r@ == self@.name,
    {
        self.name.as_str()
    }

    /// The fragment by which the glossary page is linked.
    pub fn anchor(&self) -> (r: &str)
        ensures
            r@ == self@.anchor,
    {
        self.anchor.as_str()
    }

    /// `SHORT`, where the name is `SHORT (Long Description)`.
    pub fn short_name(&self) -> (r: Option<&str>)
        ensures
            match r {
                Some(short) => self@.short_name == Some(short@),
                None => self@.short_name is None,
            },
    {
        match &self.short_name {
            Some(short) => Some(short.as_str()),
            None => None,
        }
    }

    /// What the term means.
    pub fn definition(&self) -> (r: Option<&str>)
        ensures
            match r {
                Some(definition) => self@.definition == Some(definition@),
                None => self@.definition is None,
            },
    {
        match &self.definition {
            Some(definition) => Some(definition.as_str()),
            None => None,
        }
    }

    /// Other names of the term.
    pub fn aliases(&self) -> (r: &Vec<String>)
        ensures
            text_views(r@) == self@.aliases,
    {
        &self.aliases
    }
}

/// The terms of a book, in the order of the glossary.
#[derive(Debug)]
pub struct Glossary {
    terms: Vec<Term>,
}

/// What each of `terms` holds.
pub open spec fn term_views(terms: Seq<&Term>) -> Seq<TermView> {
    terms.map_values(|term: &Term| term@)
}

impl View for Glossary {
    type V = Seq<TermView>;

    closed spec fn view(&self) -> Seq<TermView> {
        self.terms@.map_values(|term: Term| term@)
    }
}

impl Glossary {
    /// The glossary of `terms`.
    pub fn from_terms(terms: Vec<Term>) -> (glossary: Glossary)
        ensures
            glossary@ == terms@.map_values(|term: Term| term@),
    {
        Glossary { terms }
    }

    /// The terms, in order.
    pub fn terms(&self) -> (terms: Vec<&Term>)
        ensures
            term_views(terms@) == self@,
    {
        let mut terms: Vec<&Term> = Vec::new();
        let mut i: usize = 0;
        while i < self.terms.len()
            invariant
                i <= self.terms.len(),
                terms.len() == i,
                forall|j: int| 0 <= j < i ==> *terms@[j] == self.terms@[j],
            decreases self.terms.len() - i,
        {
            terms.push(&self.terms[i]);
            i += 1;
        }
        assert(term_views(terms@) == self@);
        terms
    }
}

/// Whether no space in `s` is followed by an opening parenthesis.
pub open spec fn no_opening(s: Seq<char>) -> bool {
    forall|i: int| 0 <= i < s.len() - 1 && #[trigger] s[i] == ' ' ==> s[i + 1] != '('
}

/// `before (description)`.
pub open spec fn described(before: Seq<char>, description: Seq<char>) -> Seq<char> {
    before + seq![' ', '('] + description + seq![')']
}

/// The first opening parenthesis behind a space is the first.
proof fn lemma_first_opening_is_first(name: Seq<char>, from: int)
    requires
        0 <= from,
    ensures
        match first_opening(name, from) {
            Some(at) => {
                &&& from <= at < name.len() - 1
                &&& name[at] == ' '
                &&& name[at + 1] == '('
                &&& forall|i: int| from <= i < at && #[trigger] name[i] == ' ' ==> name[i + 1] != '('
            },
            None => forall|i: int|
                from <= i < name.len() - 1 && #[trigger] name[i] == ' ' ==> name[i + 1] != '(',
        },
    decreases name.len() - from,
{
    if from + 1 < name.len() {
        lemma_first_opening_is_first(name, from + 1);
    }
}

/// The short form of `before (description)` is all of `before`, but for white space around it: what
/// stands before the first parenthesis behind a space.
pub proof fn law_short_form_is_what_precedes_the_description(
    before: Seq<char>,
    description: Seq<char>,
)
    requires
        no_opening(before),
        text::trimmed(before).len() > 0,
    ensures
        short_name_of(described(before, description)) == Some(text::trimmed(before)),
        text::trimmed(before) == before ==> short_name_of(described(before, description)) == Some(
            before,
        ),
{
    let name = described(before, description);
    let at = before.len() as int;
    lemma_first_opening_is_first(name, 0);
    assert(name[at] == ' ' && name[at + 1] == '(');
    assert forall|i: int| 0 <= i < at && #[trigger] name[i] == ' ' implies name[i + 1] != '(' by {
        assert(name[i] == before[i]);
        if i + 1 < at {
            assert(name[i + 1] == before[i + 1]);
        }
    }
    assert(first_opening(name, 0) == Some(at));
    assert(name.take(at) == before);
    assert(name.last() == ')');
}

/// A name that is not `before (description)`, with something before the description, has no short
/// form.
pub proof fn law_other_names_have_no_short_form(name: Seq<char>)
    requires
        forall|before: Seq<char>, description: Seq<char>|
            no_opening(before) && name == #[trigger] described(before, description)
                ==> text::trimmed(before).len() == 0,
    ensures
        short_name_of(name) is None,
{
    lemma_first_opening_is_first(name, 0);
    if let Some(at) = first_opening(name, 0) {
        if name.last() == ')' {
            let before = name.take(at);
            let description = name.subrange(at + 2, name.len() - 1);
            assert forall|i: int| 0 <= i < before.len() - 1 && #[trigger] before[i]
                == ' ' implies before[i + 1] != '(' by {
                assert(name[i] == before[i]);
            }
            assert(name == described(before, description));
        }
    }
}

/// The anchor of a name is made piece by piece.
pub proof fn law_anchors_are_made_piece_by_piece(a: Seq<char>, b: Seq<char>)
    ensures
        anchor_of(a + b) == anchor_of(a) + anchor_of(b),
    decreases b.len(),
{
    if b.len() == 0 {
        assert(a + b == a);
        assert(anchor_of(a) + anchor_of(b) == anchor_of(a));
    } else {
        law_anchors_are_made_piece_by_piece(a, b.drop_last());
        assert((a + b).drop_last() == a + b.drop_last());
        assert(anchor_of(a) + anchor_of(b) == anchor_of(a) + anchor_of(b.drop_last())
            + anchor_part(b.last()));
    }
}

/// In an anchor, letters and numbers stay, ASCII letters in lower case, as do `_` and `-`; white
/// space becomes `-`; every other character is left out.
pub proof fn law_anchor_of_a_character(c: char)
    ensures
        text::alphanumeric(c) && !('A' <= c <= 'Z') ==> anchor_of(seq![c]) == seq![c],
        text::alphanumeric(c) && 'A' <= c <= 'Z' ==> anchor_of(seq![c]) == seq![
            (c as u32 + 32) as char,
        ],
        c == '_' || c == '-' ==> anchor_of(seq![c]) == seq![c],
        !text::alphanumeric(c) && text::white_space(c) ==> anchor_of(seq![c]) == seq!['-'],
        !text::alphanumeric(c) && !text::white_space(c) && c != '_' && c != '-' ==> anchor_of(
            seq![c],
        ) == Seq::<char>::empty(),
{
    assert(anchor_of(seq![c].drop_last()) == Seq::<char>::empty());
    assert(anchor_of(seq![c]) == anchor_part(c));
}

/// A term holds the name and the meaning that it is given, and what the name alone decides.
pub proof fn law_terms_hold_what_they_are_given(
    name: Seq<char>,
    definition: Option<Seq<char>>,
    other: Option<Seq<char>>,
)
    ensures
        defined_term(name, definition).name == name,
        defined_term(name, definition).definition == definition,
        defined_term(name, definition).aliases == Seq::<Seq<char>>::empty(),
        defined_term(name, definition).anchor == anchor_of(name),
        defined_term(name, definition).short_name == short_name_of(name),
        (TermView { definition: other, ..defined_term(name, definition) }) == defined_term(
            name,
            other,
        ),
{
}

} // verus!
