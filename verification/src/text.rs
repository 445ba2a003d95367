//! Characters and strings: white space, case, byte slices and alphabetical order.

use vstd::prelude::*;
use vstd::string::*;
use vstd::utf8::*;

verus! {

/// `String::push` appends one character.
pub assume_specification[ String::push ](s: &mut String, c: char)
    ensures
        final(s)@ == old(s)@.push(c),
;

/// The characters of Unicode's `White_Space` property.
pub open spec fn white_space(c: char) -> bool {
    ||| '\u{9}' <= c <= '\u{d}'
    ||| c == ' '
    ||| c == '\u{85}'
    ||| c == '\u{a0}'
    ||| c == '\u{1680}'
    ||| '\u{2000}' <= c <= '\u{200a}'
    ||| c == '\u{2028}'
    ||| c == '\u{2029}'
    ||| c == '\u{202f}'
    ||| c == '\u{205f}'
    ||| c == '\u{3000}'
}

/// Whether `c` has Unicode's `White_Space` property.
pub fn is_white_space(c: char) -> (r: bool)
    ensures
        r == white_space(c),
{
    ('\u{9}' <= c && c <= '\u{d}') || c == ' ' || c == '\u{85}' || c == '\u{a0}' || c == '\u{1680}'
        || ('\u{2000}' <= c && c <= '\u{200a}') || c == '\u{2028}' || c == '\u{2029}' || c
        == '\u{202f}' || c == '\u{205f}' || c == '\u{3000}'
}

/// The characters of `s`, in order.
pub fn chars_of(s: &str) -> (chars: Vec<char>)
    ensures
        chars@ == s@,
{
    let mut chars: Vec<char> = Vec::new();
    for c in it: s.chars()
        invariant
            chars@ == it.seq().take(it.index() as int),
            it.seq() == s@,
    {
        chars.push(c);
    }
    chars
}

/// `s` without its leading white space.
pub open spec fn trimmed_start(s: Seq<char>) -> Seq<char>
    decreases s.len(),
{
    if s.len() > 0 && white_space(s.first()) {
        trimmed_start(s.drop_first())
    } else {
        s
    }
}

/// `s` without its trailing white space.
pub open spec fn trimmed_end(s: Seq<char>) -> Seq<char>
    decreases s.len(),
{
    if s.len() > 0 && white_space(s.last()) {
        trimmed_end(s.drop_last())
    } else {
        s
    }
}

/// `s` without its leading and trailing white space.
pub open spec fn trimmed(s: Seq<char>) -> Seq<char> {
    trimmed_end(trimmed_start(s))
}

/// What is left of an ASCII text without its leading and trailing white space is ASCII.
pub proof fn lemma_trimmed_ascii(s: Seq<char>)
    requires
        is_ascii_chars(s),
    ensures
        is_ascii_chars(trimmed(s)),
    decreases s.len(),
{
    if s.len() > 0 && white_space(s.first()) {
        lemma_trimmed_ascii(s.drop_first());
    } else {
        lemma_trimmed_end_ascii(s);
    }
}

/// What is left of an ASCII text without its trailing white space is ASCII.
proof fn lemma_trimmed_end_ascii(s: Seq<char>)
    requires
        is_ascii_chars(s),
    ensures
        is_ascii_chars(trimmed_end(s)),
    decreases s.len(),
{
    if s.len() > 0 && white_space(s.last()) {
        lemma_trimmed_end_ascii(s.drop_last());
    }
}

/// Removes leading and trailing white space.
pub fn trim(s: &str) -> (r: &str)
    ensures
        r@ == trimmed(s@),
{
    let chars = chars_of(s);
    let mut from: usize = 0;
    assert(s@.skip(0) == s@);
    while from < chars.len() && is_white_space(chars[from])
        invariant
            from <= chars.len(),
            chars@ == s@,
            trimmed_start(s@) == trimmed_start(s@.skip(from as int)),
        decreases chars.len() - from,
    {
        assert(s@.skip(from as int).drop_first() == s@.skip(from + 1));
        from += 1;
    }
    assert(trimmed_start(s@) == s@.skip(from as int));
    let mut to: usize = chars.len();
    assert(s@.skip(from as int) == s@.subrange(from as int, to as int));
    while to > from && is_white_space(chars[to - 1])
        invariant
            from <= to <= chars.len(),
            chars@ == s@,
            trimmed(s@) == trimmed_end(s@.subrange(from as int, to as int)),
        decreases to,
    {
        assert(s@.subrange(from as int, to as int).drop_last() == s@.subrange(
            from as int,
            to - 1,
        ));
        to -= 1;
    }
    s.substring_char(from, to)
}

/// `s` in lower case, mapped as a whole, as Unicode maps it.
pub uninterp spec fn lowercased(s: Seq<char>) -> Seq<char>;

/// The lower case of an ASCII letter; every other character is its own.
pub open spec fn ascii_lowercased(c: char) -> char {
    if 'A' <= c <= 'Z' {
        (c as u32 + 32) as char
    } else {
        c
    }
}

/// The lower case of an ASCII letter; every other character is its own.
pub fn ascii_lowercase(c: char) -> (r: char)
    ensures
        r == ascii_lowercased(c),
{
    if 'A' <= c && c <= 'Z' {
        (c as u8 + 32) as char
    } else {
        c
    }
}

/// Calls `str::to_lowercase`. The result is a function of the text; on ASCII text it replaces each
/// capital letter and keeps every other character.
#[verifier::external_body]
pub(crate) fn to_lowercase(s: &str) -> (r: String)
    ensures
        r@ == lowercased(s@),
        is_ascii_chars(s@) ==> r@ == s@.map_values(|c: char| ascii_lowercased(c)),
{
    s.to_lowercase()
}

/// Whether `c` is a letter or a number, as Unicode classifies it.
pub uninterp spec fn alphanumeric(c: char) -> bool;

/// Whether `c` is an ASCII digit or letter.
pub open spec fn ascii_alphanumeric(c: char) -> bool {
    '0' <= c <= '9' || 'a' <= c <= 'z' || 'A' <= c <= 'Z'
}

/// Calls `char::is_alphanumeric`. The result is a function of the character; the ASCII characters
/// it holds of are the digits and the letters.
#[verifier::external_body]
pub(crate) fn is_alphanumeric(c: char) -> (r: bool)
    ensures
        r == alphanumeric(c),
        c <= '\u{7f}' ==> r == ascii_alphanumeric(c),
{
    c.is_alphanumeric()
}

/// Whether byte offset `at` of `text` lies between two characters, or at either end.
pub open spec fn boundary(text: Seq<char>, at: int) -> bool {
    0 <= at <= encode_utf8(text).len() && is_char_boundary(encode_utf8(text), at)
}

/// The part of `text` from byte offset `from` up to byte offset `to`.
pub open spec fn byte_slice(text: Seq<char>, from: int, to: int) -> Seq<char> {
    decode_utf8(encode_utf8(text).subrange(from, to))
}

/// A boundary of `text` is a boundary of the part that ends at a later boundary.
proof fn lemma_boundary_of_prefix(bytes: Seq<u8>, from: int, to: int)
    requires
        valid_utf8(bytes),
        0 <= from <= to <= bytes.len(),
        is_char_boundary(bytes, from),
        is_char_boundary(bytes, to),
    ensures
        valid_utf8(bytes.subrange(0, to)),
        is_char_boundary(bytes.subrange(0, to), from),
{
    let head = bytes.subrange(0, to);
    valid_utf8_split(bytes, to);
    if from < to {
        is_char_boundary_iff_not_is_continuation_byte(bytes, from);
        is_char_boundary_iff_not_is_continuation_byte(head, from);
        assert(head[from] == bytes[from]);
    } else {
        is_char_boundary_start_end_of_seq(head);
    }
}

/// The part of `text` from byte offset `from` up to byte offset `to`.
pub fn slice_bytes(text: &str, from: usize, to: usize) -> (r: &str)
    requires
        from <= to,
        boundary(text@, from as int),
        boundary(text@, to as int),
    ensures
        r@ == byte_slice(text@, from as int, to as int),
{
    proof {
        encode_utf8_valid_utf8(text@);
        lemma_boundary_of_prefix(encode_utf8(text@), from as int, to as int);
    }
    let (head, _) = text.split_at(to);
    let (_, part) = head.split_at(from);
    proof {
        assert(part.spec_bytes() == encode_utf8(text@).subrange(from as int, to as int));
        encode_utf8_decode_utf8(part@);
    }
    part
}

/// The length of `text` in bytes.
pub fn byte_len(text: &str) -> (n: usize)
    ensures
        n == encode_utf8(text@).len(),
{
    text.as_bytes().len()
}

/// The whole of a text is the slice from its start to its end.
pub proof fn lemma_byte_slice_whole(text: Seq<char>)
    ensures
        byte_slice(text, 0, encode_utf8(text).len() as int) == text,
        boundary(text, 0),
        boundary(text, encode_utf8(text).len() as int),
{
    let bytes = encode_utf8(text);
    encode_utf8_valid_utf8(text);
    encode_utf8_decode_utf8(text);
    is_char_boundary_start_end_of_seq(bytes);
    assert(bytes.subrange(0, bytes.len() as int) == bytes);
}

/// A slice that ends where it starts is empty.
pub proof fn lemma_byte_slice_empty(text: Seq<char>, at: int)
    requires
        boundary(text, at),
    ensures
        byte_slice(text, at, at) == Seq::<char>::empty(),
{
    assert(encode_utf8(text).subrange(at, at) == Seq::<u8>::empty());
}

/// Two adjacent slices make up the slice that spans both.
pub proof fn lemma_byte_slice_split(text: Seq<char>, from: int, mid: int, to: int)
    requires
        from <= mid <= to,
        boundary(text, from),
        boundary(text, mid),
        boundary(text, to),
    ensures
        byte_slice(text, from, to) == byte_slice(text, from, mid) + byte_slice(text, mid, to),
{
    let bytes = encode_utf8(text);
    encode_utf8_valid_utf8(text);
    lemma_boundary_of_prefix(bytes, from, to);
    lemma_boundary_of_prefix(bytes, mid, to);
    let head = bytes.subrange(0, to);
    valid_utf8_split(head, from);
    let span = head.subrange(from, to);
    assert(span == bytes.subrange(from, to));
    if mid < to {
        is_char_boundary_iff_not_is_continuation_byte(head, mid);
        is_char_boundary_iff_not_is_continuation_byte(span, mid - from);
        assert(span[mid - from] == head[mid]);
    } else {
        is_char_boundary_start_end_of_seq(span);
    }
    decode_utf8_split(span, mid - from);
    assert(span.subrange(0, mid - from) == bytes.subrange(from, mid));
    assert(span.subrange(mid - from, span.len() as int) == bytes.subrange(mid, to));
}

/// The alphabetical order of texts: the first character in which they differ decides, by its
/// code point, and a text stands before its continuations.
pub open spec fn alphabetical(a: Seq<char>, b: Seq<char>) -> bool
    decreases a.len(),
{
    if a.len() == 0 {
        true
    } else if b.len() == 0 {
        false
    } else if a.first() == b.first() {
        alphabetical(a.drop_first(), b.drop_first())
    } else {
        a.first() < b.first()
    }
}

/// Whether `a` stands no later than `b` in alphabetical order.
pub fn is_alphabetical(a: &str, b: &str) -> (r: bool)
    ensures
        r == alphabetical(a@, b@),
{
    let left = chars_of(a);
    let right = chars_of(b);
    let mut i: usize = 0;
    assert(a@.skip(0) == a@);
    assert(b@.skip(0) == b@);
    while i < left.len() && i < right.len() && left[i] == right[i]
        invariant
            left@ == a@,
            right@ == b@,
            i <= left.len(),
            i <= right.len(),
            alphabetical(a@, b@) == alphabetical(a@.skip(i as int), b@.skip(i as int)),
        decreases left.len() - i,
    {
        assert(a@.skip(i as int).drop_first() == a@.skip(i + 1));
        assert(b@.skip(i as int).drop_first() == b@.skip(i + 1));
        i += 1;
    }
    if i == left.len() {
        true
    } else if i == right.len() {
        false
    } else {
        left[i] < right[i]
    }
}

/// Trimming takes white space off both ends, all of it, and nothing else.
pub proof fn law_trimming_takes_white_space_off_the_ends(s: Seq<char>)
    ensures
        exists|from: int, to: int|
            #![trigger s.subrange(from, to)]
            0 <= from <= to <= s.len() && trimmed(s) == s.subrange(from, to) && (forall|k: int|
                0 <= k < from || to <= k < s.len() ==> white_space(#[trigger] s[k])),
        trimmed(s).len() > 0 ==> !white_space(trimmed(s).first()) && !white_space(
            trimmed(s).last(),
        ),
{
    let from = lemma_trimmed_start(s);
    let rest = s.subrange(from, s.len() as int);
    let to = from + lemma_trimmed_end(rest);
    assert(trimmed(s) == s.subrange(from, to));
    assert forall|k: int| 0 <= k < from || to <= k < s.len() implies white_space(
        #[trigger] s[k],
    ) by {
        if to <= k {
            assert(rest[k - from] == s[k]);
        }
    }
}

/// What is left without leading white space.
proof fn lemma_trimmed_start(s: Seq<char>) -> (from: int)
    ensures
        0 <= from <= s.len(),
        trimmed_start(s) == s.subrange(from, s.len() as int),
        forall|k: int| 0 <= k < from ==> white_space(#[trigger] s[k]),
        from < s.len() ==> !white_space(s[from]),
    decreases s.len(),
{
    if s.len() > 0 && white_space(s.first()) {
        let rest = s.drop_first();
        let from = lemma_trimmed_start(rest);
        assert(rest.subrange(from, rest.len() as int) == s.subrange(from + 1, s.len() as int));
        assert forall|k: int| 0 <= k < from + 1 implies white_space(#[trigger] s[k]) by {
            if k > 0 {
                assert(rest[k - 1] == s[k]);
            }
        }
        assert(from < rest.len() ==> rest[from] == s[from + 1]);
        from + 1
    } else {
        assert(s == s.subrange(0, s.len() as int));
        0
    }
}

/// What is left without trailing white space.
proof fn lemma_trimmed_end(s: Seq<char>) -> (to: int)
    ensures
        0 <= to <= s.len(),
        trimmed_end(s) == s.subrange(0, to),
        forall|k: int| to <= k < s.len() ==> white_space(#[trigger] s[k]),
        to > 0 ==> !white_space(s[to - 1]),
        s.len() > 0 && !white_space(s[0]) ==> to > 0,
    decreases s.len(),
{
    if s.len() > 0 && white_space(s.last()) {
        let rest = s.drop_last();
        let to = lemma_trimmed_end(rest);
        assert(rest.subrange(0, to) == s.subrange(0, to));
        assert forall|k: int| to <= k < s.len() implies white_space(#[trigger] s[k]) by {
            if k < rest.len() {
                assert(rest[k] == s[k]);
            }
        }
        to
    } else {
        assert(s == s.subrange(0, s.len() as int));
        s.len() as int
    }
}

/// The first character in which two texts differ decides which stands first.
pub proof fn law_first_difference_decides(a: Seq<char>, b: Seq<char>, at: int)
    requires
        0 <= at < a.len(),
        at < b.len(),
        a.take(at) == b.take(at),
        a[at] < b[at],
    ensures
        alphabetical(a, b),
        !alphabetical(b, a),
    decreases at,
{
    if at > 0 {
        let x = a.drop_first();
        let y = b.drop_first();
        assert(a.take(at)[0] == a[0] && b.take(at)[0] == b[0]);
        assert(a.first() == b.first());
        assert(x.take(at - 1) == a.take(at).drop_first());
        assert(y.take(at - 1) == b.take(at).drop_first());
        law_first_difference_decides(x, y, at - 1);
    }
}

/// A text stands before its continuations.
pub proof fn law_text_stands_before_its_continuations(a: Seq<char>, more: Seq<char>)
    ensures
        alphabetical(a, a + more),
        more.len() > 0 ==> !alphabetical(a + more, a),
    decreases a.len(),
{
    if a.len() > 0 {
        law_text_stands_before_its_continuations(a.drop_first(), more);
        assert((a + more).drop_first() == a.drop_first() + more);
    }
}

/// A slice of a text has the bytes of the text from where it starts to where it ends.
pub proof fn law_slices_hold_the_bytes_between_their_ends(text: Seq<char>, from: int, to: int)
    requires
        from <= to,
        boundary(text, from),
        boundary(text, to),
    ensures
        encode_utf8(byte_slice(text, from, to)) == encode_utf8(text).subrange(from, to),
{
    let bytes = encode_utf8(text);
    encode_utf8_valid_utf8(text);
    lemma_boundary_of_prefix(bytes, from, to);
    let head = bytes.subrange(0, to);
    valid_utf8_split(head, from);
    assert(head.subrange(from, to) == bytes.subrange(from, to));
    decode_utf8_encode_utf8(bytes.subrange(from, to));
}

} // verus!
