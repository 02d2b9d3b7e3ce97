//! Characters and their UTF-8 widths, and the character classes of the
//! language.
use vstd::prelude::*;
use vstd::std_specs::iter::IteratorSpec;

verus! {

/// Number of bytes that `c` takes in UTF-8.
pub open spec fn char_width(c: char) -> nat {
    if (c as u32) < 0x80 {
        1
    } else if (c as u32) < 0x800 {
        2
    } else if (c as u32) < 0x10000 {
        3
    } else {
        4
    }
}

/// Number of bytes that `s` takes in UTF-8.
pub open spec fn text_width(s: Seq<char>) -> nat
    decreases s.len(),
{
    if s.len() == 0 {
        0
    } else {
        text_width(s.drop_last()) + char_width(s.last())
    }
}

/// Byte offset of the character at index `i` of `s`.
pub open spec fn byte_offset(s: Seq<char>, i: int) -> nat {
    text_width(s.subrange(0, i))
}

/// The byte width of a text agrees with the length of its UTF-8 encoding.
pub proof fn lemma_text_width_is_encoded_len(s: Seq<char>)
    ensures
        text_width(s) == vstd::utf8::encode_utf8(s).len(),
    decreases s.len(),
{
    if s.len() > 0 {
        lemma_text_width_prepend(s);
        lemma_text_width_is_encoded_len(s.drop_first());
        lemma_char_width_is_encoded_len(s[0]);
    }
}

proof fn lemma_char_width_is_encoded_len(c: char)
    ensures
        char_width(c) == vstd::utf8::encode_scalar(c as u32).len(),
{
    let v = c as u32;
    assert(vstd::utf8::is_scalar(v)) by {
        vstd::utf8::char_is_scalar(c);
    }
}

/// Width taken from the front: the first character, then the rest.
proof fn lemma_text_width_prepend(s: Seq<char>)
    requires
        s.len() > 0,
    ensures
        text_width(s) == char_width(s[0]) + text_width(s.drop_first()),
    decreases s.len(),
{
    if s.len() > 1 {
        lemma_text_width_prepend(s.drop_last());
        assert(s.drop_last().drop_first() =~= s.drop_first().drop_last());
    } else {
        assert(s.drop_last() =~= Seq::<char>::empty());
        assert(s.drop_first() =~= Seq::<char>::empty());
    }
}

/// Each further character moves the byte offset by its width.
pub proof fn lemma_byte_offset_step(s: Seq<char>, i: int)
    requires
        0 <= i < s.len(),
    ensures
        byte_offset(s, i + 1) == byte_offset(s, i) + char_width(s[i]),
{
    assert(s.subrange(0, i + 1).drop_last() =~= s.subrange(0, i));
}

/// Byte offsets grow strictly with the character index, and never pass the
/// width of the whole text.
pub proof fn lemma_byte_offset_mono(s: Seq<char>, i: int, j: int)
    requires
        0 <= i <= j <= s.len(),
    ensures
        byte_offset(s, i) + (j - i) <= byte_offset(s, j),
        byte_offset(s, j) <= text_width(s),
    decreases j - i,
{
    if i < j {
        lemma_byte_offset_mono(s, i, j - 1);
        lemma_byte_offset_step(s, j - 1);
        lemma_byte_offset_mono_to_end(s, j);
    } else {
        lemma_byte_offset_mono_to_end(s, j);
    }
}

proof fn lemma_byte_offset_mono_to_end(s: Seq<char>, j: int)
    requires
        0 <= j <= s.len(),
    ensures
        byte_offset(s, j) <= text_width(s),
    decreases s.len() - j,
{
    if j < s.len() {
        lemma_byte_offset_step(s, j);
        lemma_byte_offset_mono_to_end(s, j + 1);
    } else {
        assert(s.subrange(0, j) =~= s);
    }
}

/// Number of bytes that `c` takes in UTF-8.
pub fn utf8_width(c: char) -> (w: usize)
    ensures
        w == char_width(c),
        1 <= w <= 4,
{
    let v = c as u32;
    if v < 0x80 {
        1
    } else if v < 0x800 {
        2
    } else if v < 0x10000 {
        3
    } else {
        4
    }
}

/// `c` has the Unicode `White_Space` property.
pub open spec fn ws_char(c: char) -> bool {
    let v = c as u32;
    ||| 0x9 <= v <= 0xD
    ||| v == 0x20
    ||| v == 0x85
    ||| v == 0xA0
    ||| v == 0x1680
    ||| 0x2000 <= v <= 0x200A
    ||| v == 0x2028
    ||| v == 0x2029
    ||| v == 0x202F
    ||| v == 0x205F
    ||| v == 0x3000
}

/// True when `c` has the Unicode `White_Space` property.
pub fn is_whitespace(c: char) -> (r: bool)
    ensures
        r == ws_char(c),
{
    let v = c as u32;
    (0x9 <= v && v <= 0xD) || v == 0x20 || v == 0x85 || v == 0xA0 || v == 0x1680 || (0x2000
        <= v && v <= 0x200A) || v == 0x2028 || v == 0x2029 || v == 0x202F || v == 0x205F || v
        == 0x3000
}

/// `c` in lower case, for the letters of ASCII and of Latin-1; every other
/// character is kept. On the characters that identifiers may hold, this is
/// Unicode's lower-case mapping.
pub open spec fn fold_char(c: char) -> char {
    if 'A' <= c <= 'Z' || ('\u{C0}' <= c <= '\u{DE}' && c != '\u{D7}') {
        ((c as u32) + 32) as char
    } else {
        c
    }
}

/// `s` with each character passed through [`fold_char`].
pub open spec fn fold_text(s: Seq<char>) -> Seq<char> {
    s.map_values(|c: char| fold_char(c))
}

/// `c` in lower case, for the letters of ASCII and of Latin-1.
pub fn to_lower(c: char) -> (r: char)
    ensures
        r == fold_char(c),
{
    if ('A' <= c && c <= 'Z') || ('\u{C0}' <= c && c <= '\u{DE}' && c != '\u{D7}') {
        let b: u8 = (c as u8) + 32;
        b as char
    } else {
        c
    }
}

/// Relies on `String::push`: the character is appended at the end.
#[verifier::external_body]
pub(crate) fn push_char(s: &mut String, c: char)
    ensures
        final(s)@ == old(s)@.push(c),
{
    s.push(c)
}

/// The characters of `s`, in order.
pub fn chars_of(s: &str) -> (r: Vec<char>)
    ensures
        r@ == s@,
{
    let mut it = s.chars();
    let mut r: Vec<char> = Vec::new();
    loop
        invariant
            r@ + it.remaining() == s@,
            it.decrease() is Some,
        ensures
            r@ == s@,
        decreases it.decrease()->0,
    {
        match it.next() {
            Some(c) => {
                r.push(c);
            },
            None => {
                assert(r@ =~= r@ + it.remaining());
                break;
            },
        }
    }
    r
}

} // verus!
