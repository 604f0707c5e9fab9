//! Positions in UTF-8 text.

use vstd::prelude::*;

verus! {

/// The number of bytes of a character.
pub open spec fn utf8_len(c: char) -> int {
    if c as u32 <= 0x7f {
        1
    } else if c as u32 <= 0x7ff {
        2
    } else if c as u32 <= 0xffff {
        3
    } else {
        4
    }
}

/// The byte offset of a character of a text.
pub open spec fn offset_of(text: Seq<char>, index: int) -> int
    decreases index,
{
    if index <= 0 {
        0
    } else {
        offset_of(text, index - 1) + utf8_len(text[index - 1])
    }
}

/// The length of a text in bytes can be counted.
pub open spec fn fits(text: Seq<char>) -> bool {
    offset_of(text, text.len() as int) <= usize::MAX
}

/// The number of bytes of a character.
pub fn char_len(c: char) -> (r: usize)
    ensures
        r == utf8_len(c),
{
    let code = c as u32;
    if code <= 0x7f {
        1
    } else if code <= 0x7ff {
        2
    } else if code <= 0xffff {
        3
    } else {
        4
    }
}

/// Later characters have larger offsets.
pub proof fn lemma_offset_monotone(text: Seq<char>, a: int, b: int)
    requires
        a <= b,
    ensures
        0 <= offset_of(text, a) <= offset_of(text, b),
        0 <= a < b ==> offset_of(text, a) < offset_of(text, b),
    decreases b,
{
    if b <= 0 {
    } else if a == b {
        lemma_offset_monotone(text, a - 1, b - 1);
    } else {
        lemma_offset_monotone(text, a, b - 1);
    }
}

pub proof fn lemma_offset_prefix(a: Seq<char>, b: Seq<char>, index: int)
    requires
        index <= a.len() <= b.len(),
        forall|i: int| 0 <= i < index ==> a[i] == b[i],
    ensures
        offset_of(a, index) == offset_of(b, index),
    decreases index,
{
    if index > 0 {
        lemma_offset_prefix(a, b, index - 1);
    }
}

/// The offset after the last character is the length of the encoded text.
pub proof fn lemma_offset_is_byte_len(text: Seq<char>)
    ensures
        vstd::utf8::encode_utf8(text).len() == offset_of(text, text.len() as int),
    decreases text.len(),
{
    if text.len() > 0 {
        let rest = text.drop_first();
        lemma_offset_is_byte_len(rest);
        lemma_offset_shift(text, text.len() as int);
        let first = vstd::utf8::encode_scalar(text[0] as u32);
        vstd::utf8::char_is_scalar(text[0]);
        assert(first.len() == utf8_len(text[0]));
        assert(vstd::utf8::encode_utf8(text) == first + vstd::utf8::encode_utf8(rest));
    }
}

proof fn lemma_offset_shift(text: Seq<char>, index: int)
    requires
        0 < index <= text.len(),
    ensures
        offset_of(text, index) == utf8_len(text[0]) + offset_of(text.drop_first(), index - 1),
    decreases index,
{
    if index > 1 {
        lemma_offset_shift(text, index - 1);
        assert(text.drop_first()[index - 2] == text[index - 1]);
    } else {
        reveal_with_fuel(offset_of, 2);
    }
}

} // verus!
