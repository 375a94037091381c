//! Telling text from raw bytes: a UTF-8 reader that works one scalar at a time.

use vstd::prelude::*;
use vstd::slice::slice_subrange;
use vstd::utf8::*;

verus! {

/// `char::from_u32` of the standard library: the `char` with the given number, which exists
/// exactly when the number is a Unicode scalar value. Not proved here.
#[verifier::external_body]
fn char_from_u32(v: u32) -> (c: Option<char>)
    ensures
        c == if is_scalar(v) {
            Some(v as char)
        } else {
            None::<char>
        },
{
    char::from_u32(v)
}

/// `String::push` of the standard library: appends one `char` to the end of the string.
/// Not proved here.
#[verifier::external_body]
pub(crate) fn push_char(text: &mut String, c: char)
    ensures
        final(text)@ == old(text)@.push(c),
{
    text.push(c)
}

proof fn lemma_codepoint_bounds(b0: u8, b1: u8, b2: u8)
    by (bit_vector)
    ensures
        (b0 & 0x7F) as u32 <= 0x7f,
        (((b0 & 0x1F) as u32) << 6) | ((b1 & 0x3f) as u32) <= 0x7ff,
        (((b0 & 0x0F) as u32) << 12) | (((b1 & 0x3f) as u32) << 6) | ((b2 & 0x3f) as u32)
            <= 0xffff,
{
}

proof fn lemma_ascii_scalar(b: u8)
    by (bit_vector)
    requires
        b <= 0x7f,
    ensures
        (b & 0x7F) as u32 <= 0x7f,
{
}

/// Bytes below 128 are valid UTF-8, each one a scalar of its own.
pub proof fn lemma_ascii_valid_utf8(s: Seq<u8>)
    requires
        forall|i: int| 0 <= i < s.len() ==> #[trigger] s[i] <= 0x7f,
    ensures
        valid_utf8(s),
    decreases s.len(),
{
    if s.len() > 0 {
        lemma_ascii_scalar(s[0]);
        let rest = pop_first_scalar(s);
        assert(rest =~= s.subrange(1, s.len() as int));
        assert forall|i: int| 0 <= i < rest.len() implies #[trigger] rest[i] <= 0x7f by {
            assert(rest[i] == s[i + 1]);
        }
        lemma_ascii_valid_utf8(rest);
    }
}

/// Takes the first UTF-8 scalar off `input`: the `char` and what follows it. `None` when
/// `input` is empty or does not start with a well-formed scalar: a malformed lead or
/// continuation byte, an overlong form, a surrogate, a number above `0x10FFFF`, or an end of
/// input inside the scalar.
pub fn next_char(input: &[u8]) -> (next: Option<(char, &[u8])>)
    ensures
        next is Some <==> valid_first_scalar(input@),
        next matches Some((c, rest)) ==> c == decode_first_scalar(input@) as char && rest@
            == pop_first_scalar(input@) && rest@.len() < input@.len(),
{
    let n: usize = input.len();
    if n == 0 {
        return None;
    }
    let b0: u8 = input[0];
    let b1: u8 = if n > 1 { input[1] } else { 0 };
    let b2: u8 = if n > 2 { input[2] } else { 0 };
    let b3: u8 = if n > 3 { input[3] } else { 0 };
    proof {
        lemma_codepoint_bounds(b0, b1, b2);
    }
    let width: usize;
    let codepoint: u32;
    if b0 <= 0x7f {
        width = 1;
        codepoint = (b0 & 0x7F) as u32;
    } else if 0xc0 <= b0 && b0 <= 0xdf {
        if n < 2 || b1 < 0x80 || b1 > 0xbf {
            return None;
        }
        width = 2;
        codepoint = (((b0 & 0x1F) as u32) << 6) | ((b1 & 0x3f) as u32);
        if codepoint < 0x80 {
            return None;
        }
    } else if 0xe0 <= b0 && b0 <= 0xef {
        if n < 3 || b1 < 0x80 || b1 > 0xbf || b2 < 0x80 || b2 > 0xbf {
            return None;
        }
        width = 3;
        codepoint = (((b0 & 0x0F) as u32) << 12) | (((b1 & 0x3f) as u32) << 6) | ((b2
            & 0x3f) as u32);
        if codepoint < 0x800 || (0xD800 <= codepoint && codepoint <= 0xDFFF) {
            return None;
        }
    } else if 0xf0 <= b0 && b0 <= 0xf7 {
        if n < 4 || b1 < 0x80 || b1 > 0xbf || b2 < 0x80 || b2 > 0xbf || b3 < 0x80 || b3 > 0xbf {
            return None;
        }
        width = 4;
        codepoint = (((b0 & 0x07) as u32) << 18) | (((b1 & 0x3f) as u32) << 12) | (((b2
            & 0x3f) as u32) << 6) | ((b3 & 0x3f) as u32);
        if codepoint < 0x10000 || codepoint > 0x10ffff {
            return None;
        }
    } else {
        return None;
    }
    assert(codepoint == decode_first_codepoint(input@));
    assert(width == length_of_first_codepoint(input@));
    assert(valid_first_scalar(input@));
    assert(is_scalar(codepoint));
    match char_from_u32(codepoint) {
        Some(c) => Some((c, slice_subrange(input, width, n))),
        None => None,
    }
}

/// Reads `payload` as text. `Some` exactly when all of `payload` is valid UTF-8.
pub fn decode_text(payload: &[u8]) -> (text: Option<String>)
    ensures
        text is Some <==> valid_utf8(payload@),
        text matches Some(s) ==> s@ == decode_utf8(payload@),
{
    let mut text = String::new();
    let mut rest: &[u8] = payload;
    while rest.len() > 0
        invariant
            valid_utf8(payload@) == valid_utf8(rest@),
            valid_utf8(rest@) ==> decode_utf8(payload@) == text@ + decode_utf8(rest@),
        decreases rest@.len(),
    {
        match next_char(rest) {
            None => {
                return None;
            },
            Some((c, tail)) => {
                proof {
                    if valid_utf8(tail@) {
                        assert(decode_utf8(rest@) == seq![c] + decode_utf8(tail@));
                        assert(text@.push(c) + decode_utf8(tail@) =~= text@ + decode_utf8(rest@));
                    }
                }
                push_char(&mut text, c);
                rest = tail;
            },
        }
    }
    assert(decode_utf8(rest@) =~= Seq::<char>::empty());
    assert(text@ + decode_utf8(rest@) =~= text@);
    Some(text)
}

/// Whether `bytes` is valid UTF-8.
pub fn is_utf8(bytes: &[u8]) -> (valid: bool)
    ensures
        valid == valid_utf8(bytes@),
{
    let mut rest: &[u8] = bytes;
    while rest.len() > 0
        invariant
            valid_utf8(bytes@) == valid_utf8(rest@),
        decreases rest@.len(),
    {
        match next_char(rest) {
            None => {
                return false;
            },
            Some((_, tail)) => {
                rest = tail;
            },
        }
    }
    true
}

} // verus!
