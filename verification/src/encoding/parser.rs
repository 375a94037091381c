//! The recursive-descent reader: each function takes a value off the front of its input and
//! hands back what is left.

use vstd::prelude::*;
use vstd::slice::{slice_subrange, slice_to_vec};
use vstd::utf8::*;
use crate::decimal::{
    is_digit, parse_canonical_int, parse_length, read_canonical_int, read_length, MINUS, NINE,
    ZERO,
};
use crate::encoding::errors::BencodingError;
use crate::encoding::grammar::{
    decode, decode_dict, decode_entries, decode_integer, decode_items, decode_list,
    decode_string, find_byte, split_at_first, COLON, DICT_LEAD, END, INTEGER_LEAD, LIST_LEAD,
};
use crate::encoding::model::{Fault, Value};
use crate::encoding::text::{decode_text, is_utf8, lemma_ascii_valid_utf8};
use crate::encoding::types::{items_view, lemma_list_view, BTypes, DictInner};

verus! {

/// `result` is what the grammar says of the input: the same value and rest, or the same
/// failure.
pub open spec fn reads_as(
    result: Result<(BTypes, &[u8]), BencodingError>,
    expected: Result<(Value, Seq<u8>), Fault>,
) -> bool {
    match expected {
        Ok((value, rest)) => result matches Ok((v, r)) && v@ == value && r@ == rest,
        Err(fault) => result matches Err(e) && e@ == fault,
    }
}

/// What is left after a value is shorter than what the value was read from.
pub open spec fn shrinks(result: Result<(BTypes, &[u8]), BencodingError>, text: Seq<u8>) -> bool {
    result matches Ok((_, r)) ==> r@.len() < text.len()
}

/// Seeks the first byte equal to `target` and splits the input around it.
pub fn split_on_delimiter(input: &[u8], target: u8) -> (result: Result<
    (&[u8], &[u8]),
    BencodingError,
>)
    ensures
        match split_at_first(input@, target) {
            Ok((left, right)) => result matches Ok((l, r)) && l@ == left && r@ == right,
            Err(fault) => result matches Err(e) && e@ == fault,
        },
        result matches Ok((l, r)) ==> l@.len() + 1 + r@.len() == input@.len(),
{
    let mut index: usize = 0;
    while index < input.len()
        invariant
            index <= input@.len(),
            find_byte(input@, target, 0) == find_byte(input@, target, index as int),
        decreases input@.len() - index,
    {
        if input[index] == target {
            let left = slice_subrange(input, 0, index);
            let right = slice_subrange(input, index + 1, input.len());
            return Ok((left, right));
        }
        index += 1;
    }
    Err(BencodingError::CharacterNotFound(target as char))
}

/// Whether the input starts with `leader`; an empty input is out of bounds.
pub fn check_leader(input: &[u8], leader: u8) -> (result: Result<bool, BencodingError>)
    ensures
        input@.len() == 0 ==> (result matches Err(e) && e@ == Fault::OutOfBounds),
        input@.len() > 0 ==> result == Ok::<bool, BencodingError>(input@[0] == leader),
{
    if input.len() == 0 {
        return Err(BencodingError::OutOfBounds);
    }
    Ok(input[0] == leader)
}

/// The failure for an input with no first byte; it carries the input.
fn missing_input(text: &[u8]) -> (error: BencodingError)
    ensures
        error@ == Fault::MissingInputType(text@),
{
    BencodingError::MissingInputType(slice_to_vec(text))
}

proof fn lemma_digit_span_is_utf8(span: Seq<u8>)
    requires
        parse_length(span, usize::MAX as int) is Some || parse_canonical_int(
            span,
            isize::MIN as int,
            isize::MAX as int,
        ) is Some,
    ensures
        valid_utf8(span),
{
    assert forall|i: int| 0 <= i < span.len() implies #[trigger] span[i] <= 0x7f by {
        if parse_length(span, usize::MAX as int) is Some {
            assert(is_digit(span[i]));
        } else if i == 0 && span[0] == MINUS {
        } else if span[0] == MINUS {
            assert(is_digit(span.drop_first()[i - 1]));
        } else {
            assert(is_digit(span[i]));
        }
    }
    lemma_ascii_valid_utf8(span);
}

/// Reads an integer: `i`, the canonical decimal text, `e`.
pub fn parse_integer(text: &[u8]) -> (result: Result<(BTypes, &[u8]), BencodingError>)
    ensures
        reads_as(result, decode_integer(text@)),
        shrinks(result, text@),
{
    if text.len() == 0 {
        return Err(missing_input(text));
    }
    let body = slice_subrange(text, 1, text.len());
    assert(body@ =~= text@.drop_first());
    let (span, rest) = match split_on_delimiter(body, END) {
        Ok(parts) => parts,
        Err(e) => {
            return Err(e);
        },
    };
    match read_canonical_int(span) {
        Some(n) => {
            proof {
                lemma_digit_span_is_utf8(span@);
            }
            Ok((BTypes::Integer(n), rest))
        },
        None => {
            if is_utf8(span) {
                Err(BencodingError::ParseIntFailure)
            } else {
                Err(BencodingError::CouldNotParseUTF8)
            }
        },
    }
}

/// Reads a string: its length, `:`, and that many bytes, which become text when they are
/// valid UTF-8 and stay raw bytes otherwise.
pub fn parse_string(text: &[u8]) -> (result: Result<(BTypes, &[u8]), BencodingError>)
    ensures
        reads_as(result, decode_string(text@)),
        shrinks(result, text@),
{
    let (span, rest) = match split_on_delimiter(text, COLON) {
        Ok(parts) => parts,
        Err(e) => {
            return Err(e);
        },
    };
    let length: usize = match read_length(span) {
        Some(n) => {
            proof {
                lemma_digit_span_is_utf8(span@);
            }
            n
        },
        None => {
            if is_utf8(span) {
                return Err(BencodingError::ParseIntFailure);
            } else {
                return Err(BencodingError::CouldNotParseUTF8);
            }
        },
    };
    if length > rest.len() {
        return Err(BencodingError::OutOfBounds);
    }
    let payload = slice_subrange(rest, 0, length);
    let tail = slice_subrange(rest, length, rest.len());
    match decode_text(payload) {
        Some(s) => Ok((BTypes::TextString(s), tail)),
        None => Ok((BTypes::ByteString(slice_to_vec(payload)), tail)),
    }
}

/// Reads one value, dispatching on its first byte.
pub fn bdecode(text: &[u8]) -> (result: Result<(BTypes, &[u8]), BencodingError>)
    ensures
        reads_as(result, decode(text@)),
        shrinks(result, text@),
    decreases text@.len(), 1nat,
{
    if text.len() == 0 {
        return Err(missing_input(text));
    }
    let lead: u8 = text[0];
    if lead == INTEGER_LEAD {
        parse_integer(text)
    } else if ZERO <= lead && lead <= NINE {
        parse_string(text)
    } else if lead == LIST_LEAD {
        parse_list(text)
    } else if lead == DICT_LEAD {
        parse_dictionary(text)
    } else {
        Err(BencodingError::InvalidType(lead as char))
    }
}

/// Reads a list: `l`, its items one after the other, `e`.
#[verifier::loop_isolation(false)]
pub fn parse_list(text: &[u8]) -> (result: Result<(BTypes, &[u8]), BencodingError>)
    ensures
        reads_as(result, decode_list(text@)),
        shrinks(result, text@),
    decreases text@.len(), 0nat,
{
    if text.len() == 0 {
        return Err(missing_input(text));
    }
    let mut remainder = slice_subrange(text, 1, text.len());
    let mut values: Vec<BTypes> = Vec::new();
    assert(remainder@ =~= text@.drop_first());
    assert(items_view(values@) =~= Seq::<Value>::empty());
    loop
        invariant
            remainder@.len() < text@.len(),
            decode_items(text@.drop_first(), Seq::empty()) == decode_items(
                remainder@,
                items_view(values@),
            ),
        decreases remainder@.len(),
    {
        match check_leader(remainder, END) {
            Err(e) => {
                return Err(e);
            },
            Ok(true) => {
                let rest = slice_subrange(remainder, 1, remainder.len());
                assert(rest@ =~= remainder@.drop_first());
                proof {
                    lemma_list_view(values);
                }
                return Ok((BTypes::List(values), rest));
            },
            Ok(false) => {},
        }
        match bdecode(remainder) {
            Err(e) => {
                return Err(e);
            },
            Ok((value, rest)) => {
                assert(items_view(values@.push(value)) =~= items_view(values@).push(value@));
                values.push(value);
                remainder = rest;
            },
        }
    }
}

/// Reads a dictionary: `d`, keys each followed by its value, `e`. A key must be text, and
/// one that is not fails before its value is read; a key that comes again replaces the
/// earlier entry.
#[verifier::loop_isolation(false)]
pub fn parse_dictionary(text: &[u8]) -> (result: Result<(BTypes, &[u8]), BencodingError>)
    ensures
        reads_as(result, decode_dict(text@)),
        shrinks(result, text@),
    decreases text@.len(), 0nat,
{
    if text.len() == 0 {
        return Err(missing_input(text));
    }
    let mut remainder = slice_subrange(text, 1, text.len());
    let mut map = DictInner::new();
    assert(remainder@ =~= text@.drop_first());
    loop
        invariant
            remainder@.len() < text@.len(),
            decode_entries(text@.drop_first(), Seq::empty()) == decode_entries(remainder@, map@),
        decreases remainder@.len(),
    {
        match check_leader(remainder, END) {
            Err(e) => {
                return Err(e);
            },
            Ok(true) => {
                let rest = slice_subrange(remainder, 1, remainder.len());
                assert(rest@ =~= remainder@.drop_first());
                return Ok((BTypes::Dict(map), rest));
            },
            Ok(false) => {},
        }
        let (key, key_remainder) = match bdecode(remainder) {
            Err(e) => {
                return Err(e);
            },
            Ok((BTypes::TextString(k), rest)) => (k, rest),
            Ok((other, _)) => {
                return Err(BencodingError::InvalidBType(other));
            },
        };
        let (value, value_remainder) = match bdecode(key_remainder) {
            Err(e) => {
                return Err(e);
            },
            Ok(pair) => pair,
        };
        map.insert(key, value);
        remainder = value_remainder;
    }
}

impl BTypes {
    /// Reads the value at the front of `input`. What follows the value is not looked at.
    pub fn bdecode(input: &Vec<u8>) -> (result: Result<Self, BencodingError>)
        ensures
            match decode(input@) {
                Ok((value, _)) => result matches Ok(v) && v@ == value,
                Err(fault) => result matches Err(e) && e@ == fault,
            },
    {
        match bdecode(input.as_slice()) {
            Ok((v, _)) => Ok(v),
            Err(e) => Err(e),
        }
    }
}

} // verus!
