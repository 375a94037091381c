//! The bencode wire grammar: what each value is written as and what each byte string reads as.

use vstd::prelude::*;
use vstd::utf8::*;
use crate::decimal::{int_digits, nat_digits, parse_canonical_int, parse_length, NINE, ZERO};
use crate::encoding::model::{dict_insert, Fault, Value};

verus! {

/// `i`, which opens an integer.
pub const INTEGER_LEAD: u8 = 105;

/// `l`, which opens a list.
pub const LIST_LEAD: u8 = 108;

/// `d`, which opens a dictionary.
pub const DICT_LEAD: u8 = 100;

/// `e`, which closes an integer, a list and a dictionary.
pub const END: u8 = 101;

/// `:`, which stands between the length of a string and its bytes.
pub const COLON: u8 = 58;

/// A string on the wire: its length in bytes, a colon, the bytes.
pub open spec fn encode_payload(payload: Seq<u8>) -> Seq<u8> {
    nat_digits(payload.len()) + seq![COLON] + payload
}

/// The canonical encoding of a value.
pub open spec fn encode(v: Value) -> Seq<u8>
    decreases v,
{
    match v {
        Value::Integer(n) => seq![INTEGER_LEAD] + int_digits(n) + seq![END],
        Value::TextString(s) => encode_payload(encode_utf8(s)),
        Value::ByteString(b) => encode_payload(b),
        Value::List(items) => seq![LIST_LEAD] + encode_items(items) + seq![END],
        Value::Dict(entries) => seq![DICT_LEAD] + encode_entries(entries) + seq![END],
    }
}

/// The encodings of `items`, one after the other.
pub open spec fn encode_items(items: Seq<Value>) -> Seq<u8>
    decreases items,
{
    if items.len() == 0 {
        Seq::empty()
    } else {
        encode(items[0]) + encode_items(items.drop_first())
    }
}

/// Each key as a string followed by its value, in the order of the list.
pub open spec fn encode_entries(entries: Seq<(Seq<char>, Value)>) -> Seq<u8>
    decreases entries,
{
    if entries.len() == 0 {
        Seq::empty()
    } else {
        encode_payload(encode_utf8(entries[0].0)) + encode(entries[0].1) + encode_entries(
            entries.drop_first(),
        )
    }
}

/// Encoding a list with one more item at its end appends that item's encoding.
pub proof fn lemma_encode_items_push(items: Seq<Value>, last: Value)
    ensures
        encode_items(items.push(last)) == encode_items(items) + encode(last),
    decreases items.len(),
{
    let all = items.push(last);
    if items.len() == 0 {
        assert(all.drop_first() =~= Seq::<Value>::empty());
        assert(encode_items(all.drop_first()) =~= Seq::<u8>::empty());
        assert(all[0] == last);
        assert(encode_items(all) =~= encode(last));
        assert(encode_items(items) + encode(last) =~= encode(last));
    } else {
        assert(all.drop_first() =~= items.drop_first().push(last));
        lemma_encode_items_push(items.drop_first(), last);
        assert(encode_items(all) =~= encode_items(items) + encode(last));
    }
}

/// Encoding an entry list with one more entry at its end appends that entry's encoding.
pub proof fn lemma_encode_entries_push(
    entries: Seq<(Seq<char>, Value)>,
    key: Seq<char>,
    value: Value,
)
    ensures
        encode_entries(entries.push((key, value))) == encode_entries(entries) + encode_payload(
            encode_utf8(key),
        ) + encode(value),
    decreases entries.len(),
{
    let all = entries.push((key, value));
    let tail = encode_payload(encode_utf8(key)) + encode(value);
    if entries.len() == 0 {
        assert(all.drop_first() =~= Seq::<(Seq<char>, Value)>::empty());
        assert(encode_entries(all.drop_first()) =~= Seq::<u8>::empty());
        assert(all[0] == (key, value));
        assert(encode_entries(all) =~= tail);
        assert(encode_entries(entries) + encode_payload(encode_utf8(key)) + encode(value)
            =~= tail);
    } else {
        assert(all.drop_first() =~= entries.drop_first().push((key, value)));
        lemma_encode_entries_push(entries.drop_first(), key, value);
        assert(encode_entries(all) =~= encode_entries(entries) + encode_payload(encode_utf8(key))
            + encode(value));
    }
}

/// The first index from `i` on that holds `target`, or the length when there is none.
pub open spec fn find_byte(s: Seq<u8>, target: u8, i: int) -> int
    decreases s.len() - i,
{
    if i >= s.len() {
        s.len() as int
    } else if s[i] == target {
        i
    } else {
        find_byte(s, target, i + 1)
    }
}

/// Splits `s` at the first `target`: what stands before it and what follows it.
pub open spec fn split_at_first(s: Seq<u8>, target: u8) -> Result<(Seq<u8>, Seq<u8>), Fault> {
    let p = find_byte(s, target, 0);
    if p < s.len() {
        Ok((s.subrange(0, p), s.subrange(p + 1, s.len() as int)))
    } else {
        Err(Fault::CharacterNotFound(target as char))
    }
}

/// A string payload is text when it is valid UTF-8, and raw bytes otherwise.
pub open spec fn classify_payload(payload: Seq<u8>) -> Value {
    if valid_utf8(payload) {
        Value::TextString(decode_utf8(payload))
    } else {
        Value::ByteString(payload)
    }
}

/// Reads `i`, a canonical integer, `e`. The first byte is not inspected.
pub open spec fn decode_integer(text: Seq<u8>) -> Result<(Value, Seq<u8>), Fault> {
    if text.len() == 0 {
        Err(Fault::MissingInputType(text))
    } else {
        match split_at_first(text.drop_first(), END) {
            Err(e) => Err(e),
            Ok((span, rest)) => if !valid_utf8(span) {
                Err(Fault::CouldNotParseUTF8)
            } else {
                match parse_canonical_int(span, isize::MIN as int, isize::MAX as int) {
                    None => Err(Fault::ParseIntFailure),
                    Some(n) => Ok((Value::Integer(n), rest)),
                }
            },
        }
    }
}

/// Reads a length, `:`, and that many bytes.
pub open spec fn decode_string(text: Seq<u8>) -> Result<(Value, Seq<u8>), Fault> {
    match split_at_first(text, COLON) {
        Err(e) => Err(e),
        Ok((span, rest)) => if !valid_utf8(span) {
            Err(Fault::CouldNotParseUTF8)
        } else {
            match parse_length(span, usize::MAX as int) {
                None => Err(Fault::ParseIntFailure),
                Some(n) => if n > rest.len() {
                    Err(Fault::OutOfBounds)
                } else {
                    Ok(
                        (
                            classify_payload(rest.subrange(0, n as int)),
                            rest.subrange(n as int, rest.len() as int),
                        ),
                    )
                },
            }
        },
    }
}

/// Reads one value from the front of `text`; gives the value and what follows it.
pub open spec fn decode(text: Seq<u8>) -> Result<(Value, Seq<u8>), Fault>
    decreases text.len(), 2nat,
{
    if text.len() == 0 {
        Err(Fault::MissingInputType(text))
    } else if text[0] == INTEGER_LEAD {
        decode_integer(text)
    } else if ZERO <= text[0] <= NINE {
        decode_string(text)
    } else if text[0] == LIST_LEAD {
        decode_list(text)
    } else if text[0] == DICT_LEAD {
        decode_dict(text)
    } else {
        Err(Fault::InvalidType(text[0] as char))
    }
}

/// Reads `l`, values, `e`. The first byte is not inspected.
pub open spec fn decode_list(text: Seq<u8>) -> Result<(Value, Seq<u8>), Fault>
    decreases text.len(), 1nat,
{
    if text.len() == 0 {
        Err(Fault::MissingInputType(text))
    } else {
        match decode_items(text.drop_first(), Seq::empty()) {
            Err(e) => Err(e),
            Ok((items, rest)) => Ok((Value::List(items), rest)),
        }
    }
}

/// Reads `d`, pairs of key and value, `e`. The first byte is not inspected.
pub open spec fn decode_dict(text: Seq<u8>) -> Result<(Value, Seq<u8>), Fault>
    decreases text.len(), 1nat,
{
    if text.len() == 0 {
        Err(Fault::MissingInputType(text))
    } else {
        match decode_entries(text.drop_first(), Seq::empty()) {
            Err(e) => Err(e),
            Ok((entries, rest)) => Ok((Value::Dict(entries), rest)),
        }
    }
}

/// Reads values up to a bare `e`, after those in `done`.
///
/// The tests on the lengths of what is left only bound the recursion: by
/// `lemma_decode_sound` they always hold.
pub open spec fn decode_items(text: Seq<u8>, done: Seq<Value>) -> Result<
    (Seq<Value>, Seq<u8>),
    Fault,
>
    decreases text.len(), 3nat,
{
    if text.len() == 0 {
        Err(Fault::OutOfBounds)
    } else if text[0] == END {
        Ok((done, text.drop_first()))
    } else {
        match decode(text) {
            Err(e) => Err(e),
            Ok((item, rest)) => if rest.len() < text.len() {
                decode_items(rest, done.push(item))
            } else {
                Err(Fault::OutOfBounds)
            },
        }
    }
}

/// Reads key and value pairs up to a bare `e` into `done`. A key that is no text fails as
/// soon as it is read, before its value is looked at. A later pair replaces an earlier one
/// with the same key. The tests on the lengths of what is left only bound the recursion, as
/// in `decode_items`.
pub open spec fn decode_entries(text: Seq<u8>, done: Seq<(Seq<char>, Value)>) -> Result<
    (Seq<(Seq<char>, Value)>, Seq<u8>),
    Fault,
>
    decreases text.len(), 3nat,
{
    if text.len() == 0 {
        Err(Fault::OutOfBounds)
    } else if text[0] == END {
        Ok((done, text.drop_first()))
    } else {
        match decode(text) {
            Err(e) => Err(e),
            Ok((Value::TextString(k), after_key)) => if after_key.len() < text.len() {
                match decode(after_key) {
                    Err(e) => Err(e),
                    Ok((value, rest)) => if rest.len() < text.len() {
                        decode_entries(rest, dict_insert(done, k, value))
                    } else {
                        Err(Fault::OutOfBounds)
                    },
                }
            } else {
                Err(Fault::OutOfBounds)
            },
            Ok((key, _)) => Err(Fault::InvalidBType(key)),
        }
    }
}

} // verus!
