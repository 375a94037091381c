//! What holds of the codec as a whole: reading back what was written, and what every decoded
//! value is like.

use vstd::prelude::*;
use vstd::utf8::*;
use crate::decimal::{
    int_digits, is_digit, lemma_int_digits_parse, lemma_nat_digits_canonical,
    lemma_parse_int_digits, lemma_parse_length, nat_digits, parse_canonical_int, parse_length,
    NINE, ZERO,
};
use crate::encoding::grammar::{
    classify_payload, decode, decode_dict, decode_entries, decode_integer, decode_items,
    decode_list, decode_string, encode, encode_entries, encode_items, encode_payload, find_byte,
    split_at_first, COLON, DICT_LEAD, END, INTEGER_LEAD, LIST_LEAD,
};
use crate::encoding::model::{
    dict_extend, dict_get, dict_insert, lemma_insert_sorted, lemma_lower_bound,
    lemma_sorted_extensional, lower_bound, sorted_keys, Fault, Value,
};
use crate::encoding::order::{key_lt, lemma_key_transitive};
use crate::encoding::text::lemma_ascii_valid_utf8;

verus! {

/// A value that the codec can hold and that it gives back unchanged: every integer fits in
/// `isize`, every string's length fits in `usize`, no byte string is valid UTF-8 (it would
/// come back as text), and the keys of every dictionary ascend strictly.
pub open spec fn canonical(v: Value) -> bool
    decreases v,
{
    match v {
        Value::Integer(n) => isize::MIN <= n <= isize::MAX,
        Value::TextString(s) => encode_utf8(s).len() <= usize::MAX,
        Value::ByteString(b) => b.len() <= usize::MAX && !valid_utf8(b),
        Value::List(items) => forall|i: int|
            0 <= i < items.len() ==> canonical(#[trigger] items[i]),
        Value::Dict(entries) => sorted_keys(entries) && canonical_entries(entries),
    }
}

/// Every key fits and every value is canonical. The order of the entries is left open.
pub open spec fn canonical_entries(entries: Seq<(Seq<char>, Value)>) -> bool
    decreases entries,
{
    forall|i: int|
        0 <= i < entries.len() ==> encode_utf8((#[trigger] entries[i]).0).len() <= usize::MAX
            && canonical(entries[i].1)
}

/// The outcome of reading `value` off the input with `rest` left over.
pub open spec fn read(value: Value, rest: Seq<u8>) -> Result<(Value, Seq<u8>), Fault> {
    Ok((value, rest))
}

proof fn lemma_find_byte_after(prefix: Seq<u8>, target: u8, tail: Seq<u8>, i: int)
    requires
        0 <= i <= prefix.len(),
        forall|j: int| 0 <= j < prefix.len() ==> prefix[j] != target,
    ensures
        find_byte(prefix + seq![target] + tail, target, i) == prefix.len(),
    decreases prefix.len() - i,
{
    let s = prefix + seq![target] + tail;
    if i < prefix.len() {
        assert(s[i] == prefix[i]);
        lemma_find_byte_after(prefix, target, tail, i + 1);
    } else {
        assert(s[i] == target);
    }
}

proof fn lemma_split_after(prefix: Seq<u8>, target: u8, tail: Seq<u8>)
    requires
        forall|j: int| 0 <= j < prefix.len() ==> prefix[j] != target,
    ensures
        split_at_first(prefix + seq![target] + tail, target) == Ok::<(Seq<u8>, Seq<u8>), Fault>(
            (prefix, tail),
        ),
{
    let s = prefix + seq![target] + tail;
    lemma_find_byte_after(prefix, target, tail, 0);
    assert(s.subrange(0, prefix.len() as int) =~= prefix);
    assert(s.subrange(prefix.len() as int + 1, s.len() as int) =~= tail);
}

/// A string read back from the wire is its payload, classified: text when the payload is
/// valid UTF-8, the raw bytes unchanged when any byte of it is not.
pub proof fn lemma_decode_payload(payload: Seq<u8>, rest: Seq<u8>)
    requires
        payload.len() <= usize::MAX,
    ensures
        decode(encode_payload(payload) + rest) == read(classify_payload(payload), rest),
        decode_string(encode_payload(payload) + rest) is Ok,
        encode_payload(payload).len() > 0,
        ZERO <= encode_payload(payload)[0] <= NINE,
{
    let digits = nat_digits(payload.len());
    let text = encode_payload(payload) + rest;
    lemma_nat_digits_canonical(payload.len());
    assert(is_digit(digits[0]));
    assert(text[0] == digits[0]);
    assert(text =~= digits + seq![COLON] + (payload + rest));
    assert forall|j: int| 0 <= j < digits.len() implies digits[j] != COLON by {
        assert(is_digit(digits[j]));
    }
    lemma_split_after(digits, COLON, payload + rest);
    assert forall|j: int| 0 <= j < digits.len() implies #[trigger] digits[j] <= 0x7f by {
        assert(is_digit(digits[j]));
    }
    lemma_ascii_valid_utf8(digits);
    assert(parse_length(digits, usize::MAX as int) == Some(payload.len()));
    let after = payload + rest;
    assert(after.subrange(0, payload.len() as int) =~= payload);
    assert(after.subrange(payload.len() as int, after.len() as int) =~= rest);
    assert(decode_string(text) == read(classify_payload(payload), rest));
}

/// An integer read back from the wire is the integer that was written.
pub proof fn lemma_decode_integer(n: int, rest: Seq<u8>)
    requires
        isize::MIN <= n <= isize::MAX,
    ensures
        decode(encode(Value::Integer(n)) + rest) == read(Value::Integer(n), rest),
{
    let digits = int_digits(n);
    let text = encode(Value::Integer(n)) + rest;
    assert(text[0] == INTEGER_LEAD);
    assert(text.drop_first() =~= digits + seq![END] + rest);
    if n < 0 {
        lemma_nat_digits_canonical((-n) as nat);
        let body = nat_digits((-n) as nat);
        assert forall|j: int| 0 <= j < digits.len() implies digits[j] != END && #[trigger] digits[j]
            <= 0x7f by {
            if j > 0 {
                assert(digits[j] == body[j - 1]);
                assert(is_digit(body[j - 1]));
            }
        }
    } else {
        lemma_nat_digits_canonical(n as nat);
        assert forall|j: int| 0 <= j < digits.len() implies digits[j] != END && #[trigger] digits[j]
            <= 0x7f by {
            assert(is_digit(digits[j]));
        }
    }
    lemma_split_after(digits, END, rest);
    lemma_ascii_valid_utf8(digits);
    lemma_parse_int_digits(n, isize::MIN as int, isize::MAX as int);
    assert(decode_integer(text) == read(Value::Integer(n), rest));
}

/// No encoding is empty, and none starts with the `e` that closes a list or a dictionary.
pub proof fn lemma_encode_lead(v: Value)
    ensures
        encode(v).len() > 0,
        encode(v)[0] != END,
{
    match v {
        Value::Integer(_) => {},
        Value::TextString(s) => {
            lemma_nat_digits_canonical(encode_utf8(s).len());
            assert(is_digit(nat_digits(encode_utf8(s).len())[0]));
        },
        Value::ByteString(b) => {
            lemma_nat_digits_canonical(b.len());
            assert(is_digit(nat_digits(b.len())[0]));
        },
        Value::List(_) => {},
        Value::Dict(_) => {},
    }
}

/// Inserting a key above all keys of a list appends the entry.
pub proof fn lemma_insert_at_end(d: Seq<(Seq<char>, Value)>, k: Seq<char>, v: Value)
    requires
        forall|i: int| 0 <= i < d.len() ==> key_lt((#[trigger] d[i]).0, k),
    ensures
        dict_insert(d, k, v) == d.push((k, v)),
{
    lemma_lower_bound(d, k, 0);
    assert(lower_bound(d, k, 0) == d.len());
    assert(d.insert(d.len() as int, (k, v)) =~= d.push((k, v)));
}

/// Inserting the entries of a sorted list one by one into the empty list builds that list.
pub proof fn lemma_extend_sorted(d: Seq<(Seq<char>, Value)>)
    requires
        sorted_keys(d),
    ensures
        dict_extend(Seq::empty(), d) == d,
    decreases d.len(),
{
    if d.len() > 0 {
        let front = d.drop_last();
        assert forall|i: int, j: int| 0 <= i < j < front.len() implies key_lt(
            front[i].0,
            front[j].0,
        ) by {
            assert(key_lt(d[i].0, d[j].0));
        }
        lemma_extend_sorted(front);
        assert forall|i: int| 0 <= i < front.len() implies key_lt(
            (#[trigger] front[i]).0,
            d.last().0,
        ) by {
            assert(key_lt(d[i].0, d[d.len() - 1].0));
        }
        lemma_insert_at_end(front, d.last().0, d.last().1);
        assert(front.push((d.last().0, d.last().1)) =~= d);
    }
}

/// Inserting a first entry and then the others is inserting them all, first to last.
pub proof fn lemma_extend_front(base: Seq<(Seq<char>, Value)>, more: Seq<(Seq<char>, Value)>)
    requires
        more.len() > 0,
    ensures
        dict_extend(dict_insert(base, more[0].0, more[0].1), more.drop_first()) == dict_extend(
            base,
            more,
        ),
    decreases more.len(),
{
    let tail = more.drop_first();
    if tail.len() == 0 {
        assert(more.drop_last() =~= Seq::<(Seq<char>, Value)>::empty());
        assert(dict_extend(base, more.drop_last()) == base);
    } else {
        let front = more.drop_last();
        lemma_extend_front(base, front);
        assert(front.drop_first() =~= tail.drop_last());
        assert(front[0] == more[0]);
        assert(tail.last() == more.last());
    }
}

/// Reading back what was written gives the value and leaves what followed it.
pub proof fn lemma_decode_encode(v: Value, rest: Seq<u8>)
    requires
        canonical(v),
    ensures
        decode(encode(v) + rest) == read(v, rest),
    decreases v,
{
    let text = encode(v) + rest;
    match v {
        Value::Integer(n) => {
            lemma_decode_integer(n, rest);
        },
        Value::TextString(s) => {
            encode_utf8_valid_utf8(s);
            encode_utf8_decode_utf8(s);
            lemma_decode_payload(encode_utf8(s), rest);
        },
        Value::ByteString(b) => {
            lemma_decode_payload(b, rest);
        },
        Value::List(items) => {
            assert(text[0] == LIST_LEAD);
            assert(text.drop_first() =~= encode_items(items) + seq![END] + rest);
            lemma_decode_items(items, Seq::empty(), rest);
            assert(Seq::<Value>::empty() + items =~= items);
            assert(decode_list(text) == read(v, rest));
        },
        Value::Dict(entries) => {
            assert(text[0] == DICT_LEAD);
            assert(text.drop_first() =~= encode_entries(entries) + seq![END] + rest);
            lemma_decode_entries(entries, Seq::empty(), rest);
            lemma_extend_sorted(entries);
            assert(decode_dict(text) == read(v, rest));
        },
    }
}

/// Reading back a written run of items, closed by `e`, appends the items to those read before.
pub proof fn lemma_decode_items(items: Seq<Value>, done: Seq<Value>, rest: Seq<u8>)
    requires
        forall|i: int| 0 <= i < items.len() ==> canonical(#[trigger] items[i]),
    ensures
        decode_items(encode_items(items) + seq![END] + rest, done) == Ok::<
            (Seq<Value>, Seq<u8>),
            Fault,
        >((done + items, rest)),
    decreases items,
{
    let text = encode_items(items) + seq![END] + rest;
    if items.len() == 0 {
        assert(text[0] == END);
        assert(text.drop_first() =~= rest);
        assert(done + items =~= done);
    } else {
        let first = items[0];
        let tail = items.drop_first();
        let after = encode_items(tail) + seq![END] + rest;
        lemma_encode_lead(first);
        assert(text =~= encode(first) + after);
        assert(text[0] == encode(first)[0]);
        lemma_decode_encode(first, after);
        assert forall|i: int| 0 <= i < tail.len() implies canonical(#[trigger] tail[i]) by {
            assert(tail[i] == items[i + 1]);
        }
        lemma_decode_items(tail, done.push(first), rest);
        assert(done.push(first) + tail =~= done + items);
    }
}

/// Reading back a written run of entries, closed by `e`, inserts them one by one, first to
/// last, whatever their order on the wire.
pub proof fn lemma_decode_entries(
    entries: Seq<(Seq<char>, Value)>,
    done: Seq<(Seq<char>, Value)>,
    rest: Seq<u8>,
)
    requires
        canonical_entries(entries),
    ensures
        decode_entries(encode_entries(entries) + seq![END] + rest, done) == Ok::<
            (Seq<(Seq<char>, Value)>, Seq<u8>),
            Fault,
        >((dict_extend(done, entries), rest)),
    decreases entries,
{
    let text = encode_entries(entries) + seq![END] + rest;
    if entries.len() == 0 {
        assert(text[0] == END);
        assert(text.drop_first() =~= rest);
    } else {
        let key = entries[0].0;
        let value = entries[0].1;
        let tail = entries.drop_first();
        let after = encode_entries(tail) + seq![END] + rest;
        let key_bytes = encode_utf8(key);
        lemma_encode_lead(value);
        encode_utf8_valid_utf8(key);
        encode_utf8_decode_utf8(key);
        lemma_decode_payload(key_bytes, encode(value) + after);
        assert(text =~= encode_payload(key_bytes) + (encode(value) + after));
        assert(text[0] == encode_payload(key_bytes)[0]);
        lemma_decode_encode(value, after);
        assert forall|i: int| 0 <= i < tail.len() implies encode_utf8((#[trigger] tail[i]).0).len()
            <= usize::MAX && canonical(tail[i].1) by {
            assert(tail[i] == entries[i + 1]);
        }
        lemma_decode_entries(tail, dict_insert(done, key, value), rest);
        lemma_extend_front(done, entries);
    }
}

/// `rest` is what remains of `text` after some bytes were taken off its front.
pub open spec fn is_rest_of(rest: Seq<u8>, text: Seq<u8>) -> bool {
    rest.len() < text.len() && text.subrange(text.len() - rest.len(), text.len() as int) == rest
}

proof fn lemma_rest_chain(a: Seq<u8>, b: Seq<u8>, c: Seq<u8>)
    requires
        is_rest_of(a, b),
        is_rest_of(b, c) || b == c,
    ensures
        is_rest_of(a, c),
{
    if b != c {
        assert(c.subrange(c.len() - a.len(), c.len() as int) =~= b.subrange(
            b.len() - a.len(),
            b.len() as int,
        ));
    }
}

proof fn lemma_find_byte_bounds(s: Seq<u8>, target: u8, i: int)
    requires
        0 <= i <= s.len(),
    ensures
        i <= find_byte(s, target, i) <= s.len(),
    decreases s.len() - i,
{
    if i < s.len() && s[i] != target {
        lemma_find_byte_bounds(s, target, i + 1);
    }
}

proof fn lemma_split_rest(s: Seq<u8>, target: u8)
    ensures
        split_at_first(s, target) matches Ok((_, right)) ==> is_rest_of(right, s),
{
    lemma_find_byte_bounds(s, target, 0);
    if let Ok((_, right)) = split_at_first(s, target) {
        assert(s.subrange(s.len() - right.len(), s.len() as int) =~= right);
    }
}

/// An entry list stays canonical when a canonical entry is inserted.
pub proof fn lemma_insert_canonical(d: Seq<(Seq<char>, Value)>, k: Seq<char>, v: Value)
    requires
        canonical_entries(d),
        encode_utf8(k).len() <= usize::MAX,
        canonical(v),
    ensures
        canonical_entries(dict_insert(d, k, v)),
{
    lemma_lower_bound(d, k, 0);
    let p = lower_bound(d, k, 0);
    let r = dict_insert(d, k, v);
    assert forall|i: int| 0 <= i < r.len() implies encode_utf8((#[trigger] r[i]).0).len()
        <= usize::MAX && canonical(r[i].1) by {
        if i == p {
        } else if p < d.len() && d[p].0 == k {
            assert(r[i] == d[i]);
        } else if i < p {
            assert(r[i] == d[i]);
        } else {
            assert(r[i] == d[i - 1]);
        }
    }
}

/// Every value that decoding gives is canonical, and what is left over is a proper rest of
/// the input.
pub proof fn lemma_decode_sound(text: Seq<u8>)
    ensures
        decode(text) matches Ok((v, rest)) ==> canonical(v) && is_rest_of(rest, text),
    decreases text.len(), 2nat,
{
    if text.len() == 0 {
    } else if text[0] == INTEGER_LEAD {
        lemma_split_rest(text.drop_first(), END);
        if let Ok((_, rest)) = decode_integer(text) {
            assert(is_rest_of(text.drop_first(), text)) by {
                assert(text.subrange(1, text.len() as int) =~= text.drop_first());
            }
            lemma_rest_chain(rest, text.drop_first(), text);
        }
    } else if ZERO <= text[0] <= NINE {
        lemma_split_rest(text, COLON);
        if let Ok((v, rest)) = decode_string(text) {
            let after = split_at_first(text, COLON)->Ok_0.1;
            let n = after.len() - rest.len();
            let payload = after.subrange(0, n);
            if valid_utf8(payload) {
                decode_utf8_encode_utf8(payload);
            }
            assert(canonical(v));
            if rest.len() < after.len() {
                assert(is_rest_of(rest, after)) by {
                    assert(after.subrange(after.len() - rest.len(), after.len() as int) =~= rest);
                }
                lemma_rest_chain(rest, after, text);
            } else {
                assert(rest =~= after);
            }
        }
    } else if text[0] == LIST_LEAD {
        lemma_decode_list_sound(text);
    } else if text[0] == DICT_LEAD {
        lemma_decode_dict_sound(text);
    }
}

proof fn lemma_decode_list_sound(text: Seq<u8>)
    ensures
        decode_list(text) matches Ok((v, rest)) ==> canonical(v) && is_rest_of(rest, text),
    decreases text.len(), 1nat,
{
    if text.len() > 0 {
        lemma_decode_items_sound(text.drop_first(), Seq::empty());
        if let Ok((v, rest)) = decode_list(text) {
            assert(is_rest_of(text.drop_first(), text)) by {
                assert(text.subrange(1, text.len() as int) =~= text.drop_first());
            }
            lemma_rest_chain(rest, text.drop_first(), text);
        }
    }
}

proof fn lemma_decode_dict_sound(text: Seq<u8>)
    ensures
        decode_dict(text) matches Ok((v, rest)) ==> canonical(v) && is_rest_of(rest, text),
    decreases text.len(), 1nat,
{
    if text.len() > 0 {
        lemma_decode_entries_sound(text.drop_first(), Seq::empty());
        if let Ok((v, rest)) = decode_dict(text) {
            assert(is_rest_of(text.drop_first(), text)) by {
                assert(text.subrange(1, text.len() as int) =~= text.drop_first());
            }
            lemma_rest_chain(rest, text.drop_first(), text);
        }
    }
}

proof fn lemma_decode_items_sound(text: Seq<u8>, done: Seq<Value>)
    requires
        forall|i: int| 0 <= i < done.len() ==> canonical(#[trigger] done[i]),
    ensures
        decode_items(text, done) matches Ok((items, rest)) ==> is_rest_of(rest, text) && (forall|
            i: int,
        | 0 <= i < items.len() ==> canonical(#[trigger] items[i])),
    decreases text.len(), 3nat,
{
    if text.len() == 0 {
    } else if text[0] == END {
        assert(text.subrange(1, text.len() as int) =~= text.drop_first());
    } else {
        lemma_decode_sound(text);
        if let Ok((item, after)) = decode(text) {
            let next = done.push(item);
            assert forall|i: int| 0 <= i < next.len() implies canonical(#[trigger] next[i]) by {
                if i < done.len() {
                    assert(next[i] == done[i]);
                }
            }
            lemma_decode_items_sound(after, next);
            if let Ok((_, rest)) = decode_items(after, next) {
                lemma_rest_chain(rest, after, text);
            }
        }
    }
}

proof fn lemma_decode_entries_sound(text: Seq<u8>, done: Seq<(Seq<char>, Value)>)
    requires
        sorted_keys(done),
        canonical_entries(done),
    ensures
        decode_entries(text, done) matches Ok((entries, rest)) ==> is_rest_of(rest, text)
            && sorted_keys(entries) && canonical_entries(entries),
    decreases text.len(), 3nat,
{
    if text.len() == 0 {
    } else if text[0] == END {
        assert(text.subrange(1, text.len() as int) =~= text.drop_first());
    } else {
        lemma_decode_sound(text);
        if let Ok((key, after_key)) = decode(text) {
            lemma_decode_sound(after_key);
            if let Ok((value, after)) = decode(after_key) {
                lemma_rest_chain(after, after_key, text);
                if let Value::TextString(k) = key {
                    let next = dict_insert(done, k, value);
                    lemma_insert_sorted(done, k, value);
                    lemma_insert_canonical(done, k, value);
                    lemma_decode_entries_sound(after, next);
                    if let Ok((_, rest)) = decode_entries(after, next) {
                        lemma_rest_chain(rest, after, text);
                    }
                }
            }
        }
    }
}

/// What was read reads again from its own encoding: decoding gives the value that the
/// canonical form of the input stands for.
pub proof fn lemma_reencode(text: Seq<u8>)
    ensures
        decode(text) matches Ok((v, rest)) ==> decode(encode(v) + rest) == read(v, rest),
{
    lemma_decode_sound(text);
    if let Ok((v, rest)) = decode(text) {
        lemma_decode_encode(v, rest);
    }
}

/// Writing what was read from a canonical encoding gives the encoding back.
pub proof fn lemma_encode_decode(v: Value, text: Seq<u8>)
    requires
        canonical(v),
        text == encode(v),
    ensures
        decode(text) == read(v, Seq::empty()),
        encode(decode(text)->Ok_0.0) == text,
{
    lemma_decode_encode(v, Seq::empty());
    assert(encode(v) + Seq::<u8>::empty() =~= encode(v));
}

/// Two canonical values with the same encoding are the same value.
pub proof fn lemma_encode_injective(a: Value, b: Value)
    requires
        canonical(a),
        canonical(b),
        encode(a) == encode(b),
    ensures
        a == b,
{
    lemma_encode_decode(a, encode(a));
    lemma_encode_decode(b, encode(b));
}

/// The order in which two different keys are inserted makes no difference.
pub proof fn lemma_insert_commutes(
    d: Seq<(Seq<char>, Value)>,
    k1: Seq<char>,
    v1: Value,
    k2: Seq<char>,
    v2: Value,
)
    requires
        sorted_keys(d),
        k1 != k2,
    ensures
        dict_insert(dict_insert(d, k1, v1), k2, v2) == dict_insert(dict_insert(d, k2, v2), k1, v1),
{
    let a1 = dict_insert(d, k1, v1);
    let a2 = dict_insert(a1, k2, v2);
    let b1 = dict_insert(d, k2, v2);
    let b2 = dict_insert(b1, k1, v1);
    lemma_insert_sorted(d, k1, v1);
    lemma_insert_sorted(a1, k2, v2);
    lemma_insert_sorted(d, k2, v2);
    lemma_insert_sorted(b1, k1, v1);
    assert forall|k: Seq<char>| dict_get(a2, k) == dict_get(b2, k) by {
        if k == k1 {
            assert(dict_get(a2, k) == dict_get(a1, k));
        } else if k == k2 {
            assert(dict_get(b2, k) == dict_get(b1, k));
        } else {
            assert(dict_get(a2, k) == dict_get(a1, k));
            assert(dict_get(a1, k) == dict_get(d, k));
            assert(dict_get(b2, k) == dict_get(b1, k));
            assert(dict_get(b1, k) == dict_get(d, k));
        }
    }
    lemma_sorted_extensional(a2, b2);
}

/// A byte string that starts with a value in canonical form: it decodes, and the keys of
/// each dictionary in it ascend strictly. Integers and string lengths need no word here:
/// they decode in their canonical form only.
pub open spec fn canonical_text(text: Seq<u8>) -> bool
    decreases text.len(), 2nat,
{
    if text.len() == 0 {
        false
    } else if text[0] == INTEGER_LEAD {
        decode_integer(text) is Ok
    } else if ZERO <= text[0] <= NINE {
        decode_string(text) is Ok
    } else if text[0] == LIST_LEAD {
        canonical_items(text.drop_first())
    } else if text[0] == DICT_LEAD {
        canonical_pairs(text.drop_first(), None)
    } else {
        false
    }
}

/// Canonical values up to a bare `e`.
pub open spec fn canonical_items(text: Seq<u8>) -> bool
    decreases text.len(), 3nat,
{
    if text.len() == 0 {
        false
    } else if text[0] == END {
        true
    } else {
        canonical_text(text) && match decode(text) {
            Ok((_, rest)) => rest.len() < text.len() && canonical_items(rest),
            Err(_) => false,
        }
    }
}

/// Canonical pairs up to a bare `e`: each key a text above `previous` and above the key
/// before it, each value canonical.
pub open spec fn canonical_pairs(text: Seq<u8>, previous: Option<Seq<char>>) -> bool
    decreases text.len(), 3nat,
{
    if text.len() == 0 {
        false
    } else if text[0] == END {
        true
    } else {
        match decode(text) {
            Ok((Value::TextString(key), after_key)) => after_key.len() < text.len() && (
            previous matches Some(p) ==> key_lt(p, key)) && canonical_text(after_key)
                && match decode(after_key) {
                Ok((_, rest)) => rest.len() < text.len() && canonical_pairs(rest, Some(key)),
                Err(_) => false,
            },
            _ => false,
        }
    }
}

proof fn lemma_split_joins(s: Seq<u8>, target: u8)
    ensures
        split_at_first(s, target) matches Ok((left, right)) ==> s == left + seq![target] + right,
{
    lemma_find_byte_bounds(s, target, 0);
    lemma_find_byte_hit(s, target, 0);
    if let Ok((left, right)) = split_at_first(s, target) {
        assert(s =~= left + seq![target] + right);
    }
}

proof fn lemma_find_byte_hit(s: Seq<u8>, target: u8, i: int)
    requires
        0 <= i <= s.len(),
    ensures
        find_byte(s, target, i) < s.len() ==> s[find_byte(s, target, i)] == target,
    decreases s.len() - i,
{
    if i < s.len() && s[i] != target {
        lemma_find_byte_hit(s, target, i + 1);
    }
}

/// A string that reads is written back as it stood: the length in its one accepted form,
/// the payload byte for byte.
pub proof fn lemma_string_rewrites(text: Seq<u8>)
    requires
        decode_string(text) is Ok,
    ensures
        decode_string(text) matches Ok((v, rest)) && encode(v) + rest == text,
{
    lemma_split_joins(text, COLON);
    let (span, after) = split_at_first(text, COLON)->Ok_0;
    let n = parse_length(span, usize::MAX as int)->0;
    lemma_parse_length(span, n, usize::MAX as int);
    let payload = after.subrange(0, n as int);
    let rest = after.subrange(n as int, after.len() as int);
    if valid_utf8(payload) {
        decode_utf8_encode_utf8(payload);
    }
    assert(after =~= payload + rest);
    assert(encode(classify_payload(payload)) + rest =~= text);
}

/// A canonical text is the encoding of the value it decodes to, followed by what
/// decoding leaves over.
pub proof fn lemma_canonical_text(text: Seq<u8>)
    requires
        canonical_text(text),
    ensures
        decode(text) matches Ok((v, rest)) && encode(v) + rest == text,
    decreases text.len(), 2nat,
{
    if text[0] == INTEGER_LEAD {
        lemma_split_joins(text.drop_first(), END);
        let (span, rest) = split_at_first(text.drop_first(), END)->Ok_0;
        lemma_int_digits_parse(span, isize::MIN as int, isize::MAX as int);
        let n = parse_canonical_int(span, isize::MIN as int, isize::MAX as int)->0;
        assert(text =~= seq![INTEGER_LEAD] + text.drop_first());
        assert(encode(Value::Integer(n)) + rest =~= text);
    } else if ZERO <= text[0] <= NINE {
        lemma_string_rewrites(text);
    } else if text[0] == LIST_LEAD {
        lemma_canonical_items(text.drop_first(), Seq::empty());
        let (items, rest) = decode_items(text.drop_first(), Seq::empty())->Ok_0;
        assert(items.subrange(0, items.len() as int) =~= items);
        assert(text =~= seq![LIST_LEAD] + text.drop_first());
        assert(encode(Value::List(items)) + rest =~= text);
    } else {
        lemma_canonical_pairs(text.drop_first(), None, Seq::empty());
        let (entries, rest) = decode_entries(text.drop_first(), Seq::empty())->Ok_0;
        assert(entries.subrange(0, entries.len() as int) =~= entries);
        assert(text =~= seq![DICT_LEAD] + text.drop_first());
        assert(encode(Value::Dict(entries)) + rest =~= text);
    }
}

proof fn lemma_canonical_items(text: Seq<u8>, done: Seq<Value>)
    requires
        canonical_items(text),
    ensures
        decode_items(text, done) matches Ok((items, rest)) && done.len() <= items.len()
            && items.subrange(0, done.len() as int) == done && encode_items(
            items.subrange(done.len() as int, items.len() as int),
        ) + seq![END] + rest == text,
    decreases text.len(), 3nat,
{
    if text[0] == END {
        assert(done.subrange(0, done.len() as int) =~= done);
        assert(done.subrange(done.len() as int, done.len() as int) =~= Seq::<Value>::empty());
        assert(Seq::<u8>::empty() + seq![END] + text.drop_first() =~= text);
    } else {
        lemma_canonical_text(text);
        let (item, after) = decode(text)->Ok_0;
        lemma_canonical_items(after, done.push(item));
        let (items, rest) = decode_items(after, done.push(item))->Ok_0;
        let more = items.subrange(done.len() as int, items.len() as int);
        let fewer = items.subrange(done.len() as int + 1, items.len() as int);
        lemma_prefix_step(items, done, item);
        assert(encode_items(more) + seq![END] + rest =~= encode(item) + (encode_items(fewer)
            + seq![END] + rest));
    }
}

proof fn lemma_prefix_step<A>(all: Seq<A>, done: Seq<A>, next: A)
    requires
        done.len() < all.len(),
        all.subrange(0, done.len() as int + 1) == done.push(next),
    ensures
        all.subrange(0, done.len() as int) == done,
        all.subrange(done.len() as int, all.len() as int)[0] == next,
        all.subrange(done.len() as int, all.len() as int).drop_first() == all.subrange(
            done.len() as int + 1,
            all.len() as int,
        ),
{
    let front = all.subrange(0, done.len() as int + 1);
    assert(front.len() == done.len() + 1);
    assert(front[done.len() as int] == all[done.len() as int]);
    assert(done.push(next)[done.len() as int] == next);
    assert forall|j: int| 0 <= j < done.len() implies all[j] == done[j] by {
        assert(front[j] == all[j]);
        assert(done.push(next)[j] == done[j]);
    }
    assert(all.subrange(0, done.len() as int) =~= done);
    assert(all.subrange(done.len() as int, all.len() as int).drop_first() =~= all.subrange(
        done.len() as int + 1,
        all.len() as int,
    ));
}

/// Only a string reads as text.
proof fn lemma_text_is_string(text: Seq<u8>)
    requires
        decode(text) matches Ok((Value::TextString(_), _)),
    ensures
        text.len() > 0,
        ZERO <= text[0] <= NINE,
        decode_string(text) == decode(text),
{
}

#[verifier::rlimit(30)]
proof fn lemma_canonical_pairs(
    text: Seq<u8>,
    previous: Option<Seq<char>>,
    done: Seq<(Seq<char>, Value)>,
)
    requires
        canonical_pairs(text, previous),
        sorted_keys(done),
        previous is None ==> done.len() == 0,
        previous matches Some(p) ==> done.len() > 0 && done.last().0 == p,
    ensures
        decode_entries(text, done) matches Ok((entries, rest)) && done.len() <= entries.len()
            && entries.subrange(0, done.len() as int) == done && encode_entries(
            entries.subrange(done.len() as int, entries.len() as int),
        ) + seq![END] + rest == text,
    decreases text.len(), 3nat,
{
    if text[0] == END {
        assert(done.subrange(0, done.len() as int) =~= done);
        assert(done.subrange(done.len() as int, done.len() as int) =~= Seq::<
            (Seq<char>, Value),
        >::empty());
        assert(Seq::<u8>::empty() + seq![END] + text.drop_first() =~= text);
    } else {
        lemma_text_is_string(text);
        lemma_string_rewrites(text);
        let (key_value, after_key) = decode(text)->Ok_0;
        let key = key_value->TextString_0;
        lemma_canonical_text(after_key);
        let (value, after) = decode(after_key)->Ok_0;
        assert forall|i: int| 0 <= i < done.len() implies key_lt((#[trigger] done[i]).0, key) by {
            if i < done.len() - 1 {
                assert(key_lt(done[i].0, done[done.len() - 1].0));
                lemma_key_transitive(done[i].0, done.last().0, key);
            }
        }
        lemma_insert_at_end(done, key, value);
        lemma_insert_sorted(done, key, value);
        let next = done.push((key, value));
        lemma_canonical_pairs(after, Some(key), next);
        let (entries, rest) = decode_entries(after, next)->Ok_0;
        let more = entries.subrange(done.len() as int, entries.len() as int);
        let fewer = entries.subrange(done.len() as int + 1, entries.len() as int);
        lemma_prefix_step(entries, done, (key, value));
        assert(encode_entries(more) + seq![END] + rest =~= encode(key_value) + (encode(value) + (
        encode_entries(fewer) + seq![END] + rest)));
    }
}

/// Writing what was read from a canonical text gives the text back.
pub proof fn lemma_canonical_text_round_trip(text: Seq<u8>)
    requires
        canonical_text(text),
        decode(text) matches Ok((_, rest)) && rest.len() == 0,
    ensures
        encode(decode(text)->Ok_0.0) == text,
{
    lemma_canonical_text(text);
    let (v, rest) = decode(text)->Ok_0;
    assert(encode(v) + rest =~= encode(v));
}

/// The encoding of a canonical value is a canonical text, whatever follows it.
pub proof fn lemma_encode_canonical_text(v: Value, rest: Seq<u8>)
    requires
        canonical(v),
    ensures
        canonical_text(encode(v) + rest),
    decreases v,
{
    let text = encode(v) + rest;
    lemma_encode_lead(v);
    assert(text[0] == encode(v)[0]);
    match v {
        Value::Integer(n) => {
            lemma_decode_integer(n, rest);
        },
        Value::TextString(s) => {
            encode_utf8_valid_utf8(s);
            lemma_decode_payload(encode_utf8(s), rest);
        },
        Value::ByteString(b) => {
            lemma_decode_payload(b, rest);
        },
        Value::List(items) => {
            assert(text.drop_first() =~= encode_items(items) + seq![END] + rest);
            lemma_encode_canonical_items(items, rest);
        },
        Value::Dict(entries) => {
            assert(text.drop_first() =~= encode_entries(entries) + seq![END] + rest);
            lemma_encode_canonical_pairs(entries, None, rest);
        },
    }
}

proof fn lemma_encode_canonical_items(items: Seq<Value>, rest: Seq<u8>)
    requires
        forall|i: int| 0 <= i < items.len() ==> canonical(#[trigger] items[i]),
    ensures
        canonical_items(encode_items(items) + seq![END] + rest),
    decreases items,
{
    let text = encode_items(items) + seq![END] + rest;
    if items.len() == 0 {
        assert(text[0] == END);
    } else {
        let first = items[0];
        let tail = items.drop_first();
        let after = encode_items(tail) + seq![END] + rest;
        lemma_encode_lead(first);
        assert(text =~= encode(first) + after);
        assert(text[0] == encode(first)[0]);
        lemma_encode_canonical_text(first, after);
        lemma_decode_encode(first, after);
        assert forall|i: int| 0 <= i < tail.len() implies canonical(#[trigger] tail[i]) by {
            assert(tail[i] == items[i + 1]);
        }
        lemma_encode_canonical_items(tail, rest);
    }
}

proof fn lemma_encode_canonical_pairs(
    entries: Seq<(Seq<char>, Value)>,
    previous: Option<Seq<char>>,
    rest: Seq<u8>,
)
    requires
        sorted_keys(entries),
        canonical_entries(entries),
        previous matches Some(p) ==> entries.len() > 0 ==> key_lt(p, entries[0].0),
    ensures
        canonical_pairs(encode_entries(entries) + seq![END] + rest, previous),
    decreases entries,
{
    let text = encode_entries(entries) + seq![END] + rest;
    if entries.len() == 0 {
        assert(text[0] == END);
    } else {
        let key = entries[0].0;
        let value = entries[0].1;
        let tail = entries.drop_first();
        let after = encode_entries(tail) + seq![END] + rest;
        let key_bytes = encode_utf8(key);
        encode_utf8_valid_utf8(key);
        encode_utf8_decode_utf8(key);
        lemma_decode_payload(key_bytes, encode(value) + after);
        assert(text =~= encode_payload(key_bytes) + (encode(value) + after));
        lemma_encode_lead(value);
        lemma_encode_canonical_text(value, after);
        lemma_decode_encode(value, after);
        assert forall|i: int| 0 <= i < tail.len() implies encode_utf8((#[trigger] tail[i]).0).len()
            <= usize::MAX && canonical(tail[i].1) by {
            assert(tail[i] == entries[i + 1]);
        }
        assert forall|i: int, j: int| 0 <= i < j < tail.len() implies key_lt(
            tail[i].0,
            tail[j].0,
        ) by {
            assert(key_lt(entries[i + 1].0, entries[j + 1].0));
        }
        if tail.len() > 0 {
            assert(key_lt(entries[0].0, entries[1].0));
        }
        lemma_encode_canonical_pairs(tail, Some(key), rest);
    }
}

/// A value that can be written: every integer fits in `isize`, every string's length fits
/// in `usize`, and the keys of every dictionary ascend strictly. A byte string may hold
/// valid UTF-8.
pub open spec fn writable(v: Value) -> bool
    decreases v,
{
    match v {
        Value::Integer(n) => isize::MIN <= n <= isize::MAX,
        Value::TextString(s) => encode_utf8(s).len() <= usize::MAX,
        Value::ByteString(b) => b.len() <= usize::MAX,
        Value::List(items) => writable_items(items),
        Value::Dict(entries) => sorted_keys(entries) && writable_entries(entries),
    }
}

/// Every item can be written.
pub open spec fn writable_items(items: Seq<Value>) -> bool
    decreases items,
{
    items.len() == 0 || (writable(items[0]) && writable_items(items.drop_first()))
}

/// Every key fits and every value can be written. The order of the entries is left open.
pub open spec fn writable_entries(entries: Seq<(Seq<char>, Value)>) -> bool
    decreases entries,
{
    entries.len() == 0 || (encode_utf8(entries[0].0).len() <= usize::MAX && writable(
        entries[0].1,
    ) && writable_entries(entries.drop_first()))
}

/// What a value comes back as after it was written and read: every byte string in it that
/// holds valid UTF-8 has become the text that it spells. All else stays.
pub open spec fn normal(v: Value) -> Value
    decreases v,
{
    match v {
        Value::ByteString(b) => classify_payload(b),
        Value::List(items) => Value::List(normal_items(items)),
        Value::Dict(entries) => Value::Dict(normal_entries(entries)),
        _ => v,
    }
}

/// Each item as it comes back.
pub open spec fn normal_items(items: Seq<Value>) -> Seq<Value>
    decreases items,
{
    if items.len() == 0 {
        Seq::empty()
    } else {
        seq![normal(items[0])] + normal_items(items.drop_first())
    }
}

/// Each entry with its value as it comes back; the keys stay.
pub open spec fn normal_entries(entries: Seq<(Seq<char>, Value)>) -> Seq<(Seq<char>, Value)>
    decreases entries,
{
    if entries.len() == 0 {
        Seq::empty()
    } else {
        seq![(entries[0].0, normal(entries[0].1))] + normal_entries(entries.drop_first())
    }
}

/// `normal_items` works item by item.
pub proof fn lemma_normal_items_index(items: Seq<Value>)
    ensures
        normal_items(items).len() == items.len(),
        forall|i: int|
            0 <= i < items.len() ==> #[trigger] normal_items(items)[i] == normal(items[i]),
    decreases items.len(),
{
    if items.len() > 0 {
        let tail = items.drop_first();
        lemma_normal_items_index(tail);
        assert forall|i: int| 0 <= i < items.len() implies #[trigger] normal_items(items)[i]
            == normal(items[i]) by {
            if i > 0 {
                assert(normal_items(items)[i] == normal_items(tail)[i - 1]);
                assert(tail[i - 1] == items[i]);
            }
        }
    }
}

/// `normal_entries` works entry by entry and keeps every key.
pub proof fn lemma_normal_entries_index(entries: Seq<(Seq<char>, Value)>)
    ensures
        normal_entries(entries).len() == entries.len(),
        forall|i: int|
            0 <= i < entries.len() ==> #[trigger] normal_entries(entries)[i] == (
                entries[i].0,
                normal(entries[i].1),
            ),
    decreases entries.len(),
{
    if entries.len() > 0 {
        let tail = entries.drop_first();
        lemma_normal_entries_index(tail);
        assert forall|i: int| 0 <= i < entries.len() implies #[trigger] normal_entries(entries)[i]
            == (entries[i].0, normal(entries[i].1)) by {
            if i > 0 {
                assert(normal_entries(entries)[i] == normal_entries(tail)[i - 1]);
                assert(tail[i - 1] == entries[i]);
            }
        }
    }
}

/// What can be written comes back canonical, and is written as what it comes back as.
pub proof fn lemma_normal(v: Value)
    requires
        writable(v),
    ensures
        canonical(normal(v)),
        encode(normal(v)) == encode(v),
    decreases v,
{
    match v {
        Value::ByteString(b) => {
            if valid_utf8(b) {
                decode_utf8_encode_utf8(b);
            }
        },
        Value::List(items) => {
            lemma_normal_items(items);
        },
        Value::Dict(entries) => {
            lemma_normal_entries(entries);
            lemma_normal_entries_index(entries);
            let after = normal_entries(entries);
            assert forall|i: int, j: int| 0 <= i < j < after.len() implies key_lt(
                after[i].0,
                after[j].0,
            ) by {
                assert(key_lt(entries[i].0, entries[j].0));
            }
        },
        _ => {},
    }
}

proof fn lemma_normal_items(items: Seq<Value>)
    requires
        writable_items(items),
    ensures
        encode_items(normal_items(items)) == encode_items(items),
        forall|i: int|
            0 <= i < normal_items(items).len() ==> canonical(#[trigger] normal_items(items)[i]),
    decreases items,
{
    if items.len() > 0 {
        let tail = items.drop_first();
        let after = normal_items(items);
        lemma_normal(items[0]);
        lemma_normal_items(tail);
        assert(after[0] == normal(items[0]));
        assert(after.drop_first() =~= normal_items(tail));
        assert forall|i: int| 0 <= i < after.len() implies canonical(#[trigger] after[i]) by {
            if i > 0 {
                assert(after[i] == normal_items(tail)[i - 1]);
            }
        }
    }
}

proof fn lemma_normal_entries(entries: Seq<(Seq<char>, Value)>)
    requires
        writable_entries(entries),
    ensures
        encode_entries(normal_entries(entries)) == encode_entries(entries),
        canonical_entries(normal_entries(entries)),
    decreases entries,
{
    if entries.len() > 0 {
        let tail = entries.drop_first();
        let after = normal_entries(entries);
        lemma_normal(entries[0].1);
        lemma_normal_entries(tail);
        assert(after[0] == (entries[0].0, normal(entries[0].1)));
        assert(after.drop_first() =~= normal_entries(tail));
        assert forall|i: int| 0 <= i < after.len() implies encode_utf8(
            (#[trigger] after[i]).0,
        ).len() <= usize::MAX && canonical(after[i].1) by {
            if i > 0 {
                assert(after[i] == normal_entries(tail)[i - 1]);
            }
        }
    }
}

/// Two values that can be written and are written alike come back as the same value: they
/// differ at most in holding the same bytes once as text and once as a byte string.
pub proof fn lemma_encode_determines_normal(a: Value, b: Value)
    requires
        writable(a),
        writable(b),
        encode(a) == encode(b),
    ensures
        normal(a) == normal(b),
{
    lemma_normal(a);
    lemma_normal(b);
    lemma_encode_injective(normal(a), normal(b));
}

/// Reading back what was written gives the value as it comes back, for every value that can
/// be written.
pub proof fn lemma_decode_encode_normal(v: Value, rest: Seq<u8>)
    requires
        writable(v),
    ensures
        decode(encode(v) + rest) == read(normal(v), rest),
{
    lemma_normal(v);
    lemma_decode_encode(normal(v), rest);
}

/// A canonical value comes back as itself.
pub proof fn lemma_normal_of_canonical(v: Value)
    requires
        canonical(v),
    ensures
        normal(v) == v,
        writable(v),
    decreases v,
{
    match v {
        Value::List(items) => {
            lemma_normal_of_canonical_items(items);
        },
        Value::Dict(entries) => {
            lemma_normal_of_canonical_entries(entries);
        },
        _ => {},
    }
}

proof fn lemma_normal_of_canonical_items(items: Seq<Value>)
    requires
        forall|i: int| 0 <= i < items.len() ==> canonical(#[trigger] items[i]),
    ensures
        normal_items(items) == items,
        writable_items(items),
    decreases items,
{
    if items.len() > 0 {
        let tail = items.drop_first();
        lemma_normal_of_canonical(items[0]);
        assert forall|i: int| 0 <= i < tail.len() implies canonical(#[trigger] tail[i]) by {
            assert(tail[i] == items[i + 1]);
        }
        lemma_normal_of_canonical_items(tail);
        assert(normal_items(items) =~= items);
    } else {
        assert(normal_items(items) =~= items);
    }
}

/// A canonical list of entries comes back as itself.
pub proof fn lemma_normal_of_canonical_entries(entries: Seq<(Seq<char>, Value)>)
    requires
        canonical_entries(entries),
    ensures
        normal_entries(entries) == entries,
        writable_entries(entries),
    decreases entries,
{
    if entries.len() > 0 {
        let tail = entries.drop_first();
        assert(canonical(entries[0].1));
        lemma_normal_of_canonical(entries[0].1);
        assert forall|i: int| 0 <= i < tail.len() implies encode_utf8((#[trigger] tail[i]).0).len()
            <= usize::MAX && canonical(tail[i].1) by {
            assert(tail[i] == entries[i + 1]);
        }
        lemma_normal_of_canonical_entries(tail);
        assert(normal_entries(entries) =~= entries);
    } else {
        assert(normal_entries(entries) =~= entries);
    }
}

/// A list of entries can be written exactly when each of its entries can.
pub proof fn lemma_writable_entries_index(d: Seq<(Seq<char>, Value)>)
    ensures
        writable_entries(d) <==> (forall|i: int|
            0 <= i < d.len() ==> encode_utf8((#[trigger] d[i]).0).len() <= usize::MAX && writable(
                d[i].1,
            )),
    decreases d.len(),
{
    if d.len() > 0 {
        let tail = d.drop_first();
        lemma_writable_entries_index(tail);
        if writable_entries(d) {
            assert forall|i: int| 0 <= i < d.len() implies encode_utf8((#[trigger] d[i]).0).len()
                <= usize::MAX && writable(d[i].1) by {
                if i > 0 {
                    assert(d[i] == tail[i - 1]);
                }
            }
        }
        if forall|i: int|
            0 <= i < d.len() ==> encode_utf8((#[trigger] d[i]).0).len() <= usize::MAX && writable(
                d[i].1,
            ) {
            assert(encode_utf8(d[0].0).len() <= usize::MAX && writable(d[0].1));
            assert forall|i: int| 0 <= i < tail.len() implies encode_utf8(
                (#[trigger] tail[i]).0,
            ).len() <= usize::MAX && writable(tail[i].1) by {
                assert(tail[i] == d[i + 1]);
            }
        }
    }
}

/// A list of items can be written exactly when each of its items can.
pub proof fn lemma_writable_items_index(items: Seq<Value>)
    ensures
        writable_items(items) <==> (forall|i: int|
            0 <= i < items.len() ==> writable(#[trigger] items[i])),
    decreases items.len(),
{
    if items.len() > 0 {
        let tail = items.drop_first();
        lemma_writable_items_index(tail);
        if writable_items(items) {
            assert forall|i: int| 0 <= i < items.len() implies writable(#[trigger] items[i]) by {
                if i > 0 {
                    assert(items[i] == tail[i - 1]);
                }
            }
        }
        if forall|i: int| 0 <= i < items.len() ==> writable(#[trigger] items[i]) {
            assert(writable(items[0]));
            assert forall|i: int| 0 <= i < tail.len() implies writable(#[trigger] tail[i]) by {
                assert(tail[i] == items[i + 1]);
            }
        }
    }
}

} // verus!
