//! Decimal text of integers: the canonical rendering and its inverse.

use vstd::prelude::*;
use crate::encoding::text::push_char;

verus! {

/// The digit `0`.
pub const ZERO: u8 = 48;

/// The digit `9`.
pub const NINE: u8 = 57;

/// The sign `-`.
pub const MINUS: u8 = 45;

/// The ASCII digit for `d`, where `0 <= d <= 9`.
pub open spec fn digit_byte(d: int) -> u8 {
    (ZERO + d) as u8
}

/// An ASCII digit.
pub open spec fn is_digit(b: u8) -> bool {
    ZERO <= b <= NINE
}

/// Every byte is an ASCII digit.
pub open spec fn all_digits(s: Seq<u8>) -> bool {
    forall|i: int| 0 <= i < s.len() ==> is_digit(#[trigger] s[i])
}

/// Canonical decimal text of a natural number: no leading zero, `0` for zero.
pub open spec fn nat_digits(n: nat) -> Seq<u8>
    decreases n,
{
    if n < 10 {
        seq![digit_byte(n as int)]
    } else {
        nat_digits(n / 10).push(digit_byte((n % 10) as int))
    }
}

/// Canonical decimal text of an integer: a single `-` before a negative number, never `-0`.
pub open spec fn int_digits(n: int) -> Seq<u8> {
    if n < 0 {
        seq![MINUS] + nat_digits((-n) as nat)
    } else {
        nat_digits(n as nat)
    }
}

/// The number that a run of digits denotes, most significant digit first. Leading zeros count
/// for nothing; the empty run denotes 0.
pub open spec fn digits_value(s: Seq<u8>) -> nat
    decreases s.len(),
{
    if s.len() == 0 {
        0
    } else {
        (digits_value(s.drop_last()) * 10 + (s.last() - ZERO)) as nat
    }
}

/// A nonempty run of digits that is `0` itself or does not start with `0`.
pub open spec fn is_canonical_nat(s: Seq<u8>) -> bool {
    s.len() > 0 && all_digits(s) && (s.len() == 1 || s[0] != ZERO)
}

/// Reads a canonical integer that fits between `low` and `high`; `None` for any other text.
/// Accepted is exactly the text that `int_digits` writes.
pub open spec fn parse_canonical_int(s: Seq<u8>, low: int, high: int) -> Option<int> {
    let negative = s.len() > 0 && s[0] == MINUS;
    let body = if negative {
        s.drop_first()
    } else {
        s
    };
    let value = if negative {
        -(digits_value(body) as int)
    } else {
        digits_value(body) as int
    };
    if is_canonical_nat(body) && !(negative && value == 0) && low <= value <= high {
        Some(value)
    } else {
        None
    }
}

/// Reads a length: a canonical digit run, without a sign and without a leading zero unless
/// it is `0` itself, whose value is at most `high`; `None` for any other text. Accepted is
/// exactly the text that `nat_digits` writes.
pub open spec fn parse_length(s: Seq<u8>, high: int) -> Option<nat> {
    if is_canonical_nat(s) && digits_value(s) <= high {
        Some(digits_value(s))
    } else {
        None
    }
}

/// What `nat_digits` writes is a canonical digit run that denotes the number; it is `0`
/// for zero alone.
pub proof fn lemma_nat_digits_canonical(n: nat)
    ensures
        is_canonical_nat(nat_digits(n)),
        digits_value(nat_digits(n)) == n,
        n == 0 <==> nat_digits(n) == seq![ZERO],
    decreases n,
{
    if n < 10 {
        let s = nat_digits(n);
        assert(s.drop_last() =~= Seq::<u8>::empty());
        assert(digits_value(s.drop_last()) == 0);
        assert(s.last() == ZERO + n);
        if n != 0 {
            assert(s[0] != ZERO);
        }
    } else {
        lemma_nat_digits_canonical(n / 10);
        let p = nat_digits(n / 10);
        let s = nat_digits(n);
        assert(s == p.push(digit_byte((n % 10) as int)));
        assert(s.drop_last() =~= p);
        assert(s[0] == p[0]);
        assert(p != seq![ZERO]);
        if p.len() == 1 {
            assert(p =~= seq![p[0]]);
        }
        assert(s.len() >= 2);
        assert(s != seq![ZERO]);
    }
}

/// A canonical digit run is what `nat_digits` writes for the number that it denotes.
pub proof fn lemma_digits_value_canonical(s: Seq<u8>)
    requires
        is_canonical_nat(s),
    ensures
        nat_digits(digits_value(s)) == s,
        s.len() > 1 ==> digits_value(s) >= 10,
        s.len() > 1 ==> digits_value(s.drop_last()) >= 1,
    decreases s.len(),
{
    let p = s.drop_last();
    if s.len() == 1 {
        assert(p =~= Seq::<u8>::empty());
        assert(digits_value(p) == 0);
        assert(nat_digits(digits_value(s)) =~= s);
    } else {
        assert(p[0] == s[0]);
        assert(forall|i: int| 0 <= i < p.len() ==> p[i] == s[i]);
        if p.len() == 1 {
            assert(p.drop_last() =~= Seq::<u8>::empty());
            assert(digits_value(p.drop_last()) == 0);
            assert(digits_value(p) == p[0] - ZERO);
            assert(digits_value(p) >= 1);
        } else {
            lemma_digits_value_canonical(p);
        }
        let v = digits_value(s);
        let d = (s.last() - ZERO) as int;
        assert(v == digits_value(p) * 10 + d);
        assert(v / 10 == digits_value(p) && v % 10 == d);
        assert(nat_digits(v) == nat_digits(v / 10).push(digit_byte((v % 10) as int)));
        assert(nat_digits(v) =~= s);
    }
}

/// A prefix of a digit run never denotes more than the whole run.
pub proof fn lemma_digits_value_prefix(s: Seq<u8>, k: int)
    requires
        all_digits(s),
        0 <= k <= s.len(),
    ensures
        digits_value(s.subrange(0, k)) <= digits_value(s),
    decreases s.len() - k,
{
    if k == s.len() {
        assert(s.subrange(0, k) =~= s);
    } else {
        lemma_digits_value_prefix(s, k + 1);
        let q = s.subrange(0, k + 1);
        assert(q.drop_last() =~= s.subrange(0, k));
        assert(is_digit(q.last()));
    }
}

/// Reading back what `int_digits` wrote gives the number again.
pub proof fn lemma_parse_int_digits(n: int, low: int, high: int)
    requires
        low <= n <= high,
    ensures
        parse_canonical_int(int_digits(n), low, high) == Some(n),
{
    if n < 0 {
        let m = (-n) as nat;
        lemma_nat_digits_canonical(m);
        let s = int_digits(n);
        assert(s.drop_first() =~= nat_digits(m));
    } else {
        lemma_nat_digits_canonical(n as nat);
        let s = int_digits(n);
        assert(is_digit(s[0]));
    }
}

/// Reading back what `nat_digits` wrote gives the number again, and text that reads as a
/// length is the text that `nat_digits` writes for it.
pub proof fn lemma_parse_length(s: Seq<u8>, n: nat, high: int)
    ensures
        n <= high ==> parse_length(nat_digits(n), high) == Some(n),
        parse_length(s, high) == Some(n) ==> nat_digits(n) == s,
{
    lemma_nat_digits_canonical(n);
    if parse_length(s, high) == Some(n) {
        lemma_digits_value_canonical(s);
    }
}

/// Text that reads as a canonical integer is the text that `int_digits` writes for it.
pub proof fn lemma_int_digits_parse(s: Seq<u8>, low: int, high: int)
    requires
        parse_canonical_int(s, low, high) is Some,
    ensures
        int_digits(parse_canonical_int(s, low, high)->0) == s,
{
    let negative = s.len() > 0 && s[0] == MINUS;
    if negative {
        let body = s.drop_first();
        lemma_digits_value_canonical(body);
        assert(s =~= seq![MINUS] + body);
    } else {
        lemma_digits_value_canonical(s);
    }
}

/// Appends the canonical decimal text of `n`.
pub fn push_decimal(n: u64, out: &mut Vec<u8>)
    ensures
        final(out)@ == old(out)@ + nat_digits(n as nat),
    decreases n,
{
    if n >= 10 {
        push_decimal(n / 10, out);
    }
    let digit: u8 = (n % 10) as u8;
    out.push(ZERO + digit);
    assert(final(out)@ =~= old(out)@ + nat_digits(n as nat));
}

/// Appends the canonical decimal text of a signed integer.
pub fn push_int_decimal(n: isize, out: &mut Vec<u8>)
    ensures
        final(out)@ == old(out)@ + int_digits(n as int),
{
    if n < 0 {
        out.push(MINUS);
        let magnitude: u64 = (-(n as i128)) as u64;
        push_decimal(magnitude, out);
        assert(final(out)@ =~= old(out)@ + int_digits(n as int));
    } else {
        push_decimal(n as u64, out);
    }
}

/// Reads the digit run `s[start..]`. `None` when the run is empty, holds a byte that is no
/// digit, or denotes more than `limit`.
fn read_digits(s: &[u8], start: usize, limit: u64) -> (value: Option<u64>)
    requires
        start <= s@.len(),
    ensures
        ({
            let body = s@.subrange(start as int, s@.len() as int);
            if body.len() > 0 && all_digits(body) && digits_value(body) <= limit {
                value == Some(digits_value(body) as u64)
            } else {
                value is None
            }
        }),
{
    let ghost body = s@.subrange(start as int, s@.len() as int);
    let length: usize = s.len();
    if start == length {
        return None;
    }
    let mut acc: u64 = 0;
    let mut i: usize = start;
    assert(body.subrange(0, 0) =~= Seq::<u8>::empty());
    while i < length
        invariant
            start <= i <= length,
            length == s@.len(),
            body == s@.subrange(start as int, s@.len() as int),
            all_digits(body.subrange(0, i - start)),
            acc == digits_value(body.subrange(0, i - start)),
            acc <= limit,
        decreases length - i,
    {
        let b: u8 = s[i];
        let ghost next = body.subrange(0, i - start + 1);
        assert(next.drop_last() =~= body.subrange(0, i - start));
        assert(next.last() == b);
        if b < ZERO || b > NINE {
            assert(!is_digit(body[i - start]));
            return None;
        }
        let d: u64 = (b - ZERO) as u64;
        if limit < d || acc > (limit - d) / 10 {
            proof {
                assert(all_digits(next)) by {
                    assert forall|j: int| 0 <= j < next.len() implies is_digit(
                        #[trigger] next[j],
                    ) by {
                        if j < next.len() - 1 {
                            assert(next[j] == body.subrange(0, i - start)[j]);
                        }
                    }
                }
                assert(digits_value(next) == acc * 10 + d);
                assert(digits_value(next) > limit);
                if all_digits(body) {
                    lemma_digits_value_prefix(body, i - start + 1);
                }
            }
            return None;
        }
        acc = acc * 10 + d;
        i += 1;
        proof {
            assert forall|j: int| 0 <= j < next.len() implies is_digit(#[trigger] next[j]) by {
                if j < next.len() - 1 {
                    assert(next[j] == body.subrange(0, i - 1 - start)[j]);
                }
            }
        }
    }
    assert(body.subrange(0, i - start) =~= body);
    Some(acc)
}

/// Reads a canonical signed integer: the exact inverse of `push_int_decimal`.
pub fn read_canonical_int(s: &[u8]) -> (value: Option<isize>)
    ensures
        match parse_canonical_int(s@, isize::MIN as int, isize::MAX as int) {
            Some(v) => value == Some(v as isize),
            None => value is None,
        },
{
    let length: usize = s.len();
    let negative: bool = length > 0 && s[0] == MINUS;
    let start: usize = if negative { 1 } else { 0 };
    let ghost body = s@.subrange(start as int, s@.len() as int);
    proof {
        if negative {
            assert(body =~= s@.drop_first());
        } else {
            assert(body =~= s@);
        }
    }
    if length - start > 1 && s[start] == ZERO {
        assert(body[0] == ZERO);
        return None;
    }
    let limit: u64 = if negative { isize::MAX as u64 + 1 } else { isize::MAX as u64 };
    match read_digits(s, start, limit) {
        None => None,
        Some(magnitude) => {
            if negative {
                if magnitude == 0 {
                    None
                } else {
                    Some((-(magnitude as i128)) as isize)
                }
            } else {
                Some(magnitude as isize)
            }
        },
    }
}

/// Reads a length prefix: a canonical digit run that fits in `usize`; the exact inverse of
/// `push_decimal` on such numbers.
pub fn read_length(s: &[u8]) -> (value: Option<usize>)
    ensures
        match parse_length(s@, usize::MAX as int) {
            Some(v) => value == Some(v as usize),
            None => value is None,
        },
{
    if s.len() > 1 && s[0] == ZERO {
        return None;
    }
    assert(s@.subrange(0, s@.len() as int) =~= s@);
    match read_digits(s, 0, usize::MAX as u64) {
        None => None,
        Some(v) => Some(v as usize),
    }
}

/// Bytes below 128 as the characters they stand for.
pub open spec fn ascii_text(bytes: Seq<u8>) -> Seq<char> {
    Seq::new(bytes.len(), |i: int| bytes[i] as char)
}

/// The decimal text of a natural number, as characters.
pub open spec fn decimal_text(n: nat) -> Seq<char> {
    ascii_text(nat_digits(n))
}

/// The decimal text of an integer, as characters.
pub open spec fn int_text(n: int) -> Seq<char> {
    ascii_text(int_digits(n))
}

/// Appends ASCII bytes as characters.
fn append_ascii(text: &mut String, bytes: &Vec<u8>)
    ensures
        final(text)@ == old(text)@ + ascii_text(bytes@),
{
    let ghost start = text@;
    let mut i: usize = 0;
    assert(ascii_text(bytes@).subrange(0, 0) =~= Seq::<char>::empty());
    while i < bytes.len()
        invariant
            i <= bytes@.len(),
            text@ == start + ascii_text(bytes@).subrange(0, i as int),
        decreases bytes@.len() - i,
    {
        push_char(text, bytes[i] as char);
        i += 1;
        assert(text@ =~= start + ascii_text(bytes@).subrange(0, i as int));
    }
    assert(ascii_text(bytes@).subrange(0, i as int) =~= ascii_text(bytes@));
}

/// Appends the decimal text of `n`.
pub fn append_decimal(text: &mut String, n: usize)
    ensures
        final(text)@ == old(text)@ + decimal_text(n as nat),
{
    let mut digits: Vec<u8> = Vec::new();
    push_decimal(n as u64, &mut digits);
    assert(digits@ =~= nat_digits(n as nat));
    append_ascii(text, &digits);
}

/// Appends the decimal text of a signed integer.
pub fn append_int_decimal(text: &mut String, n: isize)
    ensures
        final(text)@ == old(text)@ + int_text(n as int),
{
    let mut digits: Vec<u8> = Vec::new();
    push_int_decimal(n, &mut digits);
    assert(digits@ =~= int_digits(n as int));
    append_ascii(text, &digits);
}

} // verus!
