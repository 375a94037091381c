//! The mathematical model of bencode values and of dictionaries as sorted entry lists.

use vstd::prelude::*;
use vstd::utf8::*;
use crate::encoding::order::{
    key_lt, lemma_key_asymmetric, lemma_key_irreflexive, lemma_key_total, lemma_key_transitive,
};

verus! {

/// A bencode value as plain mathematics: what a `BTypes` denotes.
pub enum Value {
    Integer(int),
    TextString(Seq<char>),
    ByteString(Seq<u8>),
    List(Seq<Value>),
    Dict(Seq<(Seq<char>, Value)>),
}

/// Why a byte string was refused as bencode, or a value as what was asked for: what a
/// `BencodingError` denotes.
pub enum Fault {
    CharacterNotFound(char),
    ParseIntFailure,
    MalformedString(Seq<char>),
    IncorrectStartingCharacter(char),
    Nested(Seq<char>),
    InvalidType(char),
    InvalidBType(Value),
    OutOfBounds,
    MissingInputType(Seq<u8>),
    CouldNotParseUTF8,
    KeyNotFound(Seq<char>),
    NotDict,
    NotList,
    NotInt,
    NotByteStr,
    NotTextStr,
}

/// The keys of `d` ascend strictly, so none occurs twice.
pub open spec fn sorted_keys(d: Seq<(Seq<char>, Value)>) -> bool {
    forall|i: int, j: int| #![trigger d[i], d[j]] 0 <= i < j < d.len() ==> key_lt(d[i].0, d[j].0)
}

/// The keys of every dictionary in the value, at any depth, ascend strictly.
pub open spec fn ordered(v: Value) -> bool
    decreases v,
{
    match v {
        Value::List(items) => forall|i: int| 0 <= i < items.len() ==> ordered(#[trigger] items[i]),
        Value::Dict(entries) => sorted_keys(entries) && forall|i: int|
            0 <= i < entries.len() ==> ordered((#[trigger] entries[i]).1),
        _ => true,
    }
}

/// The first index from `i` on whose key is `k`, or the length when there is none.
pub open spec fn find_key(d: Seq<(Seq<char>, Value)>, k: Seq<char>, i: int) -> int
    decreases d.len() - i,
{
    if i >= d.len() {
        d.len() as int
    } else if d[i].0 == k {
        i
    } else {
        find_key(d, k, i + 1)
    }
}

/// The first index from `i` on whose key is not below `k`, or the length when there is none.
pub open spec fn lower_bound(d: Seq<(Seq<char>, Value)>, k: Seq<char>, i: int) -> int
    decreases d.len() - i,
{
    if i >= d.len() {
        d.len() as int
    } else if !key_lt(d[i].0, k) {
        i
    } else {
        lower_bound(d, k, i + 1)
    }
}

/// Whether `d` holds an entry for `k`.
pub open spec fn dict_has(d: Seq<(Seq<char>, Value)>, k: Seq<char>) -> bool {
    find_key(d, k, 0) < d.len()
}

/// The value stored under `k`.
pub open spec fn dict_get(d: Seq<(Seq<char>, Value)>, k: Seq<char>) -> Option<Value> {
    if dict_has(d, k) {
        Some(d[find_key(d, k, 0)].1)
    } else {
        None
    }
}

/// `d` without the entry for `k`.
pub open spec fn dict_remove(d: Seq<(Seq<char>, Value)>, k: Seq<char>) -> Seq<(Seq<char>, Value)> {
    if dict_has(d, k) {
        d.remove(find_key(d, k, 0))
    } else {
        d
    }
}

/// `d` with `k` bound to `v`: the old entry for `k` is replaced, a new key goes to its place
/// in the order.
pub open spec fn dict_insert(d: Seq<(Seq<char>, Value)>, k: Seq<char>, v: Value) -> Seq<
    (Seq<char>, Value),
> {
    let p = lower_bound(d, k, 0);
    if p < d.len() && d[p].0 == k {
        d.update(p, (k, v))
    } else {
        d.insert(p, (k, v))
    }
}

/// `base` after inserting the entries of `more` one by one, first to last.
pub open spec fn dict_extend(base: Seq<(Seq<char>, Value)>, more: Seq<(Seq<char>, Value)>) -> Seq<
    (Seq<char>, Value),
>
    decreases more.len(),
{
    if more.len() == 0 {
        base
    } else {
        dict_insert(dict_extend(base, more.drop_last()), more.last().0, more.last().1)
    }
}

/// Takes the entry for `key` out of a dictionary value: the entry's value and the dictionary
/// that is left.
pub open spec fn take_key(v: Value, key: Seq<char>) -> Result<(Value, Value), Fault> {
    match v {
        Value::Dict(d) => match dict_get(d, key) {
            Some(found) => Ok((found, Value::Dict(dict_remove(d, key)))),
            None => Err(Fault::KeyNotFound(key)),
        },
        _ => Err(Fault::NotDict),
    }
}

/// `find_key` gives an index in range: no entry between `i` and it bears the key, and the
/// entry at it does, unless it is the length.
pub proof fn lemma_find_key(d: Seq<(Seq<char>, Value)>, k: Seq<char>, i: int)
    requires
        0 <= i <= d.len(),
    ensures
        i <= find_key(d, k, i) <= d.len(),
        forall|j: int| i <= j < find_key(d, k, i) ==> (#[trigger] d[j]).0 != k,
        find_key(d, k, i) < d.len() ==> d[find_key(d, k, i)].0 == k,
    decreases d.len() - i,
{
    if i < d.len() && d[i].0 != k {
        lemma_find_key(d, k, i + 1);
    }
}

/// `lower_bound` gives an index in range: every key between `i` and it is below `k`, and
/// the key at it is not, unless it is the length.
pub proof fn lemma_lower_bound(d: Seq<(Seq<char>, Value)>, k: Seq<char>, i: int)
    requires
        0 <= i <= d.len(),
    ensures
        i <= lower_bound(d, k, i) <= d.len(),
        forall|j: int| i <= j < lower_bound(d, k, i) ==> key_lt((#[trigger] d[j]).0, k),
        lower_bound(d, k, i) < d.len() ==> !key_lt(d[lower_bound(d, k, i)].0, k),
    decreases d.len() - i,
{
    if i < d.len() && key_lt(d[i].0, k) {
        lemma_lower_bound(d, k, i + 1);
    }
}

/// In a sorted list the entry for a key is found at the one index that holds it.
pub proof fn lemma_find_key_unique(d: Seq<(Seq<char>, Value)>, k: Seq<char>, at: int)
    requires
        sorted_keys(d),
        0 <= at < d.len(),
        d[at].0 == k,
    ensures
        find_key(d, k, 0) == at,
        dict_get(d, k) == Some(d[at].1),
{
    lemma_find_key(d, k, 0);
    let f = find_key(d, k, 0);
    if f < at {
        assert(key_lt(d[f].0, d[at].0));
        lemma_key_irreflexive(k);
    }
}

/// In a sorted list everything from the lower bound of `k` on is at or above `k`.
pub proof fn lemma_lower_bound_sorted(d: Seq<(Seq<char>, Value)>, k: Seq<char>)
    requires
        sorted_keys(d),
    ensures
        forall|j: int| lower_bound(d, k, 0) <= j < d.len() ==> !key_lt((#[trigger] d[j]).0, k),
        forall|j: int|
            lower_bound(d, k, 0) <= j < d.len() && (#[trigger] d[j]).0 != k ==> key_lt(k, d[j].0),
{
    lemma_lower_bound(d, k, 0);
    let p = lower_bound(d, k, 0);
    assert forall|j: int| p <= j < d.len() implies !key_lt((#[trigger] d[j]).0, k) by {
        if j > p && key_lt(d[j].0, k) {
            assert(key_lt(d[p].0, d[j].0));
            lemma_key_transitive(d[p].0, d[j].0, k);
        }
    }
    assert forall|j: int| p <= j < d.len() && (#[trigger] d[j]).0 != k implies key_lt(
        k,
        d[j].0,
    ) by {
        lemma_key_total(k, d[j].0);
    }
}

/// Inserting into a sorted list leaves it sorted, binds the key to the value and leaves
/// every other key as it was.
pub proof fn lemma_insert_sorted(d: Seq<(Seq<char>, Value)>, k: Seq<char>, v: Value)
    requires
        sorted_keys(d),
    ensures
        sorted_keys(dict_insert(d, k, v)),
        dict_get(dict_insert(d, k, v), k) == Some(v),
        forall|other: Seq<char>|
            other != k ==> #[trigger] dict_get(dict_insert(d, k, v), other) == dict_get(d, other),
{
    lemma_lower_bound(d, k, 0);
    lemma_lower_bound_sorted(d, k);
    let p = lower_bound(d, k, 0);
    let r = dict_insert(d, k, v);
    if p < d.len() && d[p].0 == k {
        assert forall|i: int, j: int| 0 <= i < j < r.len() implies key_lt(r[i].0, r[j].0) by {
            assert(key_lt(d[i].0, d[j].0));
        }
        assert(r[p] == (k, v));
        lemma_find_key_unique(r, k, p);
        assert forall|other: Seq<char>| other != k implies #[trigger] dict_get(r, other)
            == dict_get(d, other) by {
            lemma_find_key(d, other, 0);
            lemma_find_key(r, other, 0);
            let f = find_key(d, other, 0);
            let g = find_key(r, other, 0);
            if f < d.len() {
                assert(r[f] == d[f]);
                lemma_find_key_unique(r, other, f);
            } else if g < r.len() {
                assert(r[g].0 == d[g].0);
            }
        }
    } else {
        assert forall|i: int, j: int| 0 <= i < j < r.len() implies key_lt(r[i].0, r[j].0) by {
            if j < p {
                assert(key_lt(d[i].0, d[j].0));
            } else if j == p {
                assert(r[i] == d[i]);
            } else if i < p {
                assert(r[i] == d[i] && r[j] == d[j - 1]);
                assert(key_lt(d[i].0, d[j - 1].0));
            } else if i == p {
                assert(r[j] == d[j - 1]);
            } else {
                assert(r[i] == d[i - 1] && r[j] == d[j - 1]);
                assert(key_lt(d[i - 1].0, d[j - 1].0));
            }
        }
        assert(r[p] == (k, v));
        lemma_find_key_unique(r, k, p);
        assert forall|other: Seq<char>| other != k implies #[trigger] dict_get(r, other)
            == dict_get(d, other) by {
            lemma_find_key(d, other, 0);
            lemma_find_key(r, other, 0);
            let f = find_key(d, other, 0);
            let g = find_key(r, other, 0);
            if f < d.len() {
                let at = if f < p {
                    f
                } else {
                    f + 1
                };
                assert(r[at] == d[f]);
                lemma_find_key_unique(r, other, at);
            } else if g < r.len() {
                if g < p {
                    assert(r[g] == d[g]);
                } else {
                    assert(r[g] == d[g - 1]);
                }
            }
        }
    }
}

/// Removing from a sorted list leaves it sorted, unbinds the key and leaves every other
/// key as it was.
pub proof fn lemma_remove_sorted(d: Seq<(Seq<char>, Value)>, k: Seq<char>)
    requires
        sorted_keys(d),
    ensures
        sorted_keys(dict_remove(d, k)),
        dict_get(dict_remove(d, k), k) is None,
        forall|other: Seq<char>|
            other != k ==> #[trigger] dict_get(dict_remove(d, k), other) == dict_get(d, other),
{
    lemma_find_key(d, k, 0);
    let p = find_key(d, k, 0);
    let r = dict_remove(d, k);
    if p < d.len() {
        assert forall|i: int, j: int| 0 <= i < j < r.len() implies key_lt(r[i].0, r[j].0) by {
            let a = if i < p {
                i
            } else {
                i + 1
            };
            let b = if j < p {
                j
            } else {
                j + 1
            };
            assert(r[i] == d[a] && r[j] == d[b]);
            assert(key_lt(d[a].0, d[b].0));
        }
        lemma_find_key(r, k, 0);
        let g = find_key(r, k, 0);
        if g < r.len() {
            let b = if g < p {
                g
            } else {
                g + 1
            };
            assert(r[g] == d[b]);
            lemma_find_key_unique(d, k, b);
        }
        assert forall|other: Seq<char>| other != k implies #[trigger] dict_get(r, other)
            == dict_get(d, other) by {
            lemma_find_key(d, other, 0);
            lemma_find_key(r, other, 0);
            let f = find_key(d, other, 0);
            let h = find_key(r, other, 0);
            if f < d.len() {
                let at = if f < p {
                    f
                } else {
                    f - 1
                };
                assert(r[at] == d[f]);
                lemma_find_key_unique(r, other, at);
            } else if h < r.len() {
                if h < p {
                    assert(r[h] == d[h]);
                } else {
                    assert(r[h] == d[h + 1]);
                }
            }
        }
    }
}

/// Two sorted lists that bind every key alike are the same list.
pub proof fn lemma_sorted_extensional(a: Seq<(Seq<char>, Value)>, b: Seq<(Seq<char>, Value)>)
    requires
        sorted_keys(a),
        sorted_keys(b),
        forall|k: Seq<char>| dict_get(a, k) == dict_get(b, k),
    ensures
        a == b,
    decreases a.len() + b.len(),
{
    if a.len() == 0 || b.len() == 0 {
        if a.len() > 0 {
            lemma_find_key_unique(a, a[0].0, 0);
            lemma_find_key(b, a[0].0, 0);
        }
        if b.len() > 0 {
            lemma_find_key_unique(b, b[0].0, 0);
            lemma_find_key(a, b[0].0, 0);
        }
        assert(a =~= b);
    } else {
        let la = a.len() - 1;
        let lb = b.len() - 1;
        lemma_find_key_unique(a, a[la].0, la);
        lemma_find_key_unique(b, b[lb].0, lb);
        lemma_find_key(b, a[la].0, 0);
        lemma_find_key(a, b[lb].0, 0);
        let x = find_key(b, a[la].0, 0);
        let y = find_key(a, b[lb].0, 0);
        assert(b[x].0 == a[la].0 && a[y].0 == b[lb].0);
        if x < lb {
            assert(key_lt(b[x].0, b[lb].0));
            if y < la {
                assert(key_lt(a[y].0, a[la].0));
                lemma_key_asymmetric(b[x].0, b[lb].0);
            } else {
                lemma_key_irreflexive(a[la].0);
            }
        }
        assert(a[la].0 == b[lb].0);
        assert(a[la] == b[lb]);
        let a0 = a.drop_last();
        let b0 = b.drop_last();
        assert forall|k: Seq<char>| dict_get(a0, k) == dict_get(b0, k) by {
            lemma_drop_last_get(a, k);
            lemma_drop_last_get(b, k);
        }
        lemma_sorted_extensional(a0, b0);
        assert(a =~= a0.push(a[la]));
        assert(b =~= b0.push(b[lb]));
    }
}

/// What a sorted list without its last entry binds.
pub proof fn lemma_drop_last_get(d: Seq<(Seq<char>, Value)>, k: Seq<char>)
    requires
        sorted_keys(d),
        d.len() > 0,
    ensures
        sorted_keys(d.drop_last()),
        dict_get(d.drop_last(), k) == if k == d.last().0 {
            None
        } else {
            dict_get(d, k)
        },
{
    let p = d.drop_last();
    assert forall|i: int, j: int| 0 <= i < j < p.len() implies key_lt(p[i].0, p[j].0) by {
        assert(key_lt(d[i].0, d[j].0));
    }
    lemma_find_key(d, k, 0);
    lemma_find_key(p, k, 0);
    let f = find_key(d, k, 0);
    let g = find_key(p, k, 0);
    if g < p.len() {
        assert(p[g] == d[g]);
        lemma_find_key_unique(d, k, g);
        if k == d.last().0 {
            lemma_find_key_unique(d, k, d.len() - 1);
        }
    } else if f < d.len() - 1 {
        assert(p[f] == d[f]);
    } else if f == d.len() - 1 {
    }
}

/// What a sorted list binds after the entries of another sorted list were inserted: the
/// inserted entries come first.
pub proof fn lemma_extend_sorted_get(base: Seq<(Seq<char>, Value)>, more: Seq<(Seq<char>, Value)>)
    requires
        sorted_keys(base),
        sorted_keys(more),
    ensures
        sorted_keys(dict_extend(base, more)),
        forall|k: Seq<char>| #[trigger]
            dict_get(dict_extend(base, more), k) == if dict_get(more, k) is Some {
                dict_get(more, k)
            } else {
                dict_get(base, k)
            },
    decreases more.len(),
{
    if more.len() > 0 {
        let front = more.drop_last();
        let last = more.last();
        lemma_drop_last_get(more, last.0);
        lemma_extend_sorted_get(base, front);
        let before = dict_extend(base, front);
        lemma_insert_sorted(before, last.0, last.1);
        lemma_find_key_unique(more, last.0, more.len() - 1);
        assert forall|k: Seq<char>| #[trigger]
            dict_get(dict_extend(base, more), k) == if dict_get(more, k) is Some {
                dict_get(more, k)
            } else {
                dict_get(base, k)
            } by {
            lemma_drop_last_get(more, k);
            if k != last.0 {
                assert(dict_get(dict_extend(base, more), k) == dict_get(before, k));
            }
        }
    } else {
        assert forall|k: Seq<char>| dict_get(more, k) is None by {
            lemma_find_key(more, k, 0);
        }
    }
}

/// The empty list is sorted and binds nothing.
pub proof fn lemma_empty_dict()
    ensures
        sorted_keys(Seq::<(Seq<char>, Value)>::empty()),
        forall|k: Seq<char>| #[trigger] dict_get(Seq::<(Seq<char>, Value)>::empty(), k) is None,
{
    assert forall|k: Seq<char>| #[trigger]
        dict_get(Seq::<(Seq<char>, Value)>::empty(), k) is None by {
        lemma_find_key(Seq::<(Seq<char>, Value)>::empty(), k, 0);
    }
}

} // verus!
