//! Bencode values as held in memory.

use vstd::prelude::*;
use vstd::utf8::*;
use crate::decimal::{push_decimal, push_int_decimal};
use crate::encoding::errors::BencodingError;
use crate::encoding::grammar::{
    encode, encode_entries, encode_items, encode_payload, lemma_encode_entries_push,
    lemma_encode_items_push, COLON, DICT_LEAD, END, INTEGER_LEAD, LIST_LEAD,
};
use crate::encoding::laws::{
    lemma_writable_entries_index, lemma_writable_items_index, writable,
};
use crate::encoding::model::{
    dict_extend, dict_get, dict_has, dict_insert, dict_remove, find_key, lemma_find_key,
    lemma_find_key_unique, lemma_insert_sorted, lemma_lower_bound, lemma_lower_bound_sorted,
    lemma_remove_sorted, lower_bound, ordered, sorted_keys, take_key, Fault, Value,
};
use crate::encoding::order::{
    bytes_lt, key_lt, lemma_key_asymmetric, lemma_key_irreflexive, lemma_lex_total, lex_lt_from,
};

verus! {

/// A bencode value.
#[derive(Debug, PartialEq, Eq)]
pub enum BTypes {
    Integer(isize),
    TextString(String),
    ByteString(Vec<u8>),
    List(Vec<BTypes>),
    Dict(DictInner),
}

/// A dictionary: its entries in ascending order of their keys' bytes, no key twice.
#[derive(Debug, PartialEq, Eq)]
pub struct DictInner {
    pub(crate) entries: Vec<(String, BTypes)>,
}

impl View for BTypes {
    type V = Value;

    open spec fn view(&self) -> Value
        decreases self,
    {
        match self {
            BTypes::Integer(n) => Value::Integer(*n as int),
            BTypes::TextString(s) => Value::TextString(s@),
            BTypes::ByteString(b) => Value::ByteString(b@),
            BTypes::List(items) => Value::List(
                Seq::new(
                    items@.len(),
                    |i: int|
                        if 0 <= i < items@.len() {
                            items@[i].view()
                        } else {
                            Value::Integer(0)
                        },
                ),
            ),
            BTypes::Dict(d) => Value::Dict(d.view()),
        }
    }
}

impl View for DictInner {
    type V = Seq<(Seq<char>, Value)>;

    closed spec fn view(&self) -> Seq<(Seq<char>, Value)>
        decreases self,
    {
        Seq::new(
            self.entries@.len(),
            |i: int|
                if 0 <= i < self.entries@.len() {
                    (self.entries@[i].0@, self.entries@[i].1.view())
                } else {
                    (Seq::empty(), Value::Integer(0))
                },
        )
    }
}

impl Clone for BTypes {
    #[verifier::loop_isolation(false)]
    fn clone(&self) -> (copy: Self)
        ensures
            copy@ == self@,
        decreases self,
    {
        match self {
            BTypes::Integer(n) => BTypes::Integer(*n),
            BTypes::TextString(s) => BTypes::TextString(s.clone()),
            BTypes::ByteString(b) => BTypes::ByteString(b.clone()),
            BTypes::List(items) => {
                let mut copies: Vec<BTypes> = Vec::new();
                let mut i: usize = 0;
                while i < items.len()
                    invariant
                        i <= items@.len(),
                        copies@.len() == i,
                        forall|j: int| 0 <= j < i ==> copies@[j]@ == items@[j]@,
                    decreases items@.len() - i,
                {
                    copies.push(items[i].clone());
                    i += 1;
                }
                let copy = BTypes::List(copies);
                assert(copy@->List_0 =~= self@->List_0);
                copy
            },
            BTypes::Dict(d) => BTypes::Dict(d.clone()),
        }
    }
}

impl Clone for DictInner {
    fn clone(&self) -> (copy: Self)
        ensures
            copy@ == self@,
        decreases self,
    {
        proof {
            use_type_invariant(self);
        }
        let mut entries: Vec<(String, BTypes)> = Vec::new();
        let mut i: usize = 0;
        while i < self.entries.len()
            invariant
                i <= self.entries@.len(),
                entries@.len() == i,
                forall|j: int|
                    0 <= j < i ==> entries@[j].0@ == self.entries@[j].0@ && entries@[j].1@
                        == self.entries@[j].1@,
            decreases self.entries@.len() - i,
        {
            let key = self.entries[i].0.clone();
            let value = self.entries[i].1.clone();
            entries.push((key, value));
            i += 1;
        }
        proof {
            let ghost_copy = DictInner { entries };
            assert(ghost_copy@ =~= self@);
        }
        DictInner { entries }
    }
}

/// What a list of stored entries denotes.
pub open spec fn entries_view(entries: Seq<(String, BTypes)>) -> Seq<(Seq<char>, Value)> {
    Seq::new(entries.len(), |i: int| (entries[i].0@, entries[i].1@))
}

/// A dictionary denotes what its stored entries denote.
pub(crate) proof fn lemma_dict_view(d: DictInner)
    ensures
        d@ == entries_view(d.entries@),
{
    assert(d@ =~= entries_view(d.entries@));
}

/// Where one key stands relative to another in the order of dictionaries.
#[derive(Debug, Clone, Copy, PartialEq, Eq, Structural)]
pub enum Position {
    Before,
    Same,
    After,
}

/// Orders two keys by their UTF-8 bytes.
#[verifier::loop_isolation(false)]
pub fn key_position(a: &str, b: &str) -> (position: Position)
    ensures
        position == Position::Before <==> key_lt(a@, b@),
        position == Position::Same <==> a@ == b@,
        position == Position::After <==> key_lt(b@, a@),
{
    let x = a.as_bytes();
    let y = b.as_bytes();
    let mut i: usize = 0;
    proof {
        encode_utf8_decode_utf8(a@);
        encode_utf8_decode_utf8(b@);
        lemma_key_irreflexive(a@);
        if key_lt(a@, b@) {
            lemma_key_asymmetric(a@, b@);
        }
        if key_lt(b@, a@) {
            lemma_key_asymmetric(b@, a@);
        }
        assert(x@.subrange(0, 0) =~= y@.subrange(0, 0));
    }
    while i < x.len() && i < y.len()
        invariant
            i <= x@.len(),
            i <= y@.len(),
            x@.subrange(0, i as int) == y@.subrange(0, i as int),
            bytes_lt(x@, y@) == lex_lt_from(x@, y@, i as int),
            bytes_lt(y@, x@) == lex_lt_from(y@, x@, i as int),
        decreases x@.len() - i,
    {
        if x[i] < y[i] {
            return Position::Before;
        }
        if x[i] > y[i] {
            return Position::After;
        }
        proof {
            assert(x@.subrange(0, i + 1) =~= x@.subrange(0, i as int).push(x@[i as int]));
            assert(y@.subrange(0, i + 1) =~= y@.subrange(0, i as int).push(y@[i as int]));
        }
        i += 1;
    }
    if i < y.len() {
        Position::Before
    } else if i < x.len() {
        Position::After
    } else {
        proof {
            lemma_lex_total(x@, y@, i as int);
        }
        Position::Same
    }
}

impl DictInner {
    /// The keys ascend strictly: what every dictionary keeps true of itself.
    #[verifier::type_invariant]
    pub open spec fn ascending(self) -> bool {
        sorted_keys(self@)
    }

    /// The empty dictionary.
    pub fn new() -> (d: Self)
        ensures
            d@ == Seq::<(Seq<char>, Value)>::empty(),
    {
        let d = DictInner { entries: Vec::new() };
        assert(d@ =~= Seq::<(Seq<char>, Value)>::empty());
        d
    }

    /// The number of entries.
    pub fn len(&self) -> (n: usize)
        ensures
            n == self@.len(),
            sorted_keys(self@),
    {
        proof {
            use_type_invariant(self);
        }
        self.entries.len()
    }

    /// The entry at `index` in the order of the keys; `None` past the last one.
    pub fn entry_at(&self, index: usize) -> (entry: Option<(&str, &BTypes)>)
        ensures
            index < self@.len() ==> (entry matches Some((key, value)) && key@
                == self@[index as int].0 && value@ == self@[index as int].1),
            index >= self@.len() ==> entry is None,
    {
        if index < self.entries.len() {
            Some((self.entries[index].0.as_str(), &self.entries[index].1))
        } else {
            None
        }
    }

    /// The index of the entry for `key`, or the length when there is none.
    #[verifier::loop_isolation(false)]
    fn position_of(&self, key: &str) -> (at: usize)
        ensures
            at == find_key(self@, key@, 0),
            at <= self.entries@.len(),
            self@.len() == self.entries@.len(),
            sorted_keys(self@),
    {
        proof {
            use_type_invariant(self);
            lemma_find_key(self@, key@, 0);
        }
        let mut i: usize = 0;
        while i < self.entries.len()
            invariant
                i <= self.entries@.len(),
                self@.len() == self.entries@.len(),
                forall|j: int| 0 <= j < i ==> (#[trigger] self@[j]).0 != key@,
            decreases self.entries@.len() - i,
        {
            if key_position(self.entries[i].0.as_str(), key) == Position::Same {
                assert(self@[i as int].0 == key@);
                return i;
            }
            i += 1;
        }
        i
    }

    /// The value stored under `key`.
    pub fn get(&self, key: &str) -> (found: Option<&BTypes>)
        ensures
            match found {
                Some(value) => dict_get(self@, key@) == Some(value@),
                None => dict_get(self@, key@) is None,
            },
    {
        let at = self.position_of(key);
        if at < self.entries.len() {
            Some(&self.entries[at].1)
        } else {
            None
        }
    }

    /// Whether an entry for `key` is present.
    pub fn contains_key(&self, key: &str) -> (present: bool)
        ensures
            present == dict_has(self@, key@),
    {
        let at = self.position_of(key);
        at < self.entries.len()
    }

    /// Binds `key` to `value`; gives back the value that `key` was bound to before.
    pub fn insert(&mut self, key: String, value: BTypes) -> (previous: Option<BTypes>)
        ensures
            final(self)@ == dict_insert(old(self)@, key@, value@),
            sorted_keys(final(self)@),
            match previous {
                Some(before) => dict_get(old(self)@, key@) == Some(before@),
                None => dict_get(old(self)@, key@) is None,
            },
    {
        proof {
            use_type_invariant(&*self);
            lemma_lower_bound(self@, key@, 0);
            lemma_insert_sorted(self@, key@, value@);
            lemma_find_key(self@, key@, 0);
        }
        let mut i: usize = 0;
        let mut found: bool = false;
        while i < self.entries.len()
            invariant_except_break
                !found,
            invariant
                i <= self.entries@.len(),
                self@.len() == self.entries@.len(),
                forall|j: int| 0 <= j < i ==> key_lt((#[trigger] self@[j]).0, key@),
            ensures
                i <= self.entries@.len(),
                self@.len() == self.entries@.len(),
                forall|j: int| 0 <= j < i ==> key_lt((#[trigger] self@[j]).0, key@),
                i < self.entries@.len() ==> !key_lt(self@[i as int].0, key@),
                found <==> i < self.entries@.len() && self@[i as int].0 == key@,
            decreases self.entries@.len() - i,
        {
            let position = key_position(self.entries[i].0.as_str(), key.as_str());
            assert(self@[i as int].0 == self.entries@[i as int].0@);
            if position == Position::Same {
                proof {
                    lemma_key_irreflexive(key@);
                }
                found = true;
                break;
            }
            if position == Position::After {
                break;
            }
            i += 1;
        }
        assert(i == lower_bound(self@, key@, 0));
        let ghost before = self@;
        let mut entries: Vec<(String, BTypes)> = Vec::new();
        core::mem::swap(&mut self.entries, &mut entries);
        let previous = if found {
            proof {
                lemma_find_key_unique(before, key@, i as int);
            }
            let removed = entries.remove(i);
            entries.insert(i, (key, value));
            Some(removed.1)
        } else {
            proof {
                if dict_has(before, key@) {
                    let f = find_key(before, key@, 0);
                    if f < i {
                        lemma_key_irreflexive(key@);
                    } else {
                        lemma_lower_bound_sorted(before, key@);
                        lemma_key_irreflexive(key@);
                    }
                }
            }
            entries.insert(i, (key, value));
            None
        };
        proof {
            let next = DictInner { entries };
            assert(next@ =~= dict_insert(before, key@, value@));
        }
        core::mem::swap(&mut self.entries, &mut entries);
        assert(self@ =~= dict_insert(before, key@, value@));
        previous
    }

    /// Inserts every entry of `other`, first to last; an entry of `other` replaces one with
    /// the same key.
    pub fn extend(&mut self, other: DictInner)
        ensures
            final(self)@ == dict_extend(old(self)@, other@),
            sorted_keys(final(self)@),
    {
        proof {
            use_type_invariant(&*self);
        }
        let ghost start = self@;
        let ghost more = other@;
        let DictInner { entries } = other;
        assert(more =~= entries_view(entries@));
        assert(more.subrange(0, 0) =~= Seq::<(Seq<char>, Value)>::empty());
        for entry in it: entries.into_iter()
            invariant
                more == entries_view(it.seq()),
                sorted_keys(self@),
                self@ == dict_extend(start, more.subrange(0, it.index() as int)),
        {
            let ghost i = it.index() as int;
            assert(more.subrange(0, i + 1).drop_last() =~= more.subrange(0, i));
            let (key, value) = entry;
            assert(more[i] == (key@, value@));
            self.insert(key, value);
        }
        assert(more.subrange(0, more.len() as int) =~= more);
    }

    /// Takes the entry for `key` out; gives back its value.
    pub fn remove(&mut self, key: &str) -> (taken: Option<BTypes>)
        ensures
            final(self)@ == dict_remove(old(self)@, key@),
            sorted_keys(final(self)@),
            match taken {
                Some(value) => dict_get(old(self)@, key@) == Some(value@),
                None => dict_get(old(self)@, key@) is None,
            },
    {
        let at = self.position_of(key);
        let ghost before = self@;
        proof {
            lemma_remove_sorted(before, key@);
        }
        if at < self.entries.len() {
            let mut entries: Vec<(String, BTypes)> = Vec::new();
            core::mem::swap(&mut self.entries, &mut entries);
            let removed = entries.remove(at);
            proof {
                let next = DictInner { entries };
                assert(next@ =~= dict_remove(before, key@));
            }
            core::mem::swap(&mut self.entries, &mut entries);
            assert(self@ =~= dict_remove(before, key@));
            Some(removed.1)
        } else {
            None
        }
    }
}

/// What a list of stored items denotes.
pub open spec fn items_view(items: Seq<BTypes>) -> Seq<Value> {
    Seq::new(items.len(), |i: int| items[i]@)
}

/// What a list value denotes, item by item.
pub proof fn lemma_list_view(items: Vec<BTypes>)
    ensures
        BTypes::List(items)@ == Value::List(items_view(items@)),
        BTypes::List(items)@->List_0.len() == items@.len(),
        forall|j: int|
            0 <= j < items@.len() ==> (#[trigger] BTypes::List(items)@->List_0[j]) == items@[j]@,
{
    assert(BTypes::List(items)@->List_0 =~= items_view(items@));
}

/// Appends a string as it stands on the wire: length, colon, bytes.
fn push_payload(payload: &[u8], out: &mut Vec<u8>)
    ensures
        final(out)@ == old(out)@ + encode_payload(payload@),
        payload@.len() <= usize::MAX,
{
    push_decimal(payload.len() as u64, out);
    out.push(COLON);
    out.extend_from_slice(payload);
    assert(final(out)@ =~= old(out)@ + encode_payload(payload@));
}

impl BTypes {
    /// Appends the canonical encoding of this value to `out`.
    #[verifier::loop_isolation(false)]
    pub fn encode_into(&self, out: &mut Vec<u8>)
        ensures
            final(out)@ == old(out)@ + encode(self@),
            ordered(self@),
            writable(self@),
        decreases self,
    {
        let ghost start = out@;
        match self {
            BTypes::Integer(n) => {
                out.push(INTEGER_LEAD);
                push_int_decimal(*n, out);
                out.push(END);
                assert(out@ =~= start + encode(self@));
            },
            BTypes::TextString(s) => {
                push_payload(s.as_str().as_bytes(), out);
            },
            BTypes::ByteString(b) => {
                push_payload(b.as_slice(), out);
            },
            BTypes::List(items) => {
                out.push(LIST_LEAD);
                let ghost all = self@->List_0;
                let mut i: usize = 0;
                assert(all.subrange(0, 0) =~= Seq::<Value>::empty());
                proof {
                    lemma_list_view(*items);
                }
                while i < items.len()
                    invariant
                        i <= items@.len(),
                        all.len() == items@.len(),
                        forall|j: int| 0 <= j < all.len() ==> all[j] == items@[j]@,
                        forall|j: int| 0 <= j < i ==> ordered(#[trigger] all[j]),
                        forall|j: int| 0 <= j < i ==> writable(#[trigger] all[j]),
                        out@ == start + seq![LIST_LEAD] + encode_items(all.subrange(0, i as int)),
                    decreases items@.len() - i,
                {
                    proof {
                        lemma_encode_items_push(all.subrange(0, i as int), all[i as int]);
                        assert(all.subrange(0, i + 1) =~= all.subrange(0, i as int).push(
                            all[i as int],
                        ));
                    }
                    items[i].encode_into(out);
                    i += 1;
                    assert(out@ =~= start + seq![LIST_LEAD] + encode_items(
                        all.subrange(0, i as int),
                    ));
                }
                out.push(END);
                assert(all.subrange(0, i as int) =~= all);
                proof {
                    lemma_writable_items_index(all);
                }
                assert(out@ =~= start + encode(self@));
            },
            BTypes::Dict(d) => {
                out.push(DICT_LEAD);
                let ghost all = d@;
                let mut i: usize = 0;
                assert(all.subrange(0, 0) =~= Seq::<(Seq<char>, Value)>::empty());
                assert(all =~= entries_view(d.entries@));
                proof {
                    use_type_invariant(d);
                }
                while i < d.entries.len()
                    invariant
                        i <= d.entries@.len(),
                        all == entries_view(d.entries@),
                        forall|j: int| 0 <= j < i ==> ordered((#[trigger] all[j]).1),
                        forall|j: int|
                            0 <= j < i ==> encode_utf8((#[trigger] all[j]).0).len() <= usize::MAX
                                && writable(all[j].1),
                        out@ == start + seq![DICT_LEAD] + encode_entries(all.subrange(0, i as int)),
                    decreases d.entries@.len() - i,
                {
                    proof {
                        lemma_encode_entries_push(
                            all.subrange(0, i as int),
                            all[i as int].0,
                            all[i as int].1,
                        );
                        assert(all.subrange(0, i + 1) =~= all.subrange(0, i as int).push(
                            all[i as int],
                        ));
                    }
                    push_payload(d.entries[i].0.as_str().as_bytes(), out);
                    d.entries[i].1.encode_into(out);
                    i += 1;
                    assert(out@ =~= start + seq![DICT_LEAD] + encode_entries(
                        all.subrange(0, i as int),
                    ));
                }
                out.push(END);
                assert(all.subrange(0, i as int) =~= all);
                proof {
                    lemma_writable_entries_index(all);
                }
                assert(out@ =~= start + encode(self@));
            },
        }
    }

    /// The canonical encoding of this value. The keys of every dictionary in it come out in
    /// ascending order, because every dictionary holds them so; and the value is one that
    /// can be written, as every value in memory is.
    pub fn bencode(&self) -> (output: Vec<u8>)
        ensures
            output@ == encode(self@),
            ordered(self@),
            writable(self@),
    {
        let mut output: Vec<u8> = Vec::new();
        self.encode_into(&mut output);
        assert(output@ =~= encode(self@));
        output
    }
}

impl BTypes {
    /// The entries of a dictionary value.
    pub fn expect_dict(self) -> (result: Result<DictInner, BencodingError>)
        ensures
            match self@ {
                Value::Dict(d) => result matches Ok(r) && r@ == d,
                _ => result matches Err(e) && e@ == Fault::NotDict,
            },
    {
        match self {
            BTypes::Dict(d) => Ok(d),
            _ => Err(BencodingError::NotDict),
        }
    }

    /// The items of a list value.
    pub fn expect_list(self) -> (result: Result<Vec<BTypes>, BencodingError>)
        ensures
            match self@ {
                Value::List(items) => result matches Ok(r) && items_view(r@) == items,
                _ => result matches Err(e) && e@ == Fault::NotList,
            },
    {
        match self {
            BTypes::List(l) => {
                proof {
                    lemma_list_view(l);
                }
                Ok(l)
            },
            _ => Err(BencodingError::NotList),
        }
    }

    /// The text of a text string value.
    pub fn expect_text_str(self) -> (result: Result<String, BencodingError>)
        ensures
            match self@ {
                Value::TextString(s) => result matches Ok(r) && r@ == s,
                _ => result matches Err(e) && e@ == Fault::NotTextStr,
            },
    {
        match self {
            BTypes::TextString(t) => Ok(t),
            _ => Err(BencodingError::NotTextStr),
        }
    }

    /// The bytes of a byte string value.
    pub fn expect_byte_str(self) -> (result: Result<Vec<u8>, BencodingError>)
        ensures
            match self@ {
                Value::ByteString(b) => result matches Ok(r) && r@ == b,
                _ => result matches Err(e) && e@ == Fault::NotByteStr,
            },
    {
        match self {
            BTypes::ByteString(b) => Ok(b),
            _ => Err(BencodingError::NotByteStr),
        }
    }

    /// The number of an integer value.
    pub fn expect_int(self) -> (result: Result<isize, BencodingError>)
        ensures
            match self@ {
                Value::Integer(n) => result == Ok::<isize, BencodingError>(n as isize),
                _ => result matches Err(e) && e@ == Fault::NotInt,
            },
    {
        match self {
            BTypes::Integer(i) => Ok(i),
            _ => Err(BencodingError::NotInt),
        }
    }

    /// Takes the entry for `key` out of a dictionary value; gives the entry's value and the
    /// dictionary that is left.
    pub fn keyed(self, key: &str) -> (result: Result<(BTypes, BTypes), BencodingError>)
        ensures
            match take_key(self@, key@) {
                Ok((found, left)) => result matches Ok((f, l)) && f@ == found && l@ == left,
                Err(fault) => result matches Err(e) && e@ == fault,
            },
    {
        let mut d = match self {
            BTypes::Dict(d) => d,
            _ => {
                return Err(BencodingError::NotDict);
            },
        };
        match d.remove(key) {
            Some(value) => Ok((value, BTypes::Dict(d))),
            None => Err(BencodingError::KeyNotFound(key.to_owned())),
        }
    }

    /// Takes the dictionary stored under `key`.
    pub fn keyed_dict(self, key: &str) -> (result: Result<(DictInner, BTypes), BencodingError>)
        ensures
            match take_key(self@, key@) {
                Ok((Value::Dict(d), left)) => result matches Ok((r, l)) && r@ == d && l@ == left,
                Ok(_) => result matches Err(e) && e@ == Fault::NotDict,
                Err(fault) => result matches Err(e) && e@ == fault,
            },
    {
        let (value, left) = match self.keyed(key) {
            Ok(pair) => pair,
            Err(e) => {
                return Err(e);
            },
        };
        match value.expect_dict() {
            Ok(d) => Ok((d, left)),
            Err(e) => Err(e),
        }
    }

    /// Takes the list stored under `key`.
    pub fn keyed_list(self, key: &str) -> (result: Result<(Vec<BTypes>, BTypes), BencodingError>)
        ensures
            match take_key(self@, key@) {
                Ok((Value::List(items), left)) => result matches Ok((r, l)) && items_view(r@)
                    == items && l@ == left,
                Ok(_) => result matches Err(e) && e@ == Fault::NotList,
                Err(fault) => result matches Err(e) && e@ == fault,
            },
    {
        let (value, left) = match self.keyed(key) {
            Ok(pair) => pair,
            Err(e) => {
                return Err(e);
            },
        };
        match value.expect_list() {
            Ok(items) => Ok((items, left)),
            Err(e) => Err(e),
        }
    }

    /// Takes the text stored under `key`.
    pub fn keyed_text_str(self, key: &str) -> (result: Result<(String, BTypes), BencodingError>)
        ensures
            match take_key(self@, key@) {
                Ok((Value::TextString(s), left)) => result matches Ok((r, l)) && r@ == s && l@
                    == left,
                Ok(_) => result matches Err(e) && e@ == Fault::NotTextStr,
                Err(fault) => result matches Err(e) && e@ == fault,
            },
    {
        let (value, left) = match self.keyed(key) {
            Ok(pair) => pair,
            Err(e) => {
                return Err(e);
            },
        };
        match value.expect_text_str() {
            Ok(text) => Ok((text, left)),
            Err(e) => Err(e),
        }
    }

    /// Takes the bytes stored under `key`.
    pub fn keyed_byte_str(self, key: &str) -> (result: Result<(Vec<u8>, BTypes), BencodingError>)
        ensures
            match take_key(self@, key@) {
                Ok((Value::ByteString(b), left)) => result matches Ok((r, l)) && r@ == b && l@
                    == left,
                Ok(_) => result matches Err(e) && e@ == Fault::NotByteStr,
                Err(fault) => result matches Err(e) && e@ == fault,
            },
    {
        let (value, left) = match self.keyed(key) {
            Ok(pair) => pair,
            Err(e) => {
                return Err(e);
            },
        };
        match value.expect_byte_str() {
            Ok(bytes) => Ok((bytes, left)),
            Err(e) => Err(e),
        }
    }

    /// Takes the integer stored under `key`.
    pub fn keyed_int(self, key: &str) -> (result: Result<(isize, BTypes), BencodingError>)
        ensures
            match take_key(self@, key@) {
                Ok((Value::Integer(n), left)) => result matches Ok((r, l)) && r == n && l@
                    == left,
                Ok(_) => result matches Err(e) && e@ == Fault::NotInt,
                Err(fault) => result matches Err(e) && e@ == fault,
            },
    {
        let (value, left) = match self.keyed(key) {
            Ok(pair) => pair,
            Err(e) => {
                return Err(e);
            },
        };
        match value.expect_int() {
            Ok(n) => Ok((n, left)),
            Err(e) => Err(e),
        }
    }
}

} // verus!
