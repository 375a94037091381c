//! A readable rendering of values, for logs and failure messages.

use vstd::prelude::*;
use vstd::string::StringExecFns;
use vstd::utf8::encode_utf8;
use crate::decimal::{append_decimal, append_int_decimal, decimal_text, int_text};
use crate::encoding::model::Value;
use crate::encoding::text::push_char;
use crate::encoding::types::{entries_view, items_view, lemma_dict_view, lemma_list_view, BTypes};

verus! {

/// The lower-case hexadecimal digit for `d`, where `0 <= d <= 15`.
pub open spec fn hex_lower(d: int) -> char {
    if d < 10 {
        (48 + d) as char
    } else {
        (87 + d) as char
    }
}

/// A byte as `0x` and its hexadecimal digits, without a leading zero.
pub open spec fn hex_text(b: u8) -> Seq<char> {
    if b < 16 {
        "0x"@ + seq![hex_lower(b as int)]
    } else {
        "0x"@ + seq![hex_lower(b as int / 16), hex_lower(b as int % 16)]
    }
}

/// `count` times the character `ch`.
pub open spec fn repeated(ch: char, count: nat) -> Seq<char> {
    Seq::new(count, |i: int| ch)
}

/// How many items of a list or bytes of a byte string are shown: the first hundred at most.
pub open spec fn shown(length: nat) -> nat {
    if length < 100 {
        length
    } else {
        100
    }
}

/// The bytes in hexadecimal, with `, ` between each two.
pub open spec fn render_bytes(bytes: Seq<u8>) -> Seq<char>
    decreases bytes.len(),
{
    if bytes.len() == 0 {
        Seq::empty()
    } else if bytes.len() == 1 {
        hex_text(bytes[0])
    } else {
        render_bytes(bytes.drop_last()) + ", "@ + hex_text(bytes.last())
    }
}

/// The rendering of a value. The entries of a dictionary stand on lines of their own, two
/// columns further in than the dictionary; an indent that would pass `usize::MAX` stays there.
pub open spec fn render(v: Value, indent: usize) -> Seq<char>
    decreases v, 0nat,
{
    match v {
        Value::Integer(n) => "Integer("@ + int_text(n) + ")"@,
        Value::TextString(s) => "TextString("@ + decimal_text(encode_utf8(s).len()) + ")(\""@ + s
            + "\")"@,
        Value::ByteString(b) => "ByteString("@ + decimal_text(b.len()) + ")("@ + render_bytes(
            b.subrange(0, shown(b.len()) as int),
        ) + ")"@,
        Value::List(items) => "List["@ + render_items(items, shown(items.len()), indent) + "]"@,
        Value::Dict(entries) => "Dict("@ + decimal_text(entries.len()) + ")(\n"@ + render_entries(
            entries,
            indent.saturating_add(2),
        ) + "\n"@ + repeated(' ', indent as nat) + ")"@,
    }
}

/// The renderings of the first `count` items, with `, ` between each two.
pub open spec fn render_items(items: Seq<Value>, count: nat, indent: usize) -> Seq<char>
    decreases items, count,
{
    if count == 0 || count > items.len() {
        Seq::empty()
    } else if count == 1 {
        render(items[0], indent)
    } else {
        render_items(items, (count - 1) as nat, indent) + ", "@ + render(
            items[count - 1],
            indent,
        )
    }
}

/// The entries, one on each line: the indent, the key in quotes, a colon, the rendering of
/// the value.
pub open spec fn render_entries(entries: Seq<(Seq<char>, Value)>, indent: usize) -> Seq<char>
    decreases entries, 0nat,
{
    if entries.len() == 0 {
        Seq::empty()
    } else if entries.len() == 1 {
        repeated(' ', indent as nat) + "\""@ + entries[0].0 + "\": "@ + render(
            entries[0].1,
            indent,
        )
    } else {
        render_entries(entries.drop_last(), indent) + "\n"@ + repeated(' ', indent as nat)
            + "\""@ + entries.last().0 + "\": "@ + render(entries.last().1, indent)
    }
}

/// Appends `count` times the character `ch`.
pub fn append_repeated(text: &mut String, ch: char, count: usize)
    ensures
        final(text)@ == old(text)@ + repeated(ch, count as nat),
{
    let ghost start = text@;
    let mut i: usize = 0;
    assert(text@ =~= start + repeated(ch, 0));
    while i < count
        invariant
            i <= count,
            text@ == start + repeated(ch, i as nat),
        decreases count - i,
    {
        push_char(text, ch);
        i += 1;
        assert(text@ =~= start + repeated(ch, i as nat));
    }
}

/// `count` times the character `ch`.
pub fn repeat(ch: char, count: usize) -> (text: String)
    ensures
        text@ == repeated(ch, count as nat),
{
    let mut text = String::new();
    append_repeated(&mut text, ch, count);
    assert(text@ =~= repeated(ch, count as nat));
    text
}

fn hex_digit(d: u8) -> (c: char)
    requires
        d < 16,
    ensures
        c == hex_lower(d as int),
{
    if d < 10 {
        (48 + d) as char
    } else {
        (87 + d) as char
    }
}

fn append_hex(text: &mut String, b: u8)
    ensures
        final(text)@ == old(text)@ + hex_text(b),
{
    text.append("0x");
    if b >= 16 {
        push_char(text, hex_digit(b / 16));
    }
    push_char(text, hex_digit(b % 16));
    assert(final(text)@ =~= old(text)@ + hex_text(b));
}

/// Appends the first hundred bytes at most, in hexadecimal.
fn render_bytes_into(items: &Vec<u8>, out: &mut String)
    ensures
        final(out)@ == old(out)@ + render_bytes(
            items@.subrange(0, shown(items@.len()) as int),
        ),
{
    let limit: usize = if items.len() < 100 { items.len() } else { 100 };
    let ghost head = out@;
    let mut i: usize = 0;
    assert(out@ =~= head + render_bytes(items@.subrange(0, 0)));
    while i < limit
        invariant
            i <= limit <= items@.len(),
            out@ == head + render_bytes(items@.subrange(0, i as int)),
        decreases limit - i,
    {
        assert(items@.subrange(0, i + 1).drop_last() =~= items@.subrange(0, i as int));
        if i > 0 {
            out.append(", ");
        }
        append_hex(out, items[i]);
        i += 1;
        assert(out@ =~= head + render_bytes(items@.subrange(0, i as int)));
    }
}

/// Appends the renderings of the first hundred items at most.
fn render_items_into(items: &Vec<BTypes>, indent: usize, out: &mut String)
    ensures
        final(out)@ == old(out)@ + render_items(
            items_view(items@),
            shown(items@.len()),
            indent,
        ),
    decreases items,
{
    let limit: usize = if items.len() < 100 { items.len() } else { 100 };
    let ghost all = items_view(items@);
    let ghost head = out@;
    let mut i: usize = 0;
    assert(out@ =~= head + render_items(all, 0, indent));
    while i < limit
        invariant
            i <= limit <= items@.len(),
            all == items_view(items@),
            out@ == head + render_items(all, i as nat, indent),
        decreases limit - i,
    {
        if i > 0 {
            out.append(", ");
        }
        items[i].render_into(indent, out);
        i += 1;
        assert(out@ =~= head + render_items(all, i as nat, indent));
    }
}

/// Appends the entries, one on each line.
fn render_entries_into(entries: &Vec<(String, BTypes)>, indent: usize, out: &mut String)
    ensures
        final(out)@ == old(out)@ + render_entries(entries_view(entries@), indent),
    decreases entries,
{
    let ghost all = entries_view(entries@);
    let ghost head = out@;
    let mut i: usize = 0;
    assert(out@ =~= head + render_entries(all.subrange(0, 0), indent));
    while i < entries.len()
        invariant
            i <= entries@.len(),
            all == entries_view(entries@),
            out@ == head + render_entries(all.subrange(0, i as int), indent),
        decreases entries@.len() - i,
    {
        assert(all.subrange(0, i + 1).drop_last() =~= all.subrange(0, i as int));
        if i > 0 {
            out.append("\n");
        }
        append_repeated(out, ' ', indent);
        out.append("\"");
        out.append(entries[i].0.as_str());
        out.append("\": ");
        entries[i].1.render_into(indent, out);
        i += 1;
        assert(out@ =~= head + render_entries(all.subrange(0, i as int), indent));
    }
    assert(all.subrange(0, i as int) =~= all);
}

impl BTypes {
    /// Appends the rendering of this value.
    pub fn render_into(&self, indent: usize, out: &mut String)
        ensures
            final(out)@ == old(out)@ + render(self@, indent),
        decreases self,
    {
        let ghost start = out@;
        match self {
            BTypes::Integer(i) => {
                out.append("Integer(");
                append_int_decimal(out, *i);
                out.append(")");
            },
            BTypes::TextString(s) => {
                out.append("TextString(");
                append_decimal(out, s.as_str().as_bytes().len());
                out.append(")(\"");
                out.append(s.as_str());
                out.append("\")");
            },
            BTypes::ByteString(items) => {
                out.append("ByteString(");
                append_decimal(out, items.len());
                out.append(")(");
                render_bytes_into(items, out);
                out.append(")");
            },
            BTypes::List(items) => {
                proof {
                    lemma_list_view(*items);
                }
                out.append("List[");
                render_items_into(items, indent, out);
                out.append("]");
            },
            BTypes::Dict(d) => {
                proof {
                    lemma_dict_view(*d);
                }
                out.append("Dict(");
                append_decimal(out, d.entries.len());
                out.append(")(\n");
                render_entries_into(&d.entries, indent.saturating_add(2), out);
                out.append("\n");
                append_repeated(out, ' ', indent);
                out.append(")");
            },
        }
        assert(out@ =~= start + render(self@, indent));
    }

    /// The rendering of this value, set `indent` columns in.
    pub fn to_string(&self, indent: usize) -> (text: String)
        ensures
            text@ == render(self@, indent),
    {
        let mut text = String::new();
        self.render_into(indent, &mut text);
        assert(text@ =~= render(self@, indent));
        text
    }
}

} // verus!
