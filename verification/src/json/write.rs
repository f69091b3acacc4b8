//! The JSON writer: compact text, without any whitespace.

use crate::error::{EncodeError, EncodeFault, Format};
use crate::text::{chars_of, string_of};
use crate::value::{entry_views, lemma_array_view, lemma_object_view, views, Value, ValueView};
use vstd::prelude::*;

verus! {

/// The lower-case hexadecimal digit for a number below sixteen.
pub open spec fn hex_char(d: nat) -> char {
    if d < 10 {
        (d + '0' as nat) as char
    } else {
        (d - 10 + 'a' as nat) as char
    }
}

/// The text that stands for one character inside a string.
pub open spec fn escape_char(c: char) -> Seq<char> {
    if c == '"' {
        seq!['\\', '"']
    } else if c == '\\' {
        seq!['\\', '\\']
    } else if c == '\n' {
        seq!['\\', 'n']
    } else if c == '\r' {
        seq!['\\', 'r']
    } else if c == '\t' {
        seq!['\\', 't']
    } else if (c as u32) < 0x20 {
        seq!['\\', 'u', '0', '0', hex_char((c as nat) / 16), hex_char((c as nat) % 16)]
    } else {
        seq![c]
    }
}

/// The text that stands for a run of characters inside a string.
pub open spec fn escape(s: Seq<char>) -> Seq<char>
    decreases s.len(),
{
    if s.len() == 0 {
        Seq::empty()
    } else {
        escape_char(s[0]) + escape(s.skip(1))
    }
}

/// A string between its quotes.
pub open spec fn quote(s: Seq<char>) -> Seq<char> {
    seq!['"'] + escape(s) + seq!['"']
}

/// The text of a value.
pub open spec fn encode(v: ValueView) -> Seq<char>
    decreases v, 0nat,
{
    match v {
        ValueView::Null => seq!['n', 'u', 'l', 'l'],
        ValueView::Bool(b) => if b {
            seq!['t', 'r', 'u', 'e']
        } else {
            seq!['f', 'a', 'l', 's', 'e']
        },
        ValueView::Number(n) => n.text(),
        ValueView::String(s) => quote(s),
        ValueView::Array(items) => seq!['['] + encode_items(items, 0) + seq![']'],
        ValueView::Object(entries) => seq!['{'] + encode_members(entries, 0) + seq!['}'],
    }
}

/// The text of the items from position `from` on, with commas between them.
pub open spec fn encode_items(items: Seq<ValueView>, from: nat) -> Seq<char>
    decreases items, items.len() - from,
{
    if from >= items.len() {
        Seq::empty()
    } else if from + 1 == items.len() {
        encode(items[from as int])
    } else {
        encode(items[from as int]) + seq![','] + encode_items(items, from + 1)
    }
}

/// The text of one member: its key, a colon and its value.
pub open spec fn encode_member(member: (Seq<char>, ValueView)) -> Seq<char>
    decreases member, 0nat,
{
    quote(member.0) + seq![':'] + encode(member.1)
}

/// The text of the members from position `from` on, with commas between
/// them.
pub open spec fn encode_members(entries: Seq<(Seq<char>, ValueView)>, from: nat) -> Seq<char>
    decreases entries, entries.len() - from,
{
    if from >= entries.len() {
        Seq::empty()
    } else if from + 1 == entries.len() {
        encode_member(entries[from as int])
    } else {
        encode_member(entries[from as int]) + seq![','] + encode_members(entries, from + 1)
    }
}

/// Whether the value can be written: every number in it can.
pub open spec fn writable(v: ValueView) -> bool
    decreases v,
{
    match v {
        ValueView::Number(n) => n.writable(),
        ValueView::Array(items) => forall|i: int|
            0 <= i < items.len() ==> writable(#[trigger] items[i]),
        ValueView::Object(entries) => forall|i: int|
            0 <= i < entries.len() ==> writable((#[trigger] entries[i]).1),
        _ => true,
    }
}

/// Every item of an array that can be written can be written.
pub proof fn lemma_writable_item(items: Seq<ValueView>, j: int)
    requires
        0 <= j < items.len(),
        writable(ValueView::Array(items)),
    ensures
        writable(items[j]),
{
    let v = ValueView::Array(items);
    assert(v->Array_0[j] == items[j]);
}

/// Every value in an object that can be written can be written.
pub proof fn lemma_writable_entry(entries: Seq<(Seq<char>, ValueView)>, j: int)
    requires
        0 <= j < entries.len(),
        writable(ValueView::Object(entries)),
    ensures
        writable(entries[j].1),
{
    let v = ValueView::Object(entries);
    assert(v->Object_0[j] == entries[j]);
}

/// The hexadecimal digit for a number below sixteen.
fn hex_of(d: u8) -> (c: char)
    requires
        d < 16,
    ensures
        c == hex_char(d as nat),
{
    if d < 10 {
        (48u8 + d) as char
    } else {
        (87u8 + d) as char
    }
}

/// Appends the text that stands for `c` inside a string.
fn push_escaped(out: &mut Vec<char>, c: char)
    ensures
        final(out)@ == old(out)@ + escape_char(c),
{
    if c == '"' {
        out.push('\\');
        out.push('"');
    } else if c == '\\' {
        out.push('\\');
        out.push('\\');
    } else if c == '\n' {
        out.push('\\');
        out.push('n');
    } else if c == '\r' {
        out.push('\\');
        out.push('r');
    } else if c == '\t' {
        out.push('\\');
        out.push('t');
    } else if (c as u32) < 0x20 {
        let code = c as u32 as u8;
        out.push('\\');
        out.push('u');
        out.push('0');
        out.push('0');
        out.push(hex_of(code / 16));
        out.push(hex_of(code % 16));
    } else {
        out.push(c);
    }
    assert(final(out)@ =~= old(out)@ + escape_char(c));
}

/// Appends a string between its quotes.
pub fn push_quoted(out: &mut Vec<char>, s: &str)
    ensures
        final(out)@ == old(out)@ + quote(s@),
{
    let chars = chars_of(s);
    out.push('"');
    let mut i: usize = 0;
    assert(chars@.skip(0) =~= chars@);
    while i < chars.len()
        invariant
            i <= chars.len(),
            out@ + escape(chars@.skip(i as int)) == old(out)@ + seq!['"'] + escape(chars@),
        decreases chars.len() - i,
    {
        let ghost before = out@;
        push_escaped(out, chars[i]);
        proof {
            assert(chars@.skip(i as int).skip(1) =~= chars@.skip(i + 1));
            assert(before + escape_char(chars@[i as int]) + escape(chars@.skip(i + 1)) =~= before
                + (escape_char(chars@[i as int]) + escape(chars@.skip(i + 1))));
        }
        i += 1;
    }
    proof {
        assert(out@ + Seq::<char>::empty() =~= out@);
    }
    out.push('"');
    assert(out@ =~= old(out)@ + quote(s@));
}

/// Writing item `i` and the comma behind it leaves the items from `i + 1`
/// on to be written.
proof fn lemma_items_advance(before: Seq<char>, all: Seq<ValueView>, i: nat)
    requires
        i < all.len(),
    ensures
        i + 1 < all.len() ==> (before + encode(all[i as int])).push(',') + encode_items(all, i + 1)
            == before + encode_items(all, i),
        i + 1 == all.len() ==> before + encode(all[i as int]) + encode_items(all, i + 1) == before
            + encode_items(all, i),
{
    let one = encode(all[i as int]);
    if i + 1 < all.len() {
        assert((before + one).push(',') + encode_items(all, i + 1) =~= before + (one + seq![',']
            + encode_items(all, i + 1)));
    } else {
        assert(before + one + encode_items(all, i + 1) =~= before + one);
    }
}

/// Writing member `i` and the comma behind it leaves the members from
/// `i + 1` on to be written.
proof fn lemma_members_advance(before: Seq<char>, all: Seq<(Seq<char>, ValueView)>, i: nat)
    requires
        i < all.len(),
    ensures
        i + 1 < all.len() ==> (before + quote(all[i as int].0) + seq![':'] + encode(
            all[i as int].1,
        )).push(',') + encode_members(all, i + 1) == before + encode_members(all, i),
        i + 1 == all.len() ==> before + quote(all[i as int].0) + seq![':'] + encode(all[i as int].1)
            + encode_members(all, i + 1) == before + encode_members(all, i),
{
    let one = encode_member(all[i as int]);
    assert(before + quote(all[i as int].0) + seq![':'] + encode(all[i as int].1) =~= before + one);
    if i + 1 < all.len() {
        assert((before + one).push(',') + encode_members(all, i + 1) =~= before + (one + seq![',']
            + encode_members(all, i + 1)));
    } else {
        assert(before + one + encode_members(all, i + 1) =~= before + one);
    }
}

/// Appends the text of the items, with commas between them.
fn write_items(items: &Vec<Value>, out: &mut Vec<char>) -> (ok: bool)
    ensures
        ok == (forall|j: int| 0 <= j < items.len() ==> writable(#[trigger] views(items@)[j])),
        ok ==> final(out)@ == old(out)@ + encode_items(views(items@), 0),
    decreases items,
{
    let ghost all = views(items@);
    let mut i: usize = 0;
    proof {
        if items.len() == 0 {
            assert(old(out)@ + encode_items(all, 0) =~= old(out)@);
        }
    }
    while i < items.len()
        invariant
            i <= items.len(),
            all == views(items@),
            forall|j: int| 0 <= j < i ==> writable(#[trigger] all[j]),
            i < items.len() ==> out@ + encode_items(all, i as nat) == old(out)@ + encode_items(
                all,
                0,
            ),
            i == items.len() ==> out@ == old(out)@ + encode_items(all, 0),
        decreases items.len() - i,
    {
        let ghost before = out@;
        if !write_value(&items[i], out) {
            assert(!writable(all[i as int]));
            return false;
        }
        proof {
            lemma_items_advance(before, all, i as nat);
            assert(encode_items(all, (i + 1) as nat).len() == 0 || i + 1 < items.len());
            if i + 1 == items.len() {
                assert(before + encode(all[i as int]) + encode_items(all, (i + 1) as nat)
                    =~= before + encode(all[i as int]));
            }
        }
        if i + 1 < items.len() {
            out.push(',');
        }
        i += 1;
    }
    true
}

/// Appends the text of the members, with commas between them.
fn write_members(entries: &Vec<(String, Value)>, out: &mut Vec<char>) -> (ok: bool)
    ensures
        ok == (forall|j: int|
            0 <= j < entries.len() ==> writable((#[trigger] entry_views(entries@)[j]).1)),
        ok ==> final(out)@ == old(out)@ + encode_members(entry_views(entries@), 0),
    decreases entries,
{
    let ghost all = entry_views(entries@);
    let mut i: usize = 0;
    proof {
        if entries.len() == 0 {
            assert(old(out)@ + encode_members(all, 0) =~= old(out)@);
        }
    }
    while i < entries.len()
        invariant
            i <= entries.len(),
            all == entry_views(entries@),
            forall|j: int| 0 <= j < i ==> writable((#[trigger] all[j]).1),
            i < entries.len() ==> out@ + encode_members(all, i as nat) == old(out)@
                + encode_members(all, 0),
            i == entries.len() ==> out@ == old(out)@ + encode_members(all, 0),
        decreases entries.len() - i,
    {
        let ghost before = out@;
        push_quoted(out, entries[i].0.as_str());
        out.push(':');
        if !write_value(&entries[i].1, out) {
            assert(!writable(all[i as int].1));
            return false;
        }
        proof {
            lemma_members_advance(before, all, i as nat);
            assert(out@ =~= before + quote(all[i as int].0) + seq![':'] + encode(all[i as int].1));
            if i + 1 == entries.len() {
                assert(out@ + encode_members(all, (i + 1) as nat) =~= out@);
            }
        }
        if i + 1 < entries.len() {
            out.push(',');
        }
        i += 1;
    }
    true
}

/// Appends the text of a word.
fn push_word(out: &mut Vec<char>, word: &str)
    ensures
        final(out)@ == old(out)@ + word@,
{
    crate::text::push_str(out, word);
}

/// Appends the text of `v`, where it can be written.
fn write_value(v: &Value, out: &mut Vec<char>) -> (ok: bool)
    ensures
        ok == writable(v@),
        ok ==> final(out)@ == old(out)@ + encode(v@),
    decreases v,
{
    match v {
        Value::Null => {
            push_word(out, "null");
            proof {
                reveal_strlit("null");
                assert("null"@ =~= encode(v@));
            }
            true
        },
        Value::Bool(b) => {
            if *b {
                push_word(out, "true");
            } else {
                push_word(out, "false");
            }
            proof {
                reveal_strlit("true");
                reveal_strlit("false");
                assert("true"@ =~= encode(ValueView::Bool(true)));
                assert("false"@ =~= encode(ValueView::Bool(false)));
            }
            true
        },
        Value::Number(n) => n.write(out),
        Value::String(s) => {
            push_quoted(out, s.as_str());
            true
        },
        Value::Array(items) => {
            proof {
                lemma_array_view(*items);
            }
            out.push('[');
            if !write_items(items, out) {
                proof {
                    let all = views(items@);
                    let j = choose|j: int| 0 <= j < all.len() && !writable(#[trigger] all[j]);
                    if writable(ValueView::Array(all)) {
                        lemma_writable_item(all, j);
                    }
                }
                return false;
            }
            out.push(']');
            assert(out@ =~= old(out)@ + encode(v@));
            true
        },
        Value::Object(entries) => {
            proof {
                lemma_object_view(*entries);
            }
            out.push('{');
            if !write_members(entries, out) {
                proof {
                    let all = entry_views(entries@);
                    let j = choose|j: int| 0 <= j < all.len() && !writable((#[trigger] all[j]).1);
                    if writable(ValueView::Object(all)) {
                        lemma_writable_entry(all, j);
                    }
                }
                return false;
            }
            out.push('}');
            assert(out@ =~= old(out)@ + encode(v@));
            true
        },
    }
}

/// The compact JSON text of `value`. Fails only where a number in it holds
/// a literal that is no numeric literal.
pub fn to_text(value: &Value) -> (r: Result<String, EncodeError>)
    ensures
        writable(value@) ==> (r matches Ok(s) && s@ == encode(value@)),
        !writable(value@) ==> r == Err::<String, EncodeError>(
            EncodeError { format: Format::Json, fault: EncodeFault::InvalidNumber },
        ),
{
    let mut out: Vec<char> = Vec::new();
    if write_value(value, &mut out) {
        assert(out@ =~= encode(value@));
        Ok(string_of(&out))
    } else {
        Err(EncodeError { format: Format::Json, fault: EncodeFault::InvalidNumber })
    }
}

} // verus!
