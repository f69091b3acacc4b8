//! What holds of reading and writing together: a text that was written is
//! read back as the value it was written for.

use crate::error::{Failure, ParseError};
use crate::json::read::parse_bytes;
use crate::json::syntax::{
    hex4, hex_value, parse_array, parse_document, parse_escape, parse_items, parse_member,
    parse_members, parse_object, parse_piece, parse_string, parse_unicode, parse_value, MAX_NESTING,
};
use crate::json::write::{
    encode, encode_items, encode_member, encode_members, escape, escape_char, hex_char, quote,
};
use crate::number::{
    canonical, ends_number, is_number_char, lemma_number_len_append, lemma_number_text,
};
use crate::text::{is_space, tail, trim_start};
use crate::value::{
    entry_levels, item_levels, lemma_max_of_upper, lemma_put_all_same, ValueView,
};
use vstd::prelude::*;

verus! {

/// A hexadecimal digit that was written denotes its number.
proof fn lemma_hex_char(d: nat)
    requires
        d < 16,
    ensures
        hex_value(hex_char(d)) == Some(d),
{
}

/// The text of one character is read back as that character.
proof fn lemma_piece(c: char, rest: Seq<char>)
    ensures
        parse_piece(escape_char(c) + rest) == Ok::<(char, nat), crate::error::ParseFault>(
            (c, escape_char(c).len()),
        ),
        escape_char(c).len() >= 1,
        (escape_char(c) + rest)[0] != '"',
{
    reveal(parse_piece);
    reveal(parse_escape);
    reveal(parse_unicode);
    let text = escape_char(c) + rest;
    let e = escape_char(c);
    assert(text[0] == e[0]);
    if c == '"' || c == '\\' || c == '\n' || c == '\r' || c == '\t' {
        assert(text.skip(1)[0] == e[1]);
    } else if (c as u32) < 0x20 {
        let code = c as nat;
        assert(text.skip(1)[0] == 'u');
        let h = text.skip(1).skip(1);
        assert(h[0] == '0' && h[1] == '0');
        assert(h[2] == hex_char(code / 16));
        assert(h[3] == hex_char(code % 16));
        lemma_hex_char(code / 16);
        lemma_hex_char(code % 16);
        assert(hex4(h) == Some(code));
        assert(code as char == c);
    } else {
    }
}

/// The text of a string, behind its opening quote, is read back as the
/// string.
pub proof fn lemma_string(s: Seq<char>, rest: Seq<char>)
    ensures
        parse_string(escape(s) + seq!['"'] + rest) == Ok::<(Seq<char>, nat), Failure>(
            (s, rest.len()),
        ),
    decreases s.len(),
{
    reveal(parse_string);
    let text = escape(s) + seq!['"'] + rest;
    if s.len() == 0 {
        assert(text[0] == '"');
        assert(s =~= Seq::<char>::empty());
    } else {
        let e = escape_char(s[0]);
        let after = escape(s.skip(1)) + seq!['"'] + rest;
        assert(text =~= e + after);
        lemma_piece(s[0], after);
        assert(text.skip(e.len() as int) =~= after);
        lemma_string(s.skip(1), rest);
        assert(seq![s[0]] + s.skip(1) =~= s);
    }
}

/// The text of a value is not empty and starts with a character that
/// tells its kind.
proof fn lemma_first(v: ValueView)
    requires
        canonical(v),
    ensures
        encode(v).len() > 0,
        match v {
            ValueView::Null => encode(v)[0] == 'n',
            ValueView::Bool(b) => encode(v)[0] == if b {
                't'
            } else {
                'f'
            },
            ValueView::Number(_) => encode(v)[0] == '-' || ('0' <= encode(v)[0] <= '9'),
            ValueView::String(_) => encode(v)[0] == '"',
            ValueView::Array(_) => encode(v)[0] == '[',
            ValueView::Object(_) => encode(v)[0] == '{',
        },
{
    match v {
        ValueView::Number(n) => {
            lemma_number_text(n);
        },
        _ => {},
    }
}

/// A text that starts with no whitespace is its own trimmed text.
proof fn lemma_no_space(t: Seq<char>)
    requires
        t.len() > 0,
        !is_space(t[0]),
    ensures
        trim_start(t) == t,
{
    assert(t.skip(0) =~= t);
}

/// The text of a value, followed by anything that continues no number, is
/// read back as the value.
pub proof fn lemma_value(v: ValueView, rest: Seq<char>, budget: nat)
    requires
        canonical(v),
        v.level() <= budget,
        ends_number(rest),
    ensures
        parse_value(encode(v) + rest, budget) == Ok::<(ValueView, nat), Failure>((v, rest.len())),
    decreases v, 0nat,
{
    reveal(parse_value);
    reveal(parse_items);
    reveal(parse_members);
    let t = encode(v) + rest;
    lemma_first(v);
    assert(t[0] == encode(v)[0]);
    lemma_no_space(t);
    match v {
        ValueView::Null => {
            reveal_strlit("null");
            assert(t.take(4) =~= "null"@);
        },
        ValueView::Bool(b) => {
            reveal_strlit("true");
            reveal_strlit("false");
            if b {
                assert(t.take(4) =~= "true"@);
            } else {
                assert(t.take(5) =~= "false"@);
            }
        },
        ValueView::Number(n) => {
            lemma_number_text(n);
            lemma_number_len_append(n.text(), rest);
            assert(t.take(n.text().len() as int) =~= n.text());
        },
        ValueView::String(s) => {
            assert(t.skip(1) =~= escape(s) + seq!['"'] + rest);
            lemma_string(s, rest);
        },
        ValueView::Array(items) => {
            reveal(parse_array);
            let inner = encode_items(items, 0) + seq![']'] + rest;
            assert(t.skip(1) =~= inner);
            if items.len() == 0 {
                assert(inner[0] == ']');
                lemma_no_space(inner);
                assert(items =~= Seq::<ValueView>::empty());
            } else {
                assert forall|i: int| 0 <= i < items.len() implies (#[trigger] items[i]).level()
                    <= budget - 1 by {
                    lemma_max_of_upper(item_levels(items), i);
                }
                lemma_first(items[0]);
                assert(inner[0] == encode(items[0])[0]);
                lemma_no_space(inner);
                lemma_items(items, 0, rest, (budget - 1) as nat);
                assert(items.skip(0) =~= items);
            }
        },
        ValueView::Object(entries) => {
            reveal(parse_object);
            let inner = encode_members(entries, 0) + seq!['}'] + rest;
            assert(t.skip(1) =~= inner);
            if entries.len() == 0 {
                assert(inner[0] == '}');
                lemma_no_space(inner);
                assert(entries =~= Seq::<(Seq<char>, ValueView)>::empty());
            } else {
                assert forall|i: int| 0 <= i < entries.len() implies (#[trigger] entries[i]).1.level()
                    <= budget - 1 by {
                    lemma_max_of_upper(entry_levels(entries), i);
                }
                assert(encode_member(entries[0])[0] == '"');
                assert(inner[0] == '"');
                lemma_no_space(inner);
                lemma_members(entries, 0, rest, (budget - 1) as nat);
                assert(entries.skip(0) =~= entries);
                lemma_put_all_same(entries, entries.len());
                assert(entries.take(entries.len() as int) =~= entries);
            }
        },
    }
}

/// The text of the items from `from` on, with the closing bracket, is read
/// back as those items.
proof fn lemma_items(items: Seq<ValueView>, from: nat, rest: Seq<char>, budget: nat)
    requires
        from < items.len(),
        forall|i: int| 0 <= i < items.len() ==> canonical(#[trigger] items[i]),
        forall|i: int| 0 <= i < items.len() ==> (#[trigger] items[i]).level() <= budget,
    ensures
        parse_items(encode_items(items, from) + seq![']'] + rest, budget) == Ok::<
            (Seq<ValueView>, nat),
            Failure,
        >((items.skip(from as int), rest.len())),
    decreases items, items.len() - from,
{
    reveal(parse_items);
    reveal(parse_value);
    let item = items[from as int];
    let text = encode_items(items, from) + seq![']'] + rest;
    let after: Seq<char> = if from + 1 == items.len() {
        seq![']'] + rest
    } else {
        seq![','] + encode_items(items, from + 1) + seq![']'] + rest
    };
    assert(text =~= encode(item) + after);
    assert(!is_number_char(after[0]));
    lemma_value(item, after, budget);
    assert(tail(text, after.len()) =~= after);
    lemma_no_space(after);
    if from + 1 == items.len() {
        assert(items.skip(from as int) =~= seq![item]);
    } else {
        assert(after.skip(1) =~= encode_items(items, from + 1) + seq![']'] + rest);
        lemma_items(items, from + 1, rest, budget);
        assert(seq![item] + items.skip(from + 1 as int) =~= items.skip(from as int));
    }
}

/// The text of one member is read back as that member.
proof fn lemma_member(member: (Seq<char>, ValueView), after: Seq<char>, budget: nat)
    requires
        canonical(member.1),
        member.1.level() <= budget,
        ends_number(after),
    ensures
        parse_member(encode_member(member) + after, budget) == Ok::<
            ((Seq<char>, ValueView), nat),
            Failure,
        >((member, after.len())),
    decreases member.1, 1nat,
{
    reveal(parse_member);
    reveal(parse_value);
    let text = encode_member(member) + after;
    let behind_key = seq![':'] + encode(member.1) + after;
    assert(text[0] == '"');
    lemma_no_space(text);
    assert(text.skip(1) =~= escape(member.0) + seq!['"'] + behind_key);
    lemma_string(member.0, behind_key);
    assert(tail(text.skip(1), behind_key.len()) =~= behind_key);
    lemma_no_space(behind_key);
    assert(behind_key.skip(1) =~= encode(member.1) + after);
    lemma_value(member.1, after, budget);
}

/// The text of the members from `from` on, with the closing brace, is read
/// back as those members.
proof fn lemma_members(
    entries: Seq<(Seq<char>, ValueView)>,
    from: nat,
    rest: Seq<char>,
    budget: nat,
)
    requires
        from < entries.len(),
        forall|i: int| 0 <= i < entries.len() ==> canonical((#[trigger] entries[i]).1),
        forall|i: int| 0 <= i < entries.len() ==> (#[trigger] entries[i]).1.level() <= budget,
    ensures
        parse_members(encode_members(entries, from) + seq!['}'] + rest, budget) == Ok::<
            (Seq<(Seq<char>, ValueView)>, nat),
            Failure,
        >((entries.skip(from as int), rest.len())),
    decreases entries, entries.len() - from,
{
    reveal(parse_members);
    reveal(parse_member);
    let member = entries[from as int];
    assert(canonical(member.1) && member.1.level() <= budget);
    let text = encode_members(entries, from) + seq!['}'] + rest;
    let after: Seq<char> = if from + 1 == entries.len() {
        seq!['}'] + rest
    } else {
        seq![','] + encode_members(entries, from + 1) + seq!['}'] + rest
    };
    assert(text =~= encode_member(member) + after);
    assert(!is_number_char(after[0]));
    lemma_member(member, after, budget);
    assert(tail(text, after.len()) =~= after);
    lemma_no_space(after);
    if from + 1 == entries.len() {
        assert(entries.skip(from as int) =~= seq![member]);
    } else {
        assert(after.skip(1) =~= encode_members(entries, from + 1) + seq!['}'] + rest);
        lemma_members(entries, from + 1, rest, budget);
        assert(seq![member] + entries.skip(from + 1 as int) =~= entries.skip(from as int));
    }
}

/// Round trip: the text that is written for a value is read back as that
/// value. This holds of every tree that is held as a reader holds it (no
/// key twice in an object, every number canonical) and that is nested no
/// deeper than the reader follows.
pub proof fn law_round_trip(v: ValueView)
    requires
        canonical(v),
        v.level() <= MAX_NESTING,
    ensures
        parse_document(encode(v)) == Ok::<ValueView, Failure>(v),
        parse_bytes(vstd::utf8::encode_utf8(encode(v))) == Ok::<ValueView, ParseError>(v),
{
    let text = encode(v);
    assert(text + Seq::<char>::empty() =~= text);
    lemma_value(v, Seq::empty(), MAX_NESTING as nat);
    assert(tail(text, 0) =~= Seq::<char>::empty());
    vstd::utf8::encode_utf8_decode_utf8(text);
    vstd::utf8::encode_utf8_valid_utf8(text);
}

} // verus!
