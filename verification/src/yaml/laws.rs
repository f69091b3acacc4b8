//! What holds of reading and writing YAML together: a document that was
//! written is read back as the value it was written for.

use crate::error::{Failure, ParseError, ParseFault};
use crate::json::syntax::MAX_NESTING;
use crate::json::write::{escape, escape_char, quote};
use crate::number::{canonical, is_number_char, lemma_number_chars, lemma_number_text};
use crate::text::tail;
use crate::value::{entry_levels, item_levels, lemma_max_of_upper, lemma_put_all_same, ValueView};
use crate::yaml::read::parse_bytes;
use crate::yaml::syntax::{
    classify, colon_index, continues_mapping, continues_sequence, first_line, indent_len, line_len,
    lines_of, next_lines, parse_document, parse_held, parse_mapping, parse_node, parse_sequence,
    scalar_value, scan_lines, skip_blanks, tail_lines, trimmed_len, Line, Shape,
};
use crate::yaml::write::{
    blanks, encode_block, encode_entries, encode_entry, encode_item, encode_items, encode_lines,
    is_block, is_plain_char, is_word_start, plain_safe, render, scalar_text, string_text,
};
use vstd::prelude::*;

verus! {

/// Whether a text can be the content of a line: it is not empty, starts
/// with neither a blank nor a number sign, holds no line feed, and ends
/// with no blank, tab or carriage return.
pub open spec fn clean(content: Seq<char>) -> bool {
    &&& content.len() > 0
    &&& content[0] != ' '
    &&& content[0] != '#'
    &&& forall|i: int| 0 <= i < content.len() ==> (#[trigger] content[i]) != '\n'
    &&& content.last() != ' '
    &&& content.last() != '\r'
    &&& content.last() != '\t'
}

/// Whether every line has clean content.
pub open spec fn all_clean(lines: Seq<Line>) -> bool {
    forall|i: int| 0 <= i < lines.len() ==> clean((#[trigger] lines[i]).content)
}

/// A text without line feed, before a line feed, is a line of its own
/// length.
proof fn lemma_line_len_of(a: Seq<char>, rest: Seq<char>)
    requires
        forall|i: int| 0 <= i < a.len() ==> (#[trigger] a[i]) != '\n',
    ensures
        line_len(a + seq!['\n'] + rest) == a.len(),
    decreases a.len(),
{
    let s = a + seq!['\n'] + rest;
    if a.len() > 0 {
        assert(s[0] == a[0]);
        assert(s.skip(1) =~= a.skip(1) + seq!['\n'] + rest);
        assert forall|i: int| 0 <= i < a.skip(1).len() implies (#[trigger] a.skip(1)[i]) != '\n' by {
            assert(a.skip(1)[i] == a[i + 1]);
        }
        lemma_line_len_of(a.skip(1), rest);
    } else {
        assert(s[0] == '\n');
    }
}

/// Blanks before a text that starts with no blank are its indentation.
proof fn lemma_indent_len_of(n: nat, content: Seq<char>)
    requires
        content.len() > 0,
        content[0] != ' ',
    ensures
        indent_len(blanks(n) + content) == n,
    decreases n,
{
    let s = blanks(n) + content;
    if n > 0 {
        assert(s[0] == ' ');
        assert(s.skip(1) =~= blanks((n - 1) as nat) + content);
        lemma_indent_len_of((n - 1) as nat, content);
    } else {
        assert(s[0] == content[0]);
    }
}

/// The lines of a text that was written for clean lines are those lines.
pub proof fn lemma_scan_render(lines: Seq<Line>)
    requires
        all_clean(lines),
    ensures
        lines_of(scan_lines(render(lines))) == lines,
    decreases lines.len(),
{
    let text = render(lines);
    if lines.len() == 0 {
        assert(lines_of(scan_lines(text)) =~= lines);
    } else {
        let line = lines[0];
        let content = line.content;
        assert(clean(content));
        let more = render(lines.skip(1));
        let raw = blanks(line.indent) + content;
        assert(text =~= raw + seq!['\n'] + more);
        assert forall|i: int| 0 <= i < raw.len() implies (#[trigger] raw[i]) != '\n' by {
            if i >= line.indent {
                assert(raw[i] == content[i - line.indent]);
            }
        }
        lemma_line_len_of(raw, more);
        assert(text.take(raw.len() as int) =~= raw);
        assert(raw.last() == content.last());
        assert(trimmed_len(raw) == raw.len());
        assert(raw.take(raw.len() as int) =~= raw);
        assert(first_line(text) == raw);
        lemma_indent_len_of(line.indent, content);
        assert(raw.skip(line.indent as int) =~= content);
        assert(text.skip(raw.len() + 1 as int) =~= more);
        assert(next_lines(text) == more);
        assert forall|i: int| 0 <= i < lines.skip(1).len() implies clean(
            (#[trigger] lines.skip(1)[i]).content,
        ) by {
            assert(lines.skip(1)[i] == lines[i + 1]);
        }
        lemma_scan_render(lines.skip(1));
        let head = (line, (text.len() - line.indent) as nat);
        assert(scan_lines(text) == seq![head] + scan_lines(more));
        assert(lines_of(scan_lines(text)) =~= seq![line] + lines_of(scan_lines(more)));
        assert(seq![line] + lines.skip(1) =~= lines);
    }
}

/// A hexadecimal digit is no line feed.
proof fn lemma_hex_no_line_feed(d: nat)
    requires
        d < 16,
    ensures
        crate::json::write::hex_char(d) != '\n',
{
    let c = crate::json::write::hex_char(d);
    if d < 10 {
        assert(c as nat == d + 48);
    } else {
        assert(c as nat == d - 10 + 97);
    }
}

/// The text of one character inside a string holds no line feed.
proof fn lemma_escape_char_no_line_feed(c: char)
    ensures
        forall|i: int| 0 <= i < escape_char(c).len() ==> (#[trigger] escape_char(c)[i]) != '\n',
{
    if c == '"' || c == '\\' || c == '\n' || c == '\r' || c == '\t' {
    } else if (c as u32) < 0x20 {
        lemma_hex_no_line_feed((c as nat) / 16);
        lemma_hex_no_line_feed((c as nat) % 16);
    } else {
    }
}

/// The text of a run of characters inside a string holds no line feed.
proof fn lemma_escape_no_line_feed(s: Seq<char>)
    ensures
        forall|i: int| 0 <= i < escape(s).len() ==> (#[trigger] escape(s)[i]) != '\n',
    decreases s.len(),
{
    if s.len() > 0 {
        lemma_escape_no_line_feed(s.skip(1));
        lemma_escape_char_no_line_feed(s[0]);
        let head = escape_char(s[0]);
        let tail = escape(s.skip(1));
        assert forall|i: int| 0 <= i < escape(s).len() implies (#[trigger] escape(s)[i]) != '\n' by {
            if i < head.len() {
                assert(escape(s)[i] == head[i]);
            } else {
                assert(escape(s)[i] == tail[i - head.len()]);
            }
        }
    }
}

/// The text of a string is clean, and holds a colon only where it is in
/// quotes.
pub proof fn lemma_string_text_clean(s: Seq<char>)
    ensures
        clean(string_text(s)),
        string_text(s)[0] == '"' || is_word_start(string_text(s)[0]),
{
    if !plain_safe(s) {
        let q = quote(s);
        lemma_escape_no_line_feed(s);
        assert(q[0] == '"');
        assert(q.last() == '"');
        assert forall|i: int| 0 <= i < q.len() implies (#[trigger] q[i]) != '\n' by {
            if 0 < i < q.len() - 1 {
                assert(q[i] == escape(s)[i - 1]);
            }
        }
    } else {
        assert forall|i: int| 0 <= i < s.len() implies (#[trigger] s[i]) != '\n' by {
            assert(is_plain_char(s[i]));
        }
        assert(is_plain_char(s[s.len() - 1]));
    }
}

/// The text of a value that is written on one line is clean.
pub proof fn lemma_scalar_text_clean(v: ValueView)
    requires
        canonical(v),
        !is_block(v),
    ensures
        clean(scalar_text(v)),
        scalar_text(v)[0] != '-' || (scalar_text(v).len() > 1 && scalar_text(v)[1] != ' '),
{
    match v {
        ValueView::Number(n) => {
            lemma_number_text(n);
            lemma_number_chars(n.text());
            let t = n.text();
            assert(is_number_char(t[0]));
            assert(is_number_char(t[t.len() - 1]));
            assert forall|i: int| 0 <= i < t.len() implies (#[trigger] t[i]) != '\n' by {
                assert(is_number_char(t[i]));
            }
            if t[0] == '-' {
                assert(crate::number::sign_len(t) == 1);
                crate::text::lemma_digits_len(t.skip(1));
                assert(t.len() > 1);
                assert(t[1] == t.skip(1)[0]);
            }
        },
        ValueView::String(s) => {
            lemma_string_text_clean(s);
        },
        _ => {},
    }
}

/// Every line of a block is clean.
pub proof fn lemma_block_clean(v: ValueView, indent: nat)
    requires
        canonical(v),
    ensures
        all_clean(encode_block(v, indent)),
    decreases v, 0nat,
{
    match v {
        ValueView::Array(items) => {
            lemma_items_clean(items, indent, 0);
        },
        ValueView::Object(entries) => {
            lemma_entries_clean(entries, indent, 0);
        },
        _ => {},
    }
}

/// Lines put together are clean where both parts are.
proof fn lemma_clean_add(a: Seq<Line>, b: Seq<Line>)
    requires
        all_clean(a),
        all_clean(b),
    ensures
        all_clean(a + b),
{
    assert forall|i: int| 0 <= i < (a + b).len() implies clean((#[trigger] (a + b)[i]).content) by {
        if i < a.len() {
            assert((a + b)[i] == a[i]);
        } else {
            assert((a + b)[i] == b[i - a.len()]);
        }
    }
}

/// Every line of the items from `from` on is clean.
proof fn lemma_items_clean(items: Seq<ValueView>, indent: nat, from: nat)
    requires
        forall|i: int| 0 <= i < items.len() ==> canonical(#[trigger] items[i]),
    ensures
        all_clean(encode_items(items, indent, from)),
    decreases items, items.len() - from,
{
    if from < items.len() {
        let item = items[from as int];
        assert(canonical(item));
        let one = encode_item(item, indent);
        if is_block(item) {
            lemma_block_clean(item, indent + 2);
            lemma_clean_add(seq![Line { indent, content: seq!['-'] }], encode_block(item, indent + 2));
        } else {
            lemma_scalar_text_clean(item);
            let content = seq!['-', ' '] + scalar_text(item);
            assert(content.last() == scalar_text(item).last());
            assert forall|i: int| 0 <= i < content.len() implies (#[trigger] content[i]) != '\n' by {
                if i >= 2 {
                    assert(content[i] == scalar_text(item)[i - 2]);
                }
            }
            assert(clean(content));
        }
        lemma_items_clean(items, indent, from + 1);
        lemma_clean_add(one, encode_items(items, indent, from + 1));
    }
}

/// Every line of the entries from `from` on is clean.
proof fn lemma_entries_clean(entries: Seq<(Seq<char>, ValueView)>, indent: nat, from: nat)
    requires
        forall|i: int| 0 <= i < entries.len() ==> canonical((#[trigger] entries[i]).1),
    ensures
        all_clean(encode_entries(entries, indent, from)),
    decreases entries, entries.len() - from,
{
    if from < entries.len() {
        let entry = entries[from as int];
        assert(canonical(entry.1));
        let one = encode_entry(entry, indent);
        let key = string_text(entry.0);
        lemma_string_text_clean(entry.0);
        if is_block(entry.1) {
            lemma_block_clean(entry.1, indent + 2);
            let content = key + seq![':'];
            assert(content[0] == key[0]);
            assert forall|i: int| 0 <= i < content.len() implies (#[trigger] content[i]) != '\n' by {
                if i < key.len() {
                    assert(content[i] == key[i]);
                }
            }
            assert(clean(content));
            lemma_clean_add(seq![Line { indent, content }], encode_block(entry.1, indent + 2));
        } else {
            lemma_scalar_text_clean(entry.1);
            let value = scalar_text(entry.1);
            let content = key + seq![':', ' '] + value;
            assert(content[0] == key[0]);
            assert(content.last() == value.last());
            assert forall|i: int| 0 <= i < content.len() implies (#[trigger] content[i]) != '\n' by {
                if i < key.len() {
                    assert(content[i] == key[i]);
                } else if i >= key.len() + 2 {
                    assert(content[i] == value[i - key.len() - 2]);
                }
            }
            assert(clean(content));
        }
        lemma_entries_clean(entries, indent, from + 1);
        lemma_clean_add(one, encode_entries(entries, indent, from + 1));
    }
}

/// Every line of a document is clean.
pub proof fn lemma_lines_clean(v: ValueView)
    requires
        canonical(v),
    ensures
        all_clean(encode_lines(v)),
{
    if is_block(v) {
        lemma_block_clean(v, 0);
    } else {
        lemma_scalar_text_clean(v);
    }
}

/// A text without colon ends no key.
proof fn lemma_colon_none(s: Seq<char>)
    requires
        forall|i: int| 0 <= i < s.len() ==> (#[trigger] s[i]) != ':',
    ensures
        colon_index(s) is None,
    decreases s.len(),
{
    if s.len() > 0 {
        assert forall|i: int| 0 <= i < s.skip(1).len() implies (#[trigger] s.skip(1)[i]) != ':' by {
            assert(s.skip(1)[i] == s[i + 1]);
        }
        lemma_colon_none(s.skip(1));
    }
}

/// A text without colon, before a colon that is followed by a blank or by
/// nothing, is a key.
proof fn lemma_colon_at(key: Seq<char>, after: Seq<char>)
    requires
        forall|i: int| 0 <= i < key.len() ==> (#[trigger] key[i]) != ':',
        after.len() > 0 ==> after[0] == ' ',
    ensures
        colon_index(key + seq![':'] + after) == Some(key.len()),
    decreases key.len(),
{
    let s = key + seq![':'] + after;
    if key.len() > 0 {
        assert(s[0] == key[0]);
        assert(s.skip(1) =~= key.skip(1) + seq![':'] + after);
        assert forall|i: int| 0 <= i < key.skip(1).len() implies (#[trigger] key.skip(1)[i])
            != ':' by {
            assert(key.skip(1)[i] == key[i + 1]);
        }
        lemma_colon_at(key.skip(1), after);
    } else {
        assert(s[0] == ':');
        if after.len() > 0 {
            assert(s[1] == after[0]);
        }
    }
}

/// A blank before a text that starts with none is skipped, and nothing is
/// skipped of a text that starts with none.
proof fn lemma_skip_blanks(text: Seq<char>)
    requires
        text.len() > 0 ==> text[0] != ' ',
    ensures
        skip_blanks(seq![' '] + text) == text,
        skip_blanks(text) == text,
{
    let s = seq![' '] + text;
    assert(s.skip(1) =~= text);
    assert(text.skip(0) =~= text);
    assert(s.skip(1) =~= text);
    assert(indent_len(text) == 0);
    assert(indent_len(s) == 1);
}

/// The text of a value that is written on one line is read as a scalar,
/// and as that value.
proof fn lemma_scalar(v: ValueView, budget: nat)
    requires
        canonical(v),
        !is_block(v),
        v.level() <= budget,
    ensures
        classify(scalar_text(v)) == Ok::<Shape, ParseFault>(Shape::Scalar),
        scalar_value(scalar_text(v), budget) == Ok::<ValueView, ParseFault>(v),
{
    reveal(classify);
    reveal(scalar_value);
    let t = scalar_text(v);
    lemma_scalar_text_clean(v);
    match v {
        ValueView::Null => {
            lemma_colon_none(t);
        },
        ValueView::Bool(_) => {
            lemma_colon_none(t);
        },
        ValueView::Number(n) => {
            lemma_number_text(n);
            lemma_number_chars(t);
            assert forall|i: int| 0 <= i < t.len() implies (#[trigger] t[i]) != ':' by {
                assert(is_number_char(t[i]));
            }
            lemma_colon_none(t);
            assert(is_number_char(t[0]));
        },
        ValueView::String(s) => {
            if plain_safe(s) {
                assert forall|i: int| 0 <= i < s.len() implies (#[trigger] s[i]) != ':' by {
                    assert(is_plain_char(s[i]));
                }
                lemma_colon_none(s);
            } else {
                assert(t.skip(1) =~= escape(s) + seq!['"'] + Seq::<char>::empty());
                crate::json::laws::lemma_string(s, Seq::empty());
                assert(tail(t.skip(1), 0) =~= Seq::<char>::empty());
            }
        },
        ValueView::Array(items) => {
            assert(items =~= Seq::<ValueView>::empty());
            assert(crate::json::write::encode(v) =~= t);
            assert(t + Seq::<char>::empty() =~= t);
            assert(item_levels(items) =~= Seq::<nat>::empty());
            crate::json::laws::lemma_value(v, Seq::empty(), budget);
            assert(tail(t, 0) =~= Seq::<char>::empty());
        },
        ValueView::Object(entries) => {
            assert(entries =~= Seq::<(Seq<char>, ValueView)>::empty());
            assert(crate::json::write::encode(v) =~= t);
            assert(t + Seq::<char>::empty() =~= t);
            assert(entry_levels(entries) =~= Seq::<nat>::empty());
            crate::json::laws::lemma_value(v, Seq::empty(), budget);
            assert(tail(t, 0) =~= Seq::<char>::empty());
        },
    }
}

/// A dash, alone or before a text, is read as an item with that text.
proof fn lemma_dash(text: Seq<char>)
    requires
        text.len() > 0 ==> text[0] != ' ',
    ensures
        classify(seq!['-']) == Ok::<Shape, ParseFault>(Shape::Dash(Seq::empty())),
        text.len() > 0 ==> classify(seq!['-', ' '] + text) == Ok::<Shape, ParseFault>(
            Shape::Dash(text),
        ),
{
    reveal(classify);
    let alone = seq!['-'];
    assert(alone.skip(1) =~= Seq::<char>::empty());
    assert(skip_blanks(Seq::<char>::empty()) =~= Seq::<char>::empty());
    if text.len() > 0 {
        let s = seq!['-', ' '] + text;
        assert(s.skip(1) =~= seq![' '] + text);
        lemma_skip_blanks(text);
    }
}

/// A key before a colon, alone or before a text, is read as an entry with
/// that key and that text.
proof fn lemma_pair(key: Seq<char>, text: Seq<char>)
    requires
        text.len() > 0 ==> text[0] != ' ',
    ensures
        classify(string_text(key) + seq![':']) == Ok::<Shape, ParseFault>(
            Shape::Pair(key, Seq::empty()),
        ),
        text.len() > 0 ==> classify(string_text(key) + seq![':', ' '] + text) == Ok::<
            Shape,
            ParseFault,
        >(Shape::Pair(key, text)),
{
    reveal(classify);
    let k = string_text(key);
    lemma_string_text_clean(key);
    let alone = k + seq![':'];
    let full = k + seq![':', ' '] + text;
    assert(alone[0] == k[0]);
    assert(full[0] == k[0]);
    lemma_skip_blanks(text);
    assert(skip_blanks(Seq::<char>::empty()) =~= Seq::<char>::empty());
    if plain_safe(key) {
        assert forall|i: int| 0 <= i < key.len() implies (#[trigger] key[i]) != ':' by {
            assert(is_plain_char(key[i]));
        }
        lemma_colon_at(key, Seq::empty());
        assert(key + seq![':'] + Seq::<char>::empty() =~= alone);
        assert(alone.take(key.len() as int) =~= key);
        assert(alone.skip(key.len() + 1 as int) =~= Seq::<char>::empty());
        if text.len() > 0 {
            lemma_colon_at(key, seq![' '] + text);
            assert(key + seq![':'] + (seq![' '] + text) =~= full);
            assert(full.take(key.len() as int) =~= key);
            assert(full.skip(key.len() + 1 as int) =~= seq![' '] + text);
        }
    } else {
        assert(alone.skip(1) =~= escape(key) + seq!['"'] + seq![':']);
        crate::json::laws::lemma_string(key, seq![':']);
        assert(tail(alone.skip(1), 1) =~= seq![':']);
        assert(seq![':'].skip(1) =~= Seq::<char>::empty());
        if text.len() > 0 {
            let behind = seq![':', ' '] + text;
            assert(full.skip(1) =~= escape(key) + seq!['"'] + behind);
            crate::json::laws::lemma_string(key, behind);
            assert(tail(full.skip(1), behind.len()) =~= behind);
            assert(behind.skip(1) =~= seq![' '] + text);
        }
    }
}

/// Whether a block at `indent` ends before the lines `after`.
pub open spec fn stops(after: Seq<Line>, indent: nat) -> bool {
    after.len() == 0 || after[0].indent < indent
}

/// The lines of a block, before lines at which it ends, are read back as
/// the value of the block.
proof fn lemma_block(v: ValueView, indent: nat, after: Seq<Line>, budget: nat)
    requires
        is_block(v),
        canonical(v),
        v.level() <= budget,
        stops(after, indent),
    ensures
        ({
            let ls = encode_block(v, indent) + after;
            &&& ls.len() > after.len()
            &&& ls[0].indent == indent
            &&& parse_node(ls[0], ls.skip(1), budget) == Ok::<(ValueView, nat), Failure>(
                (v, after.len()),
            )
        }),
    decreases v, 0nat,
{
    reveal(parse_node);
    reveal(parse_sequence);
    reveal(parse_mapping);
    match v {
        ValueView::Array(items) => {
            assert forall|i: int| 0 <= i < items.len() implies (#[trigger] items[i]).level()
                <= budget - 1 by {
                lemma_max_of_upper(item_levels(items), i);
            }
            lemma_sequence(items, indent, 0, after, (budget - 1) as nat);
            assert(items.skip(0) =~= items);
        },
        ValueView::Object(entries) => {
            assert forall|i: int| 0 <= i < entries.len() implies (#[trigger] entries[i]).1.level()
                <= budget - 1 by {
                lemma_max_of_upper(entry_levels(entries), i);
            }
            lemma_mapping(entries, indent, 0, after, (budget - 1) as nat);
            assert(entries.skip(0) =~= entries);
            lemma_put_all_same(entries, entries.len());
            assert(entries.take(entries.len() as int) =~= entries);
        },
        _ => {},
    }
}

/// Whether a line at `indent` may follow an item or entry at `indent`: it
/// stands no further to the right.
pub open spec fn follows(more: Seq<Line>, indent: nat) -> bool {
    more.len() == 0 || more[0].indent <= indent
}

/// The lines of one item are read back as that item.
proof fn lemma_item(item: ValueView, indent: nat, more: Seq<Line>, budget: nat)
    requires
        canonical(item),
        item.level() <= budget,
        follows(more, indent),
    ensures
        ({
            let ls = encode_item(item, indent) + more;
            &&& ls.len() > more.len()
            &&& ls[0].indent == indent
            &&& classify(ls[0].content) matches Ok(Shape::Dash(text))
            &&& text.len() < ls[0].content.len()
            &&& parse_held(
                indent,
                (indent + ls[0].content.len() - text.len()) as nat,
                text,
                true,
                ls.skip(1),
                budget,
            ) == Ok::<(ValueView, nat), Failure>((item, more.len()))
        }),
    decreases item, 1nat,
{
    reveal(parse_held);
    reveal(parse_node);
    let ls = encode_item(item, indent) + more;
    if is_block(item) {
        let head = Line { indent, content: seq!['-'] };
        let nested = encode_block(item, indent + 2) + more;
        assert(encode_item(item, indent) == seq![head] + encode_block(item, indent + 2));
        assert(ls =~= seq![head] + nested);
        assert(ls.skip(1) =~= nested);
        lemma_dash(Seq::empty());
        assert(stops(more, indent + 2));
        lemma_block(item, indent + 2, more, budget);
    } else {
        let text = scalar_text(item);
        lemma_scalar_text_clean(item);
        let head = Line { indent, content: seq!['-', ' '] + text };
        assert(encode_item(item, indent) == seq![head]);
        assert(ls =~= seq![head] + more);
        assert(ls.skip(1) =~= more);
        lemma_dash(text);
        lemma_scalar(item, budget);
    }
}

/// The lines of one entry are read back as that entry.
proof fn lemma_entry(entry: (Seq<char>, ValueView), indent: nat, more: Seq<Line>, budget: nat)
    requires
        canonical(entry.1),
        entry.1.level() <= budget,
        follows(more, indent),
    ensures
        ({
            let ls = encode_entry(entry, indent) + more;
            &&& ls.len() > more.len()
            &&& ls[0].indent == indent
            &&& classify(ls[0].content) matches Ok(Shape::Pair(key, text))
            &&& key == entry.0
            &&& text.len() < ls[0].content.len()
            &&& parse_held(indent, 0, text, false, ls.skip(1), budget) == Ok::<
                (ValueView, nat),
                Failure,
            >((entry.1, more.len()))
        }),
    decreases entry.1, 1nat,
{
    reveal(parse_held);
    reveal(parse_node);
    let ls = encode_entry(entry, indent) + more;
    let key = string_text(entry.0);
    lemma_string_text_clean(entry.0);
    if is_block(entry.1) {
        let head = Line { indent, content: key + seq![':'] };
        let nested = encode_block(entry.1, indent + 2) + more;
        assert(encode_entry(entry, indent) == seq![head] + encode_block(entry.1, indent + 2));
        assert(ls =~= seq![head] + nested);
        assert(ls.skip(1) =~= nested);
        lemma_pair(entry.0, Seq::empty());
        assert(stops(more, indent + 2));
        lemma_block(entry.1, indent + 2, more, budget);
    } else {
        let text = scalar_text(entry.1);
        lemma_scalar_text_clean(entry.1);
        let head = Line { indent, content: key + seq![':', ' '] + text };
        assert(encode_entry(entry, indent) == seq![head]);
        assert(ls =~= seq![head] + more);
        assert(ls.skip(1) =~= more);
        lemma_pair(entry.0, text);
        lemma_scalar(entry.1, budget);
    }
}

/// The lines of the items from `from` on, before lines at which the
/// sequence ends, are read back as those items.
proof fn lemma_sequence(
    items: Seq<ValueView>,
    indent: nat,
    from: nat,
    after: Seq<Line>,
    budget: nat,
)
    requires
        from < items.len(),
        forall|i: int| 0 <= i < items.len() ==> canonical(#[trigger] items[i]),
        forall|i: int| 0 <= i < items.len() ==> (#[trigger] items[i]).level() <= budget,
        stops(after, indent),
    ensures
        ({
            let ls = encode_items(items, indent, from) + after;
            &&& ls.len() > after.len()
            &&& ls[0].indent == indent
            &&& classify(ls[0].content) matches Ok(Shape::Dash(_))
            &&& parse_sequence(ls[0], ls.skip(1), budget) == Ok::<(Seq<ValueView>, nat), Failure>(
                (items.skip(from as int), after.len()),
            )
        }),
    decreases items, items.len() - from,
{
    reveal(parse_sequence);
    reveal(parse_held);
    let item = items[from as int];
    assert(canonical(item) && item.level() <= budget);
    let one = encode_item(item, indent);
    let ls = encode_items(items, indent, from) + after;
    let more = encode_items(items, indent, from + 1) + after;
    assert(ls =~= one + more);
    if from + 1 < items.len() {
        lemma_sequence(items, indent, from + 1, after, budget);
        assert(continues_sequence(more, indent));
        assert(seq![item] + items.skip(from + 1 as int) =~= items.skip(from as int));
    } else {
        assert(more =~= after);
        assert(!continues_sequence(more, indent));
        assert(items.skip(from as int) =~= seq![item]);
    }
    lemma_item(item, indent, more, budget);
    assert(tail_lines(ls.skip(1), more.len()) =~= more);
}

/// The lines of the entries from `from` on, before lines at which the
/// mapping ends, are read back as those entries.
proof fn lemma_mapping(
    entries: Seq<(Seq<char>, ValueView)>,
    indent: nat,
    from: nat,
    after: Seq<Line>,
    budget: nat,
)
    requires
        from < entries.len(),
        forall|i: int| 0 <= i < entries.len() ==> canonical((#[trigger] entries[i]).1),
        forall|i: int| 0 <= i < entries.len() ==> (#[trigger] entries[i]).1.level() <= budget,
        stops(after, indent),
    ensures
        ({
            let ls = encode_entries(entries, indent, from) + after;
            &&& ls.len() > after.len()
            &&& ls[0].indent == indent
            &&& classify(ls[0].content) matches Ok(Shape::Pair(_, _))
            &&& parse_mapping(ls[0], ls.skip(1), budget) == Ok::<
                (Seq<(Seq<char>, ValueView)>, nat),
                Failure,
            >((entries.skip(from as int), after.len()))
        }),
    decreases entries, entries.len() - from,
{
    reveal(parse_mapping);
    reveal(parse_held);
    let entry = entries[from as int];
    assert(canonical(entry.1) && entry.1.level() <= budget);
    let one = encode_entry(entry, indent);
    let ls = encode_entries(entries, indent, from) + after;
    let more = encode_entries(entries, indent, from + 1) + after;
    assert(ls =~= one + more);
    if from + 1 < entries.len() {
        lemma_mapping(entries, indent, from + 1, after, budget);
        assert(continues_mapping(more, indent));
        assert(seq![entry] + entries.skip(from + 1 as int) =~= entries.skip(from as int));
    } else {
        assert(more =~= after);
        assert(!continues_mapping(more, indent));
        assert(entries.skip(from as int) =~= seq![entry]);
    }
    lemma_entry(entry, indent, more, budget);
    assert(tail_lines(ls.skip(1), more.len()) =~= more);
}

/// Round trip: the document that is written for a value is read back as
/// that value. This holds of every tree that is held as a reader holds it
/// (no key twice in an object, every number canonical) and that is nested
/// no deeper than the reader follows.
pub proof fn law_round_trip(v: ValueView)
    requires
        canonical(v),
        v.level() <= MAX_NESTING,
    ensures
        parse_document(crate::yaml::write::encode(v)) == Ok::<ValueView, Failure>(v),
        parse_bytes(vstd::utf8::encode_utf8(crate::yaml::write::encode(v))) == Ok::<
            ValueView,
            ParseError,
        >(v),
{
    let lines = encode_lines(v);
    let text = crate::yaml::write::encode(v);
    lemma_lines_clean(v);
    lemma_scan_render(lines);
    vstd::utf8::encode_utf8_decode_utf8(text);
    vstd::utf8::encode_utf8_valid_utf8(text);
    if is_block(v) {
        lemma_block(v, 0, Seq::empty(), MAX_NESTING as nat);
        assert(encode_block(v, 0) + Seq::<Line>::empty() =~= lines);
    } else {
        reveal(parse_node);
        lemma_scalar(v, MAX_NESTING as nat);
        assert(lines.skip(1) =~= Seq::<Line>::empty());
    }
}

} // verus!
