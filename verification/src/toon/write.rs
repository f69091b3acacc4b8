//! The TOON writer.

use crate::delimited::write::{is_row, is_scalar, is_table};
use crate::error::{EncodeError, EncodeFault, Format};
use crate::json::write::{
    lemma_writable_entry, lemma_writable_item, push_quoted, quote, writable,
};
use crate::text::{chars_of, decimal_digits, push_all, push_decimal, push_str, string_of};
use crate::value::{entry_views, lemma_array_view, lemma_object_view, views, Value, ValueView};
use crate::yaml::syntax::Line;
use crate::yaml::write::{
    blanks, check_plain, lemma_render_add, lemma_render_one, plain_safe, render, render_line,
};
use vstd::prelude::*;

verus! {

/// Whether a string can be written bare: a reader of plain text takes it
/// for the same string, and it holds nothing that parts cells or marks
/// arrays and tables.
pub open spec fn bare(s: Seq<char>) -> bool {
    &&& plain_safe(s)
    &&& forall|i: int|
        0 <= i < s.len() ==> (#[trigger] s[i]) != ',' && s[i] != '[' && s[i] != ']' && s[i] != '{'
            && s[i] != '}'
}

/// The text of a string: bare where that is safe, else in quotes.
pub open spec fn string_text(s: Seq<char>) -> Seq<char> {
    if bare(s) {
        s
    } else {
        quote(s)
    }
}

/// The text of a scalar.
pub open spec fn scalar_text(v: ValueView) -> Seq<char> {
    match v {
        ValueView::Null => seq!['n', 'u', 'l', 'l'],
        ValueView::Bool(b) => if b {
            seq!['t', 'r', 'u', 'e']
        } else {
            seq!['f', 'a', 'l', 's', 'e']
        },
        ValueView::Number(n) => n.text(),
        ValueView::String(s) => string_text(s),
        _ => Seq::empty(),
    }
}

/// The length of an array between brackets.
pub open spec fn count_text(n: nat) -> Seq<char> {
    seq!['['] + decimal_digits(n) + seq![']']
}

/// The scalars from `from` on, with commas between them.
pub open spec fn cells_text(items: Seq<ValueView>, from: nat) -> Seq<char>
    decreases items.len() - from,
{
    if from >= items.len() {
        Seq::empty()
    } else if from + 1 == items.len() {
        scalar_text(items[from as int])
    } else {
        scalar_text(items[from as int]) + seq![','] + cells_text(items, from + 1)
    }
}

/// The keys from `from` on, with commas between them.
pub open spec fn names_text(entries: Seq<(Seq<char>, ValueView)>, from: nat) -> Seq<char>
    decreases entries.len() - from,
{
    if from >= entries.len() {
        Seq::empty()
    } else if from + 1 == entries.len() {
        string_text(entries[from as int].0)
    } else {
        string_text(entries[from as int].0) + seq![','] + names_text(entries, from + 1)
    }
}

/// The values of a row from `from` on, with commas between them.
pub open spec fn row_text(entries: Seq<(Seq<char>, ValueView)>, from: nat) -> Seq<char>
    decreases entries.len() - from,
{
    if from >= entries.len() {
        Seq::empty()
    } else if from + 1 == entries.len() {
        scalar_text(entries[from as int].1)
    } else {
        scalar_text(entries[from as int].1) + seq![','] + row_text(entries, from + 1)
    }
}

/// The lines of the rows of a table from `from` on.
pub open spec fn rows(items: Seq<ValueView>, indent: nat, from: nat) -> Seq<Line>
    decreases items.len() - from,
{
    if from >= items.len() {
        Seq::empty()
    } else {
        seq![Line { indent, content: row_text(items[from as int]->Object_0, 0) }] + rows(
            items,
            indent,
            from + 1,
        )
    }
}

/// Whether every item is a scalar.
pub open spec fn all_scalars(items: Seq<ValueView>) -> bool {
    forall|i: int| 0 <= i < items.len() ==> is_scalar(#[trigger] items[i])
}

/// The lines of a value under a label, which is a key or a dash or
/// nothing.
pub open spec fn encode_field(label: Seq<char>, v: ValueView, indent: nat) -> Seq<Line>
    decreases v, 1nat,
{
    match v {
        ValueView::Array(items) => {
            let head = label + count_text(items.len());
            if items.len() > 0 && is_table(v) {
                seq![
                    Line {
                        indent,
                        content: head + seq!['{'] + names_text(items[0]->Object_0, 0) + seq![
                            '}',
                            ':',
                        ],
                    },
                ] + rows(items, indent + 2, 0)
            } else if all_scalars(items) {
                seq![
                    Line {
                        indent,
                        content: if items.len() == 0 {
                            head + seq![':']
                        } else {
                            head + seq![':', ' '] + cells_text(items, 0)
                        },
                    },
                ]
            } else {
                seq![Line { indent, content: head + seq![':'] }] + list_items(items, indent + 2, 0)
            }
        },
        ValueView::Object(entries) => seq![Line { indent, content: label + seq![':'] }] + fields(
            entries,
            indent + 2,
            0,
        ),
        _ => seq![Line { indent, content: label + seq![':', ' '] + scalar_text(v) }],
    }
}

/// The lines of one item of an array that is written as a list.
pub open spec fn list_item(item: ValueView, indent: nat) -> Seq<Line>
    decreases item, 2nat,
{
    match item {
        ValueView::Array(_) => encode_field(seq!['-', ' '], item, indent),
        ValueView::Object(entries) => seq![Line { indent, content: seq!['-'] }] + fields(
            entries,
            indent + 2,
            0,
        ),
        _ => seq![Line { indent, content: seq!['-', ' '] + scalar_text(item) }],
    }
}

/// The lines of the items from `from` on.
pub open spec fn list_items(items: Seq<ValueView>, indent: nat, from: nat) -> Seq<Line>
    decreases items, items.len() - from,
{
    if from >= items.len() {
        Seq::empty()
    } else {
        list_item(items[from as int], indent) + list_items(items, indent, from + 1)
    }
}

/// The lines of the entries from `from` on.
pub open spec fn fields(entries: Seq<(Seq<char>, ValueView)>, indent: nat, from: nat) -> Seq<Line>
    decreases entries, entries.len() - from,
{
    if from >= entries.len() {
        Seq::empty()
    } else {
        encode_field(string_text(entries[from as int].0), entries[from as int].1, indent) + fields(
            entries,
            indent,
            from + 1,
        )
    }
}

/// The lines of a document.
pub open spec fn encode_lines(v: ValueView) -> Seq<Line> {
    match v {
        ValueView::Object(entries) => fields(entries, 0, 0),
        ValueView::Array(_) => encode_field(Seq::empty(), v, 0),
        _ => seq![Line { indent: 0, content: scalar_text(v) }],
    }
}

/// The text of a document.
pub open spec fn encode(v: ValueView) -> Seq<char> {
    render(encode_lines(v))
}

/// Whether a string can be written bare.
fn check_bare(text: &Vec<char>, s: &str) -> (r: bool)
    requires
        text@ == s@,
    ensures
        r == bare(s@),
{
    if !check_plain(text, s) {
        return false;
    }
    let mut i: usize = 0;
    while i < text.len()
        invariant
            i <= text.len(),
            text@ == s@,
            forall|j: int|
                0 <= j < i ==> (#[trigger] text@[j]) != ',' && text@[j] != '[' && text@[j] != ']'
                    && text@[j] != '{' && text@[j] != '}',
        decreases text.len() - i,
    {
        let c = text[i];
        if c == ',' || c == '[' || c == ']' || c == '{' || c == '}' {
            assert(!(text@[i as int] != ',' && text@[i as int] != '[' && text@[i as int] != ']'
                && text@[i as int] != '{' && text@[i as int] != '}'));
            return false;
        }
        i += 1;
    }
    true
}

/// Appends the text of a string.
fn push_string(out: &mut Vec<char>, s: &str)
    ensures
        final(out)@ == old(out)@ + string_text(s@),
{
    let text = chars_of(s);
    if check_bare(&text, s) {
        push_all(out, &text);
    } else {
        push_quoted(out, s);
    }
}

/// Appends the text of a scalar, where its number can be written.
fn push_scalar(out: &mut Vec<char>, v: &Value) -> (ok: bool)
    requires
        is_scalar(v@),
    ensures
        ok == writable(v@),
        ok ==> final(out)@ == old(out)@ + scalar_text(v@),
{
    proof {
        reveal_strlit("null");
        reveal_strlit("true");
        reveal_strlit("false");
        assert("null"@ =~= seq!['n', 'u', 'l', 'l']);
        assert("true"@ =~= seq!['t', 'r', 'u', 'e']);
        assert("false"@ =~= seq!['f', 'a', 'l', 's', 'e']);
    }
    match v {
        Value::Null => {
            push_str(out, "null");
            true
        },
        Value::Bool(b) => {
            if *b {
                push_str(out, "true");
            } else {
                push_str(out, "false");
            }
            true
        },
        Value::Number(n) => n.write(out),
        Value::String(s) => {
            push_string(out, s.as_str());
            true
        },
        Value::Array(items) => {
            proof {
                lemma_array_view(*items);
            }
            true
        },
        Value::Object(entries) => {
            proof {
                lemma_object_view(*entries);
            }
            true
        },
    }
}

/// Appends one line: the indentation, the content and a line feed.
fn push_line(out: &mut Vec<char>, pad: &Vec<char>, content: &Vec<char>)
    requires
        pad@ == blanks(pad@.len()),
    ensures
        final(out)@ == old(out)@ + render(seq![Line { indent: pad@.len(), content: content@ }]),
{
    push_all(out, pad);
    push_all(out, content);
    out.push('\n');
    proof {
        let line = Line { indent: pad@.len(), content: content@ };
        lemma_render_one(line);
        assert(out@ =~= old(out)@ + render_line(line));
    }
}

/// The indentation one level deeper.
fn deeper(pad: &Vec<char>) -> (r: Vec<char>)
    requires
        pad@ == blanks(pad@.len()),
    ensures
        r@ == blanks(pad@.len() + 2),
{
    let mut r = pad.clone();
    r.push(' ');
    r.push(' ');
    assert(r@ =~= blanks(pad@.len() + 2));
    r
}

/// Appends the length of an array between brackets.
fn push_count(out: &mut Vec<char>, n: usize)
    ensures
        final(out)@ == old(out)@ + count_text(n as nat),
{
    out.push('[');
    push_decimal(out, n as u64);
    out.push(']');
    assert(out@ =~= old(out)@ + count_text(n as nat));
}

/// Whether the value is null, a boolean, a number or a string.
fn check_scalar(v: &Value) -> (r: bool)
    ensures
        r == is_scalar(v@),
{
    match v {
        Value::Array(items) => {
            proof {
                lemma_array_view(*items);
            }
            false
        },
        Value::Object(entries) => {
            proof {
                lemma_object_view(*entries);
            }
            false
        },
        _ => true,
    }
}

/// Whether every item is a scalar.
fn check_all_scalars(items: &Vec<Value>) -> (r: bool)
    ensures
        r == all_scalars(views(items@)),
{
    let mut i: usize = 0;
    while i < items.len()
        invariant
            i <= items.len(),
            forall|j: int| 0 <= j < i ==> is_scalar(#[trigger] views(items@)[j]),
        decreases items.len() - i,
    {
        if !check_scalar(&items[i]) {
            assert(!is_scalar(views(items@)[i as int]));
            return false;
        }
        i += 1;
    }
    true
}

/// Appends the scalars, with commas between them.
fn push_cells(out: &mut Vec<char>, items: &Vec<Value>) -> (ok: bool)
    requires
        all_scalars(views(items@)),
    ensures
        ok == (forall|j: int| 0 <= j < items.len() ==> writable(#[trigger] views(items@)[j])),
        ok ==> final(out)@ == old(out)@ + cells_text(views(items@), 0),
{
    let ghost all = views(items@);
    let mut i: usize = 0;
    proof {
        if items.len() == 0 {
            assert(old(out)@ + cells_text(all, 0) =~= old(out)@);
        }
    }
    while i < items.len()
        invariant
            i <= items.len(),
            all == views(items@),
            all_scalars(all),
            forall|j: int| 0 <= j < i ==> writable(#[trigger] all[j]),
            i < items.len() ==> out@ + cells_text(all, i as nat) == old(out)@ + cells_text(all, 0),
            i == items.len() ==> out@ == old(out)@ + cells_text(all, 0),
        decreases items.len() - i,
    {
        let ghost before = out@;
        assert(is_scalar(all[i as int]));
        if !push_scalar(out, &items[i]) {
            assert(!writable(all[i as int]));
            return false;
        }
        let ghost one = scalar_text(all[i as int]);
        if i + 1 < items.len() {
            out.push(',');
            assert(out@ + cells_text(all, (i + 1) as nat) =~= before + (one + seq![',']
                + cells_text(all, (i + 1) as nat)));
        }
        i += 1;
    }
    true
}

/// Appends the keys, with commas between them.
fn push_names(out: &mut Vec<char>, entries: &Vec<(String, Value)>)
    requires
        entries.len() >= 1,
    ensures
        final(out)@ == old(out)@ + names_text(entry_views(entries@), 0),
{
    let ghost all = entry_views(entries@);
    let mut i: usize = 0;
    while i < entries.len()
        invariant
            i <= entries.len(),
            entries.len() >= 1,
            all == entry_views(entries@),
            i < entries.len() ==> out@ + names_text(all, i as nat) == old(out)@ + names_text(
                all,
                0,
            ),
            i == entries.len() ==> out@ == old(out)@ + names_text(all, 0),
        decreases entries.len() - i,
    {
        let ghost before = out@;
        push_string(out, entries[i].0.as_str());
        let ghost one = string_text(all[i as int].0);
        if i + 1 < entries.len() {
            out.push(',');
            assert(out@ + names_text(all, (i + 1) as nat) =~= before + (one + seq![',']
                + names_text(all, (i + 1) as nat)));
        }
        i += 1;
    }
}

/// Appends the values of a row, with commas between them.
fn push_row(out: &mut Vec<char>, entries: &Vec<(String, Value)>) -> (ok: bool)
    requires
        entries.len() >= 1,
        forall|j: int| 0 <= j < entries.len() ==> is_scalar((#[trigger] entry_views(entries@)[j]).1),
    ensures
        ok == (forall|j: int|
            0 <= j < entries.len() ==> writable((#[trigger] entry_views(entries@)[j]).1)),
        ok ==> final(out)@ == old(out)@ + row_text(entry_views(entries@), 0),
{
    let ghost all = entry_views(entries@);
    let mut i: usize = 0;
    while i < entries.len()
        invariant
            i <= entries.len(),
            entries.len() >= 1,
            all == entry_views(entries@),
            forall|k: int| 0 <= k < entries.len() ==> is_scalar((#[trigger] all[k]).1),
            forall|k: int| 0 <= k < i ==> writable((#[trigger] all[k]).1),
            i < entries.len() ==> out@ + row_text(all, i as nat) == old(out)@ + row_text(all, 0),
            i == entries.len() ==> out@ == old(out)@ + row_text(all, 0),
        decreases entries.len() - i,
    {
        let ghost before = out@;
        assert(is_scalar(all[i as int].1));
        if !push_scalar(out, &entries[i].1) {
            assert(!writable(all[i as int].1));
            return false;
        }
        let ghost one = scalar_text(all[i as int].1);
        if i + 1 < entries.len() {
            out.push(',');
            assert(out@ + row_text(all, (i + 1) as nat) =~= before + (one + seq![','] + row_text(
                all,
                (i + 1) as nat,
            )));
        }
        i += 1;
    }
    true
}

/// Whether the array is a table that is not empty.
fn check_table(v: &Value, items: &Vec<Value>) -> (r: bool)
    requires
        v@ == ValueView::Array(views(items@)),
    ensures
        r == (items.len() > 0 && is_table(v@)),
{
    if items.len() == 0 {
        return false;
    }
    let ghost all = views(items@);
    let mut i: usize = 0;
    while i < items.len()
        invariant
            i <= items.len(),
            items.len() > 0,
            all == views(items@),
            v@ == ValueView::Array(all),
            forall|k: int| 0 <= k < i ==> is_row(#[trigger] all[k], all[0]),
        decreases items.len() - i,
    {
        if !crate::delimited::write::check_row(&items[i], &items[0]) {
            assert(v@->Array_0[i as int] == all[i as int]);
            return false;
        }
        i += 1;
    }
    true
}

/// Appends the lines of the rows of a table.
fn write_rows(items: &Vec<Value>, pad: &Vec<char>, out: &mut Vec<char>) -> (ok: bool)
    requires
        pad@ == blanks(pad@.len()),
        items.len() > 0,
        forall|k: int| 0 <= k < items.len() ==> is_row(#[trigger] views(items@)[k], views(items@)[0]),
    ensures
        ok == (forall|j: int| 0 <= j < items.len() ==> writable(#[trigger] views(items@)[j])),
        ok ==> final(out)@ == old(out)@ + render(rows(views(items@), pad@.len(), 0)),
{
    let ghost all = views(items@);
    let ghost indent = pad@.len();
    let mut i: usize = 0;
    while i < items.len()
        invariant
            i <= items.len(),
            all == views(items@),
            indent == pad@.len(),
            pad@ == blanks(pad@.len()),
            forall|k: int| 0 <= k < items.len() ==> is_row(#[trigger] all[k], all[0]),
            forall|j: int| 0 <= j < i ==> writable(#[trigger] all[j]),
            out@ + render(rows(all, indent, i as nat)) == old(out)@ + render(rows(all, indent, 0)),
        decreases items.len() - i,
    {
        let ghost before = out@;
        assert(is_row(all[i as int], all[0]));
        let entries = match &items[i] {
            Value::Object(entries) => entries,
            _ => {
                return false;
            },
        };
        proof {
            lemma_object_view(*entries);
        }
        let ghost row = entry_views(entries@);
        assert forall|j: int| 0 <= j < entries.len() implies is_scalar((#[trigger] row[j]).1) by {
            assert(all[i as int]->Object_0[j] == row[j]);
        }
        let mut line: Vec<char> = Vec::new();
        if !push_row(&mut line, entries) {
            proof {
                let j = choose|j: int| 0 <= j < row.len() && !writable((#[trigger] row[j]).1);
                if writable(all[i as int]) {
                    lemma_writable_entry(row, j);
                }
            }
            return false;
        }
        push_line(out, pad, &line);
        proof {
            assert(line@ =~= row_text(row, 0));
            let one = seq![Line { indent, content: row_text(row, 0) }];
            let more = rows(all, indent, (i + 1) as nat);
            lemma_render_add(one, more);
            assert(before + render(one) + render(more) =~= before + (render(one) + render(more)));
            assert(writable(all[i as int]));
        }
        i += 1;
    }
    proof {
        assert(out@ + render(rows(all, indent, i as nat)) =~= out@);
    }
    true
}

/// Appends the lines of a value under a label.
fn write_field(label: &Vec<char>, v: &Value, pad: &Vec<char>, out: &mut Vec<char>) -> (ok: bool)
    requires
        pad@ == blanks(pad@.len()),
    ensures
        ok == writable(v@),
        ok ==> final(out)@ == old(out)@ + render(encode_field(label@, v@, pad@.len())),
    decreases v, 1nat,
{
    let ghost indent = pad@.len();
    let mut line: Vec<char> = Vec::new();
    push_all(&mut line, label);
    assert(line@ =~= label@);
    match v {
        Value::Array(items) => {
            proof {
                lemma_array_view(*items);
            }
            let ghost all = views(items@);
            push_count(&mut line, items.len());
            let ghost head = label@ + count_text(items.len() as nat);
            if check_table(v, items) {
                let names = match &items[0] {
                    Value::Object(names) => names,
                    _ => {
                        assert(v@->Array_0[0] == all[0]);
                        assert(is_row(all[0], all[0]));
                        return false;
                    },
                };
                proof {
                    assert(v@->Array_0[0] == all[0]);
                    assert(is_row(all[0], all[0]));
                    lemma_object_view(*names);
                }
                line.push('{');
                push_names(&mut line, names);
                line.push('}');
                line.push(':');
                push_line(out, pad, &line);
                let inner = deeper(pad);
                let ghost first = Line {
                    indent,
                    content: head + seq!['{'] + names_text(all[0]->Object_0, 0) + seq!['}', ':'],
                };
                proof {
                    assert(line@ =~= first.content);
                    lemma_render_add(seq![first], rows(all, indent + 2, 0));
                }
                if !write_rows(items, &inner, out) {
                    proof {
                        let j = choose|j: int| 0 <= j < all.len() && !writable(#[trigger] all[j]);
                        if writable(v@) {
                            lemma_writable_item(all, j);
                        }
                    }
                    return false;
                }
                proof {
                    assert(out@ =~= old(out)@ + (render(seq![first]) + render(
                        rows(all, indent + 2, 0),
                    )));
                }
                true
            } else if check_all_scalars(items) {
                line.push(':');
                if items.len() > 0 {
                    line.push(' ');
                    if !push_cells(&mut line, items) {
                        proof {
                            let j = choose|j: int|
                                0 <= j < all.len() && !writable(#[trigger] all[j]);
                            if writable(v@) {
                                lemma_writable_item(all, j);
                            }
                        }
                        return false;
                    }
                    assert(line@ =~= head + seq![':', ' '] + cells_text(all, 0));
                } else {
                    assert(line@ =~= head + seq![':']);
                }
                push_line(out, pad, &line);
                true
            } else {
                line.push(':');
                assert(line@ =~= head + seq![':']);
                push_line(out, pad, &line);
                let inner = deeper(pad);
                let ghost first = Line { indent, content: head + seq![':'] };
                proof {
                    lemma_render_add(seq![first], list_items(all, indent + 2, 0));
                }
                if !write_list(items, &inner, out) {
                    proof {
                        let j = choose|j: int| 0 <= j < all.len() && !writable(#[trigger] all[j]);
                        if writable(v@) {
                            lemma_writable_item(all, j);
                        }
                    }
                    return false;
                }
                proof {
                    assert(out@ =~= old(out)@ + (render(seq![first]) + render(
                        list_items(all, indent + 2, 0),
                    )));
                }
                true
            }
        },
        Value::Object(entries) => {
            proof {
                lemma_object_view(*entries);
            }
            let ghost all = entry_views(entries@);
            line.push(':');
            assert(line@ =~= label@ + seq![':']);
            push_line(out, pad, &line);
            let inner = deeper(pad);
            let ghost first = Line { indent, content: label@ + seq![':'] };
            proof {
                lemma_render_add(seq![first], fields(all, indent + 2, 0));
            }
            if !write_fields(entries, &inner, out) {
                proof {
                    let j = choose|j: int| 0 <= j < all.len() && !writable((#[trigger] all[j]).1);
                    if writable(v@) {
                        lemma_writable_entry(all, j);
                    }
                }
                return false;
            }
            proof {
                assert(out@ =~= old(out)@ + (render(seq![first]) + render(
                    fields(all, indent + 2, 0),
                )));
            }
            true
        },
        _ => {
            line.push(':');
            line.push(' ');
            if !push_scalar(&mut line, v) {
                return false;
            }
            assert(line@ =~= label@ + seq![':', ' '] + scalar_text(v@));
            push_line(out, pad, &line);
            true
        },
    }
}

/// Appends the lines of the items of an array that is written as a list.
fn write_list(items: &Vec<Value>, pad: &Vec<char>, out: &mut Vec<char>) -> (ok: bool)
    requires
        pad@ == blanks(pad@.len()),
    ensures
        ok == (forall|j: int| 0 <= j < items.len() ==> writable(#[trigger] views(items@)[j])),
        ok ==> final(out)@ == old(out)@ + render(list_items(views(items@), pad@.len(), 0)),
    decreases items, 0nat,
{
    let ghost all = views(items@);
    let ghost indent = pad@.len();
    let mut i: usize = 0;
    while i < items.len()
        invariant
            i <= items.len(),
            all == views(items@),
            indent == pad@.len(),
            pad@ == blanks(pad@.len()),
            forall|j: int| 0 <= j < i ==> writable(#[trigger] all[j]),
            out@ + render(list_items(all, indent, i as nat)) == old(out)@ + render(
                list_items(all, indent, 0),
            ),
        decreases items.len() - i,
    {
        let ghost before = out@;
        if !write_list_item(&items[i], pad, out) {
            assert(!writable(all[i as int]));
            return false;
        }
        proof {
            let one = list_item(all[i as int], indent);
            let more = list_items(all, indent, (i + 1) as nat);
            lemma_render_add(one, more);
            assert(before + render(one) + render(more) =~= before + (render(one) + render(more)));
        }
        i += 1;
    }
    proof {
        assert(out@ + render(list_items(all, indent, i as nat)) =~= out@);
    }
    true
}

/// Appends the lines of one item of an array that is written as a list.
fn write_list_item(item: &Value, pad: &Vec<char>, out: &mut Vec<char>) -> (ok: bool)
    requires
        pad@ == blanks(pad@.len()),
    ensures
        ok == writable(item@),
        ok ==> final(out)@ == old(out)@ + render(list_item(item@, pad@.len())),
    decreases item, 2nat,
{
    let ghost indent = pad@.len();
    let mut line: Vec<char> = Vec::new();
    line.push('-');
    match item {
        Value::Array(items) => {
            proof {
                lemma_array_view(*items);
            }
            line.push(' ');
            assert(line@ =~= seq!['-', ' ']);
            write_field(&line, item, pad, out)
        },
        Value::Object(entries) => {
            proof {
                lemma_object_view(*entries);
            }
            let ghost all = entry_views(entries@);
            assert(line@ =~= seq!['-']);
            push_line(out, pad, &line);
            let inner = deeper(pad);
            let ghost first = Line { indent, content: seq!['-'] };
            proof {
                lemma_render_add(seq![first], fields(all, indent + 2, 0));
            }
            if !write_fields(entries, &inner, out) {
                proof {
                    let j = choose|j: int| 0 <= j < all.len() && !writable((#[trigger] all[j]).1);
                    if writable(item@) {
                        lemma_writable_entry(all, j);
                    }
                }
                return false;
            }
            proof {
                assert(out@ =~= old(out)@ + (render(seq![first]) + render(
                    fields(all, indent + 2, 0),
                )));
            }
            true
        },
        _ => {
            line.push(' ');
            if !push_scalar(&mut line, item) {
                return false;
            }
            assert(line@ =~= seq!['-', ' '] + scalar_text(item@));
            push_line(out, pad, &line);
            true
        },
    }
}

/// Appends the lines of the entries of an object.
fn write_fields(entries: &Vec<(String, Value)>, pad: &Vec<char>, out: &mut Vec<char>) -> (ok: bool)
    requires
        pad@ == blanks(pad@.len()),
    ensures
        ok == (forall|j: int|
            0 <= j < entries.len() ==> writable((#[trigger] entry_views(entries@)[j]).1)),
        ok ==> final(out)@ == old(out)@ + render(fields(entry_views(entries@), pad@.len(), 0)),
    decreases entries, 0nat,
{
    let ghost all = entry_views(entries@);
    let ghost indent = pad@.len();
    let mut i: usize = 0;
    while i < entries.len()
        invariant
            i <= entries.len(),
            all == entry_views(entries@),
            indent == pad@.len(),
            pad@ == blanks(pad@.len()),
            forall|j: int| 0 <= j < i ==> writable((#[trigger] all[j]).1),
            out@ + render(fields(all, indent, i as nat)) == old(out)@ + render(
                fields(all, indent, 0),
            ),
        decreases entries.len() - i,
    {
        let ghost before = out@;
        let mut label: Vec<char> = Vec::new();
        push_string(&mut label, entries[i].0.as_str());
        assert(label@ =~= string_text(all[i as int].0));
        if !write_field(&label, &entries[i].1, pad, out) {
            assert(!writable(all[i as int].1));
            return false;
        }
        proof {
            let one = encode_field(string_text(all[i as int].0), all[i as int].1, indent);
            let more = fields(all, indent, (i + 1) as nat);
            lemma_render_add(one, more);
            assert(before + render(one) + render(more) =~= before + (render(one) + render(more)));
        }
        i += 1;
    }
    proof {
        assert(out@ + render(fields(all, indent, i as nat)) =~= out@);
    }
    true
}

/// The TOON text of `value`. Fails only where a number in it holds a
/// literal that is no numeric literal.
pub fn to_text(value: &Value) -> (r: Result<String, EncodeError>)
    ensures
        writable(value@) ==> (r matches Ok(s) && s@ == encode(value@)),
        !writable(value@) ==> r == Err::<String, EncodeError>(
            EncodeError { format: Format::Toon, fault: EncodeFault::InvalidNumber },
        ),
{
    let mut out: Vec<char> = Vec::new();
    let pad: Vec<char> = Vec::new();
    proof {
        assert(pad@ =~= blanks(0));
    }
    let ok = match value {
        Value::Object(entries) => {
            proof {
                lemma_object_view(*entries);
            }
            let ok = write_fields(entries, &pad, &mut out);
            proof {
                if !ok {
                    let all = entry_views(entries@);
                    let j = choose|j: int| 0 <= j < all.len() && !writable((#[trigger] all[j]).1);
                    if writable(value@) {
                        lemma_writable_entry(all, j);
                    }
                }
            }
            ok
        },
        Value::Array(items) => {
            let label: Vec<char> = Vec::new();
            assert(label@ =~= Seq::<char>::empty());
            proof {
                lemma_array_view(*items);
            }
            write_field(&label, value, &pad, &mut out)
        },
        _ => {
            let mut line: Vec<char> = Vec::new();
            let ok = push_scalar(&mut line, value);
            if ok {
                assert(line@ =~= scalar_text(value@));
                push_line(&mut out, &pad, &line);
            }
            ok
        },
    };
    if ok {
        assert(out@ =~= encode(value@));
        Ok(string_of(&out))
    } else {
        Err(EncodeError { format: Format::Toon, fault: EncodeFault::InvalidNumber })
    }
}

} // verus!
