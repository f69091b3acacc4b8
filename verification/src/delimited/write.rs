//! The writer of delimited text: a header line with the column names, then
//! one line for each row.

use crate::delimited::read::format_of;
use crate::delimited::syntax::{ends_field, infer, Delimiter};
use crate::error::{EncodeError, EncodeFault, Format};
use crate::json::write::{lemma_writable_entry, lemma_writable_item, writable};

use crate::text::{chars_of, push_all, push_str, string_of};
use crate::value::{
    entry_views, lemma_array_view, lemma_object_view, views, Number, Value, ValueView,
};
use vstd::prelude::*;

verus! {

/// Whether the text can stand in a field as it is: it holds no quote and
/// nothing that ends a field, and a reader takes it for a string.
pub open spec fn bare(text: Seq<char>, d: char) -> bool {
    &&& forall|i: int| 0 <= i < text.len() ==> !ends_field(#[trigger] text[i], d) && text[i] != '"'
    &&& infer(text) is String
}

/// The text with every quote written twice.
pub open spec fn double_quotes(text: Seq<char>) -> Seq<char>
    decreases text.len(),
{
    if text.len() == 0 {
        Seq::empty()
    } else if text[0] == '"' {
        seq!['"', '"'] + double_quotes(text.skip(1))
    } else {
        seq![text[0]] + double_quotes(text.skip(1))
    }
}

/// The field that is written for a text: the text itself where it can
/// stand bare, else the text in quotes.
pub open spec fn encode_text(text: Seq<char>, d: char) -> Seq<char> {
    if bare(text, d) {
        text
    } else {
        seq!['"'] + double_quotes(text) + seq!['"']
    }
}

/// Whether the value is null, a boolean, a number or a string.
pub open spec fn is_scalar(v: ValueView) -> bool {
    !(v is Array) && !(v is Object)
}

/// The field that is written for a scalar.
pub open spec fn encode_cell(v: ValueView, d: char) -> Seq<char> {
    match v {
        ValueView::Null => Seq::empty(),
        ValueView::Bool(b) => if b {
            seq!['t', 'r', 'u', 'e']
        } else {
            seq!['f', 'a', 'l', 's', 'e']
        },
        ValueView::Number(n) => n.text(),
        ValueView::String(s) => encode_text(s, d),
        _ => Seq::empty(),
    }
}

/// The header line from column `from` on.
pub open spec fn encode_header(entries: Seq<(Seq<char>, ValueView)>, d: char, from: nat) -> Seq<char>
    decreases entries.len() - from,
{
    if from >= entries.len() {
        seq!['\n']
    } else if from + 1 == entries.len() {
        encode_text(entries[from as int].0, d) + seq!['\n']
    } else {
        encode_text(entries[from as int].0, d) + seq![d] + encode_header(entries, d, from + 1)
    }
}

/// The line of a row from column `from` on.
pub open spec fn encode_row(entries: Seq<(Seq<char>, ValueView)>, d: char, from: nat) -> Seq<char>
    decreases entries.len() - from,
{
    if from >= entries.len() {
        seq!['\n']
    } else if from + 1 == entries.len() {
        encode_cell(entries[from as int].1, d) + seq!['\n']
    } else {
        encode_cell(entries[from as int].1, d) + seq![d] + encode_row(entries, d, from + 1)
    }
}

/// The lines of the rows from row `from` on.
pub open spec fn encode_rows(rows: Seq<ValueView>, d: char, from: nat) -> Seq<char>
    decreases rows.len() - from,
{
    if from >= rows.len() {
        Seq::empty()
    } else {
        encode_row(rows[from as int]->Object_0, d, 0) + encode_rows(rows, d, from + 1)
    }
}

/// Whether `row` is a row of the table that `first` starts: an object with
/// the same keys in the same order, at least one, that holds scalars only.
pub open spec fn is_row(row: ValueView, first: ValueView) -> bool {
    &&& row is Object
    &&& first is Object
    &&& row->Object_0.len() >= 1
    &&& row->Object_0.len() == first->Object_0.len()
    &&& forall|j: int|
        0 <= j < row->Object_0.len() ==> (#[trigger] row->Object_0[j]).0 == first->Object_0[j].0
            && is_scalar(row->Object_0[j].1)
}

/// Whether the value is a table: an array of rows that all have the keys
/// of the first.
pub open spec fn is_table(v: ValueView) -> bool {
    &&& v is Array
    &&& forall|i: int|
        0 <= i < v->Array_0.len() ==> is_row(#[trigger] v->Array_0[i], v->Array_0[0])
}

/// The text of a table; of the empty array, no text at all.
pub open spec fn encode_table(v: ValueView, d: char) -> Seq<char> {
    let rows = v->Array_0;
    if rows.len() == 0 {
        Seq::empty()
    } else {
        encode_header(rows[0]->Object_0, d, 0) + encode_rows(rows, d, 0)
    }
}

/// Whether the text can stand in a field as it is.
fn check_bare(text: &Vec<char>, s: &str, d: char) -> (r: bool)
    requires
        text@ == s@,
    ensures
        r == bare(text@, d),
{
    let mut i: usize = 0;
    while i < text.len()
        invariant
            i <= text.len(),
            forall|j: int| 0 <= j < i ==> !ends_field(#[trigger] text@[j], d) && text@[j] != '"',
        decreases text.len() - i,
    {
        let c = text[i];
        if c == d || c == '\n' || c == '\r' || c == '"' {
            return false;
        }
        i += 1;
    }
    if text.len() == 0 {
        return false;
    }
    proof {
        reveal_strlit("true");
        reveal_strlit("false");
        assert("true"@ =~= seq!['t', 'r', 'u', 'e']);
        assert("false"@ =~= seq!['f', 'a', 'l', 's', 'e']);
    }
    if crate::text::has_text(text, "true") || crate::text::has_text(text, "false") {
        return false;
    }
    match Number::parse(s) {
        Some(_) => false,
        None => true,
    }
}

/// Appends the field that is written for a text.
fn push_text(out: &mut Vec<char>, s: &str, d: char)
    ensures
        final(out)@ == old(out)@ + encode_text(s@, d),
{
    let text = chars_of(s);
    if check_bare(&text, s, d) {
        push_all(out, &text);
        return ;
    }
    out.push('"');
    let mut i: usize = 0;
    assert(text@.skip(0) =~= text@);
    while i < text.len()
        invariant
            i <= text.len(),
            out@ + double_quotes(text@.skip(i as int)) == old(out)@ + seq!['"'] + double_quotes(
                text@,
            ),
        decreases text.len() - i,
    {
        let ghost before = out@;
        let ghost rest = double_quotes(text@.skip(i + 1));
        proof {
            assert(text@.skip(i as int).skip(1) =~= text@.skip(i + 1));
        }
        let c = text[i];
        if c == '"' {
            out.push('"');
            out.push('"');
            assert(out@ + rest =~= before + (seq!['"', '"'] + rest));
        } else {
            out.push(c);
            assert(out@ + rest =~= before + (seq![c] + rest));
        }
        i += 1;
    }
    proof {
        assert(out@ + Seq::<char>::empty() =~= out@);
    }
    out.push('"');
    assert(out@ =~= old(out)@ + encode_text(s@, d));
}

/// Appends the field that is written for a scalar, where its number can
/// be written.
fn push_cell(out: &mut Vec<char>, v: &Value, d: char) -> (ok: bool)
    requires
        is_scalar(v@),
    ensures
        ok == writable(v@),
        ok ==> final(out)@ == old(out)@ + encode_cell(v@, d),
{
    match v {
        Value::Null => {
            assert(out@ =~= old(out)@ + encode_cell(v@, d));
            true
        },
        Value::Bool(b) => {
            if *b {
                push_str(out, "true");
            } else {
                push_str(out, "false");
            }
            proof {
                reveal_strlit("true");
                reveal_strlit("false");
                assert("true"@ =~= seq!['t', 'r', 'u', 'e']);
                assert("false"@ =~= seq!['f', 'a', 'l', 's', 'e']);
            }
            true
        },
        Value::Number(n) => n.write(out),
        Value::String(s) => {
            push_text(out, s.as_str(), d);
            true
        },
        Value::Array(items) => {
            proof {
                lemma_array_view(*items);
            }
            true
        },
        Value::Object(entries) => {
            proof {
                lemma_object_view(*entries);
            }
            true
        },
    }
}

/// Whether the value is null, a boolean, a number or a string.
fn check_scalar(v: &Value) -> (r: bool)
    ensures
        r == is_scalar(v@),
{
    match v {
        Value::Array(items) => {
            proof {
                lemma_array_view(*items);
            }
            false
        },
        Value::Object(entries) => {
            proof {
                lemma_object_view(*entries);
            }
            false
        },
        _ => true,
    }
}

/// Whether `row` is a row of the table that `first` starts.
pub fn check_row(row: &Value, first: &Value) -> (r: bool)
    ensures
        r == is_row(row@, first@),
{
    match (row, first) {
        (Value::Object(entries), Value::Object(names)) => {
            proof {
                lemma_object_view(*entries);
                lemma_object_view(*names);
            }
            if entries.len() == 0 || entries.len() != names.len() {
                return false;
            }
            let mut j: usize = 0;
            while j < entries.len()
                invariant
                    j <= entries.len(),
                    entries.len() == names.len(),
                    row@ == ValueView::Object(entry_views(entries@)),
                    first@ == ValueView::Object(entry_views(names@)),
                    forall|k: int|
                        0 <= k < j ==> (#[trigger] entry_views(entries@)[k]).0 == entry_views(
                            names@,
                        )[k].0 && is_scalar(entry_views(entries@)[k].1),
                decreases entries.len() - j,
            {
                if !(entries[j].0 == names[j].0) || !check_scalar(&entries[j].1) {
                    assert(row@->Object_0[j as int] == entry_views(entries@)[j as int]);
                    assert(first@->Object_0[j as int] == entry_views(names@)[j as int]);
                    return false;
                }
                j += 1;
            }
            true
        },
        (Value::Object(entries), _) => {
            proof {
                lemma_object_view(*entries);
            }
            false
        },
        _ => false,
    }
}

/// Appends the header line.
fn push_header(out: &mut Vec<char>, entries: &Vec<(String, Value)>, d: char)
    requires
        entries.len() >= 1,
    ensures
        final(out)@ == old(out)@ + encode_header(entry_views(entries@), d, 0),
{
    let ghost all = entry_views(entries@);
    let mut j: usize = 0;
    while j < entries.len()
        invariant
            j <= entries.len(),
            entries.len() >= 1,
            all == entry_views(entries@),
            j < entries.len() ==> out@ + encode_header(all, d, j as nat) == old(out)@
                + encode_header(all, d, 0),
            j == entries.len() ==> out@ == old(out)@ + encode_header(all, d, 0),
        decreases entries.len() - j,
    {
        let ghost before = out@;
        push_text(out, entries[j].0.as_str(), d);
        let ghost one = encode_text(all[j as int].0, d);
        if j + 1 < entries.len() {
            out.push(d);
            assert(out@ + encode_header(all, d, (j + 1) as nat) =~= before + (one + seq![d]
                + encode_header(all, d, (j + 1) as nat)));
        } else {
            out.push('\n');
            assert(out@ =~= before + (one + seq!['\n']));
        }
        j += 1;
    }
}

/// Appends the line of a row, where its numbers can be written.
fn push_row(out: &mut Vec<char>, entries: &Vec<(String, Value)>, d: char) -> (ok: bool)
    requires
        entries.len() >= 1,
        forall|j: int| 0 <= j < entries.len() ==> is_scalar((#[trigger] entry_views(entries@)[j]).1),
    ensures
        ok == (forall|j: int|
            0 <= j < entries.len() ==> writable((#[trigger] entry_views(entries@)[j]).1)),
        ok ==> final(out)@ == old(out)@ + encode_row(entry_views(entries@), d, 0),
{
    let ghost all = entry_views(entries@);
    let mut j: usize = 0;
    while j < entries.len()
        invariant
            j <= entries.len(),
            entries.len() >= 1,
            all == entry_views(entries@),
            forall|k: int| 0 <= k < entries.len() ==> is_scalar((#[trigger] all[k]).1),
            forall|k: int| 0 <= k < j ==> writable((#[trigger] all[k]).1),
            j < entries.len() ==> out@ + encode_row(all, d, j as nat) == old(out)@ + encode_row(
                all,
                d,
                0,
            ),
            j == entries.len() ==> out@ == old(out)@ + encode_row(all, d, 0),
        decreases entries.len() - j,
    {
        let ghost before = out@;
        assert(is_scalar(all[j as int].1));
        if !push_cell(out, &entries[j].1, d) {
            assert(!writable(all[j as int].1));
            return false;
        }
        let ghost one = encode_cell(all[j as int].1, d);
        if j + 1 < entries.len() {
            out.push(d);
            assert(out@ + encode_row(all, d, (j + 1) as nat) =~= before + (one + seq![d]
                + encode_row(all, d, (j + 1) as nat)));
        } else {
            out.push('\n');
            assert(out@ =~= before + (one + seq!['\n']));
        }
        j += 1;
    }
    true
}

/// The text of `value` as a table. Fails where the value is no table, and
/// where a number in it holds a literal that is no numeric literal.
pub fn to_text(value: &Value, delimiter: Delimiter) -> (r: Result<String, EncodeError>)
    ensures
        !is_table(value@) ==> r == Err::<String, EncodeError>(
            EncodeError { format: format_of(delimiter), fault: EncodeFault::NotTabular },
        ),
        is_table(value@) && !writable(value@) ==> r == Err::<String, EncodeError>(
            EncodeError { format: format_of(delimiter), fault: EncodeFault::InvalidNumber },
        ),
        is_table(value@) && writable(value@) ==> (r matches Ok(s) && s@ == encode_table(
            value@,
            delimiter.mark(),
        )),
{
    let d = delimiter.character();
    let format = match delimiter {
        Delimiter::Comma => Format::Csv,
        Delimiter::Tab => Format::Tsv,
    };
    let rows = match value {
        Value::Array(rows) => rows,
        _ => {
            if let Value::Object(entries) = value {
                proof {
                    lemma_object_view(*entries);
                }
            }
            return Err(EncodeError { format, fault: EncodeFault::NotTabular });
        },
    };
    proof {
        lemma_array_view(*rows);
    }
    let ghost all = views(rows@);
    let mut i: usize = 0;
    while i < rows.len()
        invariant
            i <= rows.len(),
            all == views(rows@),
            value@ == ValueView::Array(all),
            format == format_of(delimiter),
            forall|k: int| 0 <= k < i ==> is_row(#[trigger] all[k], all[0]),
        decreases rows.len() - i,
    {
        if !check_row(&rows[i], &rows[0]) {
            assert(!is_row(all[i as int], all[0]));
            assert(value@->Array_0[i as int] == all[i as int]);
            return Err(EncodeError { format, fault: EncodeFault::NotTabular });
        }
        i += 1;
    }
    assert(is_table(value@));
    let mut out: Vec<char> = Vec::new();
    if rows.len() == 0 {
        assert(out@ =~= encode_table(value@, d));
        return Ok(string_of(&out));
    }
    let names = match &rows[0] {
        Value::Object(names) => names,
        _ => {
            assert(is_row(all[0], all[0]));
            return Err(EncodeError { format, fault: EncodeFault::NotTabular });
        },
    };
    proof {
        assert(is_row(all[0], all[0]));
        lemma_object_view(*names);
    }
    push_header(&mut out, names, d);
    let ghost header = out@;
    let mut i: usize = 0;
    while i < rows.len()
        invariant
            i <= rows.len(),
            all == views(rows@),
            value@ == ValueView::Array(all),
            format == format_of(delimiter),
            forall|k: int| 0 <= k < rows.len() ==> is_row(#[trigger] all[k], all[0]),
            forall|k: int| 0 <= k < i ==> writable(#[trigger] all[k]),
            out@ + encode_rows(all, d, i as nat) == header + encode_rows(all, d, 0),
        decreases rows.len() - i,
    {
        let ghost before = out@;
        assert(is_row(all[i as int], all[0]));
        let entries = match &rows[i] {
            Value::Object(entries) => entries,
            _ => {
                return Err(EncodeError { format, fault: EncodeFault::NotTabular });
            },
        };
        proof {
            lemma_object_view(*entries);
        }
        let ghost row = entry_views(entries@);
        assert forall|j: int| 0 <= j < entries.len() implies is_scalar((#[trigger] row[j]).1) by {
            assert(all[i as int]->Object_0[j] == row[j]);
        }
        if !push_row(&mut out, entries, d) {
            proof {
                let j = choose|j: int| 0 <= j < row.len() && !writable((#[trigger] row[j]).1);
                if writable(all[i as int]) {
                    lemma_writable_entry(row, j);
                }
                if writable(value@) {
                    lemma_writable_item(all, i as int);
                }
            }
            return Err(EncodeError { format, fault: EncodeFault::InvalidNumber });
        }
        proof {
            assert(writable(all[i as int]));
            assert(out@ + encode_rows(all, d, (i + 1) as nat) =~= before + (encode_row(row, d, 0)
                + encode_rows(all, d, (i + 1) as nat)));
        }
        i += 1;
    }
    proof {
        assert(out@ + encode_rows(all, d, rows.len() as nat) =~= out@);
        assert(writable(value@));
    }
    Ok(string_of(&out))
}

} // verus!
