//! What holds of reading and writing tables together: a table that was
//! written is read back as it was.

use crate::delimited::read::parse_bytes;
use crate::delimited::syntax::{
    cell_value, ends_field, parse_field, parse_quoted, parse_record, parse_records, parse_table,
    raw_len, row_entries, row_objects, Delimiter, FieldView,
};
use crate::delimited::write::{
    bare, double_quotes, encode_cell, encode_header, encode_row, encode_rows, encode_table,
    encode_text, is_row, is_scalar, is_table,
};
use crate::error::{Failure, ParseError};
use crate::number::{canonical, is_number_char, lemma_number_chars, lemma_number_text};
use crate::text::tail;
use crate::value::{lemma_put_all_same, ValueView};
use vstd::prelude::*;

verus! {

/// A text in quotes, behind its opening quote, is read back as the text.
proof fn lemma_quoted(text: Seq<char>, rest: Seq<char>)
    requires
        rest.len() > 0 ==> rest[0] != '"',
    ensures
        parse_quoted(double_quotes(text) + seq!['"'] + rest) == Ok::<(Seq<char>, nat), Failure>(
            (text, rest.len()),
        ),
    decreases text.len(),
{
    reveal(parse_quoted);
    let s = double_quotes(text) + seq!['"'] + rest;
    if text.len() == 0 {
        assert(s[0] == '"');
        if rest.len() > 0 {
            assert(s[1] == rest[0]);
        }
        assert(text =~= Seq::<char>::empty());
    } else {
        let after = double_quotes(text.skip(1)) + seq!['"'] + rest;
        lemma_quoted(text.skip(1), rest);
        if text[0] == '"' {
            assert(s =~= seq!['"', '"'] + after);
            assert(s[0] == '"' && s[1] == '"');
            assert(s.skip(2) =~= after);
            assert(seq!['"'] + text.skip(1) =~= text);
        } else {
            assert(s =~= seq![text[0]] + after);
            assert(s[0] == text[0]);
            assert(s.skip(1) =~= after);
            assert(seq![text[0]] + text.skip(1) =~= text);
        }
    }
}

/// A text that holds nothing that ends a field, before something that
/// does, is a field of its own length.
proof fn lemma_raw_len_of(text: Seq<char>, rest: Seq<char>, d: char)
    requires
        forall|i: int| 0 <= i < text.len() ==> !ends_field(#[trigger] text[i], d),
        rest.len() > 0 ==> ends_field(rest[0], d),
    ensures
        raw_len(text + rest, d) == text.len(),
    decreases text.len(),
{
    if text.len() > 0 {
        assert((text + rest)[0] == text[0]);
        assert((text + rest).skip(1) =~= text.skip(1) + rest);
        assert forall|i: int| 0 <= i < text.skip(1).len() implies !ends_field(
            #[trigger] text.skip(1)[i],
            d,
        ) by {
            assert(text.skip(1)[i] == text[i + 1]);
        }
        lemma_raw_len_of(text.skip(1), rest, d);
    } else {
        assert(text + rest =~= rest);
    }
}

/// The field that is read where a text was written.
pub open spec fn field_of_text(text: Seq<char>, d: char) -> FieldView {
    (!bare(text, d), text)
}

/// The field that is read where a scalar was written.
pub open spec fn field_of_cell(v: ValueView, d: char) -> FieldView {
    match v {
        ValueView::String(s) => field_of_text(s, d),
        _ => (false, encode_cell(v, d)),
    }
}

/// A text that was written as a field is read back as that text.
proof fn lemma_text_field(text: Seq<char>, d: Delimiter, rest: Seq<char>)
    requires
        rest.len() > 0 ==> ends_field(rest[0], d.mark()),
    ensures
        parse_field(encode_text(text, d.mark()) + rest, d.mark()) == Ok::<(FieldView, nat), Failure>(
            (field_of_text(text, d.mark()), rest.len()),
        ),
        cell_value(field_of_text(text, d.mark())) == ValueView::String(text),
{
    reveal(parse_field);
    let m = d.mark();
    let s = encode_text(text, m) + rest;
    if bare(text, m) {
        assert(s[0] == text[0]);
        lemma_raw_len_of(text, rest, m);
        assert(s.take(text.len() as int) =~= text);
    } else {
        assert(s[0] == '"');
        assert(s.skip(1) =~= double_quotes(text) + seq!['"'] + rest);
        lemma_quoted(text, rest);
        assert(tail(s.skip(1), rest.len()) =~= rest);
    }
}

/// A scalar that was written as a field is read back as that scalar.
proof fn lemma_cell(v: ValueView, d: Delimiter, rest: Seq<char>)
    requires
        is_scalar(v),
        canonical(v),
        rest.len() > 0 ==> ends_field(rest[0], d.mark()),
    ensures
        parse_field(encode_cell(v, d.mark()) + rest, d.mark()) == Ok::<(FieldView, nat), Failure>(
            (field_of_cell(v, d.mark()), rest.len()),
        ),
        cell_value(field_of_cell(v, d.mark())) == v,
{
    let m = d.mark();
    let text = encode_cell(v, m);
    let s = text + rest;
    match v {
        ValueView::String(t) => {
            lemma_text_field(t, d, rest);
        },
        _ => {
            reveal(parse_field);
            if let ValueView::Number(n) = v {
                lemma_number_text(n);
                lemma_number_chars(text);
            }
            assert forall|i: int| 0 <= i < text.len() implies !ends_field(#[trigger] text[i], m) by {
                if let ValueView::Number(n) = v {
                    assert(is_number_char(text[i]));
                }
            }
            lemma_raw_len_of(text, rest, m);
            assert(s.take(text.len() as int) =~= text);
            if text.len() > 0 {
                assert(s[0] == text[0]);
            } else {
                assert(s =~= rest);
            }
        },
    }
}

/// The fields that are read where the cells from `from` on were written.
pub open spec fn fields_of_row(entries: Seq<(Seq<char>, ValueView)>, d: char, from: nat) -> Seq<
    FieldView,
> {
    Seq::new((entries.len() - from) as nat, |i: int| field_of_cell(entries[from + i].1, d))
}

/// The fields that are read where the names from `from` on were written.
pub open spec fn fields_of_header(entries: Seq<(Seq<char>, ValueView)>, d: char, from: nat) -> Seq<
    FieldView,
> {
    Seq::new((entries.len() - from) as nat, |i: int| field_of_text(entries[from + i].0, d))
}

/// Whether every cell of a row is a scalar that is held as a reader holds
/// it.
pub open spec fn plain_cells(entries: Seq<(Seq<char>, ValueView)>) -> bool {
    forall|j: int|
        0 <= j < entries.len() ==> is_scalar((#[trigger] entries[j]).1) && canonical(entries[j].1)
}

/// The line of a row is read back as the fields of its cells.
proof fn lemma_row(entries: Seq<(Seq<char>, ValueView)>, d: Delimiter, from: nat, rest: Seq<char>)
    requires
        from < entries.len(),
        plain_cells(entries),
    ensures
        parse_record(encode_row(entries, d.mark(), from) + rest, d.mark()) == Ok::<
            (Seq<FieldView>, nat),
            Failure,
        >((fields_of_row(entries, d.mark(), from), rest.len())),
    decreases entries.len() - from,
{
    reveal(parse_record);
    let m = d.mark();
    let v = entries[from as int].1;
    let s = encode_row(entries, m, from) + rest;
    let after: Seq<char> = if from + 1 == entries.len() {
        seq!['\n'] + rest
    } else {
        seq![m] + encode_row(entries, m, from + 1) + rest
    };
    assert(s =~= encode_cell(v, m) + after);
    assert(is_scalar(entries[from as int].1) && canonical(entries[from as int].1));
    lemma_cell(v, d, after);
    assert(tail(s, after.len()) =~= after);
    let fields = fields_of_row(entries, m, from);
    if from + 1 == entries.len() {
        assert(fields =~= seq![field_of_cell(v, m)]);
    } else {
        assert(after.skip(1) =~= encode_row(entries, m, from + 1) + rest);
        lemma_row(entries, d, from + 1, rest);
        assert(seq![field_of_cell(v, m)] + fields_of_row(entries, m, from + 1) =~= fields);
    }
}

/// The header line is read back as the fields of its names.
proof fn lemma_header(entries: Seq<(Seq<char>, ValueView)>, d: Delimiter, from: nat, rest: Seq<char>)
    requires
        from < entries.len(),
    ensures
        parse_record(encode_header(entries, d.mark(), from) + rest, d.mark()) == Ok::<
            (Seq<FieldView>, nat),
            Failure,
        >((fields_of_header(entries, d.mark(), from), rest.len())),
    decreases entries.len() - from,
{
    reveal(parse_record);
    let m = d.mark();
    let name = entries[from as int].0;
    let s = encode_header(entries, m, from) + rest;
    let after: Seq<char> = if from + 1 == entries.len() {
        seq!['\n'] + rest
    } else {
        seq![m] + encode_header(entries, m, from + 1) + rest
    };
    assert(s =~= encode_text(name, m) + after);
    lemma_text_field(name, d, after);
    assert(tail(s, after.len()) =~= after);
    let fields = fields_of_header(entries, m, from);
    if from + 1 == entries.len() {
        assert(fields =~= seq![field_of_text(name, m)]);
    } else {
        assert(after.skip(1) =~= encode_header(entries, m, from + 1) + rest);
        lemma_header(entries, d, from + 1, rest);
        assert(seq![field_of_text(name, m)] + fields_of_header(entries, m, from + 1) =~= fields);
    }
}

/// The fields that are read where the rows from `from` on were written.
pub open spec fn fields_of_rows(rows: Seq<ValueView>, d: char, from: nat) -> Seq<Seq<FieldView>> {
    Seq::new((rows.len() - from) as nat, |i: int| fields_of_row(rows[from + i]->Object_0, d, 0))
}

/// A line is never empty.
proof fn lemma_row_not_empty(entries: Seq<(Seq<char>, ValueView)>, d: char, from: nat)
    ensures
        encode_row(entries, d, from).len() > 0,
    decreases entries.len() - from,
{
    if from < entries.len() && from + 1 != entries.len() {
        lemma_row_not_empty(entries, d, from + 1);
    }
}

/// The lines of the rows are read back as the fields of the rows.
proof fn lemma_rows(rows: Seq<ValueView>, d: Delimiter, from: nat)
    requires
        from <= rows.len(),
        rows.len() > 0,
        forall|i: int| 0 <= i < rows.len() ==> is_row(#[trigger] rows[i], rows[0]),
        forall|i: int| 0 <= i < rows.len() ==> canonical(#[trigger] rows[i]),
    ensures
        parse_records(encode_rows(rows, d.mark(), from), d.mark(), rows[0]->Object_0.len())
            == Ok::<(Seq<Seq<FieldView>>, nat), Failure>((fields_of_rows(rows, d.mark(), from), 0)),
    decreases rows.len() - from,
{
    reveal(parse_records);
    let m = d.mark();
    let s = encode_rows(rows, m, from);
    if from == rows.len() {
        assert(fields_of_rows(rows, m, from) =~= Seq::<Seq<FieldView>>::empty());
    } else {
        let row = rows[from as int];
        assert(is_row(row, rows[0]));
        assert(canonical(row));
        let entries = row->Object_0;
        let rest = encode_rows(rows, m, from + 1);
        assert(plain_cells(entries));
        lemma_row(entries, d, 0, rest);
        lemma_row_not_empty(entries, m, 0);
        assert(tail(s, rest.len()) =~= rest);
        lemma_rows(rows, d, from + 1);
        assert(seq![fields_of_row(entries, m, 0)] + fields_of_rows(rows, m, from + 1)
            =~= fields_of_rows(rows, m, from));
    }
}

/// Round trip: the text that is written for a table is read back as that
/// table. This holds of every table that is held as a reader holds it (no
/// key twice in a row, every number canonical).
pub proof fn law_round_trip(v: ValueView, d: Delimiter)
    requires
        is_table(v),
        canonical(v),
    ensures
        parse_table(encode_table(v, d.mark()), d.mark()) == Ok::<ValueView, Failure>(v),
        parse_bytes(vstd::utf8::encode_utf8(encode_table(v, d.mark())), d) == Ok::<
            ValueView,
            ParseError,
        >(v),
{
    let m = d.mark();
    let rows = v->Array_0;
    let text = encode_table(v, m);
    vstd::utf8::encode_utf8_decode_utf8(text);
    vstd::utf8::encode_utf8_valid_utf8(text);
    if rows.len() == 0 {
        assert(rows =~= Seq::<ValueView>::empty());
    } else {
        let first = rows[0]->Object_0;
        assert(is_row(rows[0], rows[0]));
        let body = encode_rows(rows, m, 0);
        lemma_header(first, d, 0, body);
        assert forall|i: int| 0 <= i < rows.len() implies canonical(#[trigger] rows[i]) by {}
        lemma_rows(rows, d, 0);
        lemma_row_not_empty(first, m, 0);
        assert(text.len() > 0);
        assert(tail(text, body.len()) =~= body);
        let header = fields_of_header(first, m, 0);
        let all = fields_of_rows(rows, m, 0);
        let objects = row_objects(header, all);
        assert forall|k: int| 0 <= k < rows.len() implies objects[k] == rows[k] by {
            let row = rows[k];
            assert(is_row(row, rows[0]));
            assert(canonical(row));
            let entries = row->Object_0;
            let fields = all[k];
            let read = row_entries(header, fields);
            assert forall|j: int| 0 <= j < entries.len() implies read[j] == entries[j] by {
                assert(is_scalar((#[trigger] entries[j]).1) && canonical(entries[j].1));
                lemma_cell(entries[j].1, d, Seq::empty());
                assert(entries[j].0 == first[j].0);
            }
            assert(read =~= entries);
            lemma_put_all_same(entries, entries.len());
            assert(entries.take(entries.len() as int) =~= entries);
        }
        assert(objects =~= rows);
    }
}

} // verus!
