//! The reader of delimited text.

use crate::delimited::syntax::{
    cell_value, parse_field, parse_quoted, parse_record, parse_records, parse_table, raw_len,
    row_entries, row_object, row_objects, Delimiter, FieldView,
};
use crate::error::{
    lemma_prepend_nothing, parse_error, parse_failure, prepend, Failure, Format, ParseError,
    ParseFault,
};
use crate::text::{decode, decoded, lemma_tail_skip, slice_string, tail};
use crate::value::{
    entry_views, gather, lemma_array_view, lemma_object_view, views, Number, Value, ValueView,
};
use vstd::prelude::*;

verus! {

/// A field as it was read: whether it was quoted, and its text without the
/// quotes.
#[derive(Debug, PartialEq, Eq)]
pub struct Field {
    pub quoted: bool,
    pub text: String,
}

impl View for Field {
    type V = FieldView;

    open spec fn view(&self) -> FieldView {
        (self.quoted, self.text@)
    }
}

/// The models of a list of fields, in order.
pub open spec fn field_views(fields: Seq<Field>) -> Seq<FieldView> {
    Seq::new(fields.len(), |i: int| fields[i]@)
}

/// The format that a delimiter stands for.
pub open spec fn format_of(d: Delimiter) -> Format {
    match d {
        Delimiter::Comma => Format::Csv,
        Delimiter::Tab => Format::Tsv,
    }
}

/// The format that a delimiter stands for.
fn format_for(d: Delimiter) -> (f: Format)
    ensures
        f == format_of(d),
{
    match d {
        Delimiter::Comma => Format::Csv,
        Delimiter::Tab => Format::Tsv,
    }
}

/// One step of reading a quoted field.
proof fn lemma_quoted_step(s: Seq<char>, done: Seq<char>)
    ensures
        s.len() == 0 ==> parse_quoted(s) == Err::<(Seq<char>, nat), Failure>(
            (ParseFault::UnterminatedString, 0),
        ),
        s.len() > 0 && s[0] != '"' ==> prepend(done, parse_quoted(s)) == prepend(
            done.push(s[0]),
            parse_quoted(s.skip(1)),
        ),
        s.len() >= 2 && s[0] == '"' && s[1] == '"' ==> prepend(done, parse_quoted(s)) == prepend(
            done.push('"'),
            parse_quoted(s.skip(2)),
        ),
        s.len() > 0 && s[0] == '"' && !(s.len() >= 2 && s[1] == '"') ==> prepend(
            done,
            parse_quoted(s),
        ) == Ok::<(Seq<char>, nat), Failure>((done, (s.len() - 1) as nat)),
{
    reveal(parse_quoted);
    assert(done + Seq::<char>::empty() =~= done);
    if s.len() > 0 {
        if s[0] != '"' {
            crate::error::lemma_prepend_push(done, s[0], parse_quoted(s.skip(1)));
        } else if s.len() >= 2 && s[1] == '"' {
            crate::error::lemma_prepend_push(done, '"', parse_quoted(s.skip(2)));
        }
    }
}

/// Reads a quoted field from behind its opening quote, at `pos`.
fn read_quoted(buf: &Vec<char>, pos: usize, format: Format) -> (r: Result<
    (String, usize),
    ParseError,
>)
    requires
        pos <= buf.len(),
    ensures
        match parse_quoted(buf@.skip(pos as int)) {
            Ok((text, left)) => r matches Ok((s, next)) && s@ == text && pos < next <= buf.len()
                && next == buf.len() - left,
            Err(failure) => failure.1 <= buf.len() && r == Err::<(String, usize), ParseError>(
                parse_error(format, buf@.len(), failure),
            ),
        },
{
    let mut out = String::new();
    let mut i = pos;
    let ghost goal = parse_quoted(buf@.skip(pos as int));
    proof {
        lemma_prepend_nothing(goal);
    }
    loop
        invariant
            pos <= i <= buf.len(),
            prepend(out@, parse_quoted(buf@.skip(i as int))) == goal,
            goal == parse_quoted(buf@.skip(pos as int)),
        decreases buf.len() - i,
    {
        let ghost s = buf@.skip(i as int);
        proof {
            lemma_quoted_step(s, out@);
        }
        if i >= buf.len() {
            return parse_failure(format, buf.len(), ParseFault::UnterminatedString);
        }
        let c = buf[i];
        if c == '"' {
            if i + 1 < buf.len() && buf[i + 1] == '"' {
                proof {
                    assert(s.skip(2) =~= buf@.skip(i + 2));
                }
                out.push('"');
                i += 2;
            } else {
                return Ok((out, i + 1));
            }
        } else {
            proof {
                assert(s.skip(1) =~= buf@.skip(i + 1));
            }
            out.push(c);
            i += 1;
        }
    }
}

/// The end of the field without quotes that starts at `pos`.
fn scan_raw(buf: &Vec<char>, pos: usize, d: char) -> (end: usize)
    requires
        pos <= buf.len(),
    ensures
        pos <= end <= buf.len(),
        end - pos == raw_len(buf@.skip(pos as int), d),
{
    let mut i = pos;
    while i < buf.len() && buf[i] != d && buf[i] != '\n' && buf[i] != '\r'
        invariant
            pos <= i <= buf.len(),
            raw_len(buf@.skip(pos as int), d) == (i - pos) + raw_len(buf@.skip(i as int), d),
        decreases buf.len() - i,
    {
        proof {
            assert(buf@.skip(i as int).skip(1) =~= buf@.skip(i + 1));
        }
        i += 1;
    }
    i
}

/// Reads one field, at `pos`.
fn read_field(buf: &Vec<char>, pos: usize, d: char, format: Format) -> (r: Result<
    (Field, usize),
    ParseError,
>)
    requires
        pos <= buf.len(),
    ensures
        match parse_field(buf@.skip(pos as int), d) {
            Ok((field, left)) => r matches Ok((f, next)) && f@ == field && pos <= next <= buf.len()
                && next == buf.len() - left,
            Err(failure) => failure.1 <= buf.len() && r == Err::<(Field, usize), ParseError>(
                parse_error(format, buf@.len(), failure),
            ),
        },
{
    proof {
        reveal(parse_field);
    }
    let ghost s = buf@.skip(pos as int);
    if pos < buf.len() && buf[pos] == '"' {
        proof {
            assert(s.skip(1) =~= buf@.skip(pos + 1));
        }
        match read_quoted(buf, pos + 1, format) {
            Err(e) => Err(e),
            Ok((text, next)) => {
                proof {
                    lemma_tail_skip(buf@, pos + 1, next as int);
                }
                if next >= buf.len() || buf[next] == d || buf[next] == '\n' || buf[next] == '\r' {
                    Ok((Field { quoted: true, text }, next))
                } else {
                    parse_failure(format, next, ParseFault::UnexpectedChar)
                }
            },
        }
    } else {
        let end = scan_raw(buf, pos, d);
        let text = slice_string(buf, pos, end);
        proof {
            assert(s.take(end - pos) =~= buf@.subrange(pos as int, end as int));
        }
        Ok((Field { quoted: false, text }, end))
    }
}

/// One step of reading a record.
proof fn lemma_record_step(s: Seq<char>, d: char, done: Seq<FieldView>)
    ensures
        match parse_field(s, d) {
            Err(e) => parse_record(s, d) == Err::<(Seq<FieldView>, nat), Failure>(e),
            Ok((field, left)) => {
                let t = tail(s, left);
                if t.len() == 0 {
                    prepend(done, parse_record(s, d)) == Ok::<(Seq<FieldView>, nat), Failure>(
                        (done.push(field), 0),
                    )
                } else if t[0] == d {
                    prepend(done, parse_record(s, d)) == prepend(
                        done.push(field),
                        parse_record(t.skip(1), d),
                    )
                } else if t[0] == '\n' {
                    prepend(done, parse_record(s, d)) == Ok::<(Seq<FieldView>, nat), Failure>(
                        (done.push(field), (t.len() - 1) as nat),
                    )
                } else if t.len() >= 2 && t[0] == '\r' && t[1] == '\n' {
                    prepend(done, parse_record(s, d)) == Ok::<(Seq<FieldView>, nat), Failure>(
                        (done.push(field), (t.len() - 2) as nat),
                    )
                } else {
                    parse_record(s, d) == Err::<(Seq<FieldView>, nat), Failure>(
                        (ParseFault::UnexpectedChar, t.len()),
                    )
                }
            },
        },
{
    reveal(parse_record);
    if let Ok((field, left)) = parse_field(s, d) {
        let t = tail(s, left);
        assert(done + seq![field] =~= done.push(field));
        if t.len() > 0 && t[0] == d {
            crate::error::lemma_prepend_push(done, field, parse_record(t.skip(1), d));
        }
    }
}

/// Reads one record, at `pos`.
fn read_record(buf: &Vec<char>, pos: usize, d: char, format: Format) -> (r: Result<
    (Vec<Field>, usize),
    ParseError,
>)
    requires
        pos <= buf.len(),
    ensures
        match parse_record(buf@.skip(pos as int), d) {
            Ok((fields, left)) => r matches Ok((f, next)) && field_views(f@) == fields && pos
                <= next <= buf.len() && next == buf.len() - left && (pos < buf.len() ==> pos
                < next),
            Err(failure) => failure.1 <= buf.len() && r == Err::<(Vec<Field>, usize), ParseError>(
                parse_error(format, buf@.len(), failure),
            ),
        },
{
    let mut fields: Vec<Field> = Vec::new();
    let mut i = pos;
    let ghost goal = parse_record(buf@.skip(pos as int), d);
    proof {
        assert(field_views(fields@) =~= Seq::<FieldView>::empty());
        lemma_prepend_nothing(goal);
    }
    loop
        invariant
            pos <= i <= buf.len(),
            goal == parse_record(buf@.skip(pos as int), d),
            prepend(field_views(fields@), parse_record(buf@.skip(i as int), d)) == goal,
            i == pos || pos < buf.len(),
        decreases buf.len() - i,
    {
        let ghost done = field_views(fields@);
        proof {
            lemma_record_step(buf@.skip(i as int), d, done);
        }
        match read_field(buf, i, d, format) {
            Err(e) => {
                return Err(e);
            },
            Ok((field, next)) => {
                proof {
                    lemma_tail_skip(buf@, i as int, next as int);
                }
                let ghost field_view = field@;
                fields.push(field);
                proof {
                    assert(field_views(fields@) =~= done.push(field_view));
                }
                if next >= buf.len() {
                    return Ok((fields, next));
                }
                let c = buf[next];
                if c == d {
                    proof {
                        assert(buf@.skip(next as int).skip(1) =~= buf@.skip(next + 1));
                    }
                    i = next + 1;
                } else if c == '\n' {
                    return Ok((fields, next + 1));
                } else if next + 1 < buf.len() && c == '\r' && buf[next + 1] == '\n' {
                    return Ok((fields, next + 2));
                } else {
                    return parse_failure(format, next, ParseFault::UnexpectedChar);
                }
            },
        }
    }
}

/// The value of a field.
fn cell(field: &Field) -> (r: Value)
    ensures
        r@ == cell_value(field@),
{
    if field.quoted {
        return Value::String(field.text.clone());
    }
    let text = field.text.as_str();
    if text.unicode_len() == 0 {
        assert(field.text@ =~= Seq::<char>::empty());
        Value::Null
    } else if field.text == "true".to_owned() {
        proof {
            reveal_strlit("true");
            assert("true"@ =~= seq!['t', 'r', 'u', 'e']);
        }
        Value::Bool(true)
    } else if field.text == "false".to_owned() {
        proof {
            reveal_strlit("true");
            reveal_strlit("false");
            assert("true"@ =~= seq!['t', 'r', 'u', 'e']);
            assert("false"@ =~= seq!['f', 'a', 'l', 's', 'e']);
        }
        Value::Bool(false)
    } else {
        proof {
            reveal_strlit("true");
            reveal_strlit("false");
            assert("true"@ =~= seq!['t', 'r', 'u', 'e']);
            assert("false"@ =~= seq!['f', 'a', 'l', 's', 'e']);
        }
        match Number::parse(text) {
            Some(n) => Value::Number(n),
            None => Value::String(field.text.clone()),
        }
    }
}

/// The object that a row is under a header.
fn make_row(header: &Vec<Field>, row: &Vec<Field>) -> (r: Value)
    requires
        header.len() == row.len(),
    ensures
        r@ == row_object(field_views(header@), field_views(row@)),
{
    let ghost wanted = row_entries(field_views(header@), field_views(row@));
    let mut entries: Vec<(String, Value)> = Vec::new();
    let mut i: usize = 0;
    while i < row.len()
        invariant
            i <= row.len(),
            header.len() == row.len(),
            entries.len() == i,
            wanted == row_entries(field_views(header@), field_views(row@)),
            forall|j: int| 0 <= j < i ==> (#[trigger] entries[j].0)@ == wanted[j].0 && entries[j].1@
                == wanted[j].1,
        decreases row.len() - i,
    {
        entries.push((header[i].text.clone(), cell(&row[i])));
        i += 1;
    }
    assert(entry_views(entries@) =~= wanted);
    let unique = gather(entries);
    proof {
        lemma_object_view(unique);
    }
    Value::Object(unique)
}

/// One step of reading the records.
proof fn lemma_records_step(s: Seq<char>, d: char, columns: nat, done: Seq<Seq<FieldView>>)
    ensures
        s.len() == 0 ==> prepend(done, parse_records(s, d, columns)) == Ok::<
            (Seq<Seq<FieldView>>, nat),
            Failure,
        >((done, 0)),
        s.len() > 0 ==> match parse_record(s, d) {
            Err(e) => parse_records(s, d, columns) == Err::<(Seq<Seq<FieldView>>, nat), Failure>(e),
            Ok((fields, left)) => {
                if fields.len() != columns {
                    parse_records(s, d, columns) == Err::<(Seq<Seq<FieldView>>, nat), Failure>(
                        (ParseFault::FieldCount, s.len()),
                    )
                } else {
                    prepend(done, parse_records(s, d, columns)) == prepend(
                        done.push(fields),
                        parse_records(tail(s, left), d, columns),
                    )
                }
            },
        },
{
    reveal(parse_records);
    assert(done + Seq::<Seq<FieldView>>::empty() =~= done);
    if s.len() > 0 {
        if let Ok((fields, left)) = parse_record(s, d) {
            if fields.len() == columns {
                crate::error::lemma_prepend_push(
                    done,
                    fields,
                    parse_records(tail(s, left), d, columns),
                );
            }
        }
    }
}

/// Reads a whole text as a table.
pub fn read_table(buf: &Vec<char>, delimiter: Delimiter) -> (r: Result<Value, ParseError>)
    ensures
        match parse_table(buf@, delimiter.mark()) {
            Ok(value) => r matches Ok(v) && v@ == value,
            Err(failure) => r == Err::<Value, ParseError>(
                parse_error(format_of(delimiter), buf@.len(), failure),
            ),
        },
{
    let d = delimiter.character();
    let format = format_for(delimiter);
    let mut rows: Vec<Value> = Vec::new();
    if buf.len() == 0 {
        proof {
            lemma_array_view(rows);
            assert(views(rows@) =~= Seq::<ValueView>::empty());
        }
        return Ok(Value::Array(rows));
    }
    assert(buf@.skip(0) =~= buf@);
    let (header, start) = match read_record(buf, 0, d, format) {
        Err(e) => {
            return Err(e);
        },
        Ok(read) => read,
    };
    proof {
        lemma_tail_skip(buf@, 0, start as int);
    }
    let ghost names = field_views(header@);
    let ghost goal = parse_records(buf@.skip(start as int), d, names.len());
    let ghost mut done: Seq<Seq<FieldView>> = Seq::empty();
    let mut i = start;
    proof {
        lemma_prepend_nothing(goal);
        assert(views(rows@) =~= row_objects(names, done));
    }
    while i < buf.len()
        invariant
            start <= i <= buf.len(),
            names == field_views(header@),
            goal == parse_records(buf@.skip(start as int), d, names.len()),
            prepend(done, parse_records(buf@.skip(i as int), d, names.len())) == goal,
            views(rows@) == row_objects(names, done),
            format == format_of(delimiter),
            d == delimiter.mark(),
            parse_table(buf@, d) == match goal {
                Err(e) => Err::<ValueView, Failure>(e),
                Ok((all, _)) => Ok(ValueView::Array(row_objects(names, all))),
            },
        decreases buf.len() - i,
    {
        proof {
            lemma_records_step(buf@.skip(i as int), d, names.len(), done);
        }
        match read_record(buf, i, d, format) {
            Err(e) => {
                return Err(e);
            },
            Ok((row, next)) => {
                if row.len() != header.len() {
                    return parse_failure(format, i, ParseFault::FieldCount);
                }
                proof {
                    lemma_tail_skip(buf@, i as int, next as int);
                }
                let ghost before = views(rows@);
                let ghost count = rows.len();
                proof {
                    assert(row_objects(names, done).len() == done.len());
                    assert(before.len() == count);
                }
                rows.push(make_row(&header, &row));
                proof {
                    let fields = field_views(row@);
                    let after = row_objects(names, done.push(fields));
                    assert(views(rows@).len() == after.len());
                    assert forall|j: int| 0 <= j < after.len() implies views(rows@)[j]
                        == after[j] by {
                        if j < done.len() {
                            assert(views(rows@)[j] == before[j]);
                            assert(done.push(fields)[j] == done[j]);
                        } else {
                            assert(done.push(fields)[j] == fields);
                        }
                    }
                    assert(views(rows@) =~= after);
                    done = done.push(fields);
                }
                i = next;
            },
        }
    }
    proof {
        lemma_records_step(buf@.skip(i as int), d, names.len(), done);
        lemma_array_view(rows);
    }
    Ok(Value::Array(rows))
}

/// What a byte buffer denotes as a table.
pub open spec fn parse_bytes(bytes: Seq<u8>, delimiter: Delimiter) -> Result<ValueView, ParseError> {
    match decoded(bytes) {
        None => Err(
            ParseError {
                format: format_of(delimiter),
                position: 0,
                fault: ParseFault::InvalidUtf8,
            },
        ),
        Some(text) => match parse_table(text, delimiter.mark()) {
            Ok(value) => Ok(value),
            Err(failure) => Err(parse_error(format_of(delimiter), text.len(), failure)),
        },
    }
}

/// Reads a byte buffer as a table.
pub fn parse(input: &[u8], delimiter: Delimiter) -> (r: Result<Value, ParseError>)
    ensures
        match parse_bytes(input@, delimiter) {
            Ok(value) => r matches Ok(v) && v@ == value,
            Err(e) => r == Err::<Value, ParseError>(e),
        },
{
    match decode(input) {
        None => parse_failure(format_for(delimiter), 0, ParseFault::InvalidUtf8),
        Some(buf) => read_table(&buf, delimiter),
    }
}

} // verus!
