//! Delimited text (CSV and TSV) as functions on text: what a table
//! denotes, and the text that is written for a table.
//!
//! The first record names the columns. Every further record is one object
//! with the header's names as keys. A field in double quotes is a string,
//! with `""` for a quote inside it. Any other field is read by what it
//! looks like: nothing is null, `true` and `false` are booleans, a numeric
//! literal is a number, all else is a string.

use crate::error::{prepend, Failure, ParseFault};
use crate::number::{is_number, number_of};
use crate::text::tail;
use crate::value::{put_all, ValueView};
use vstd::prelude::*;

verus! {

/// The character that parts the fields of a record.
#[derive(Debug, Clone, Copy, PartialEq, Eq, Structural)]
pub enum Delimiter {
    Comma,
    Tab,
}

impl Delimiter {
    /// The delimiter as a character.
    pub open spec fn mark(self) -> char {
        match self {
            Delimiter::Comma => ',',
            Delimiter::Tab => '\t',
        }
    }

    /// The delimiter as a character.
    pub fn character(self) -> (c: char)
        ensures
            c == self.mark(),
    {
        match self {
            Delimiter::Comma => ',',
            Delimiter::Tab => '\t',
        }
    }
}

/// A field as it stands in the text: whether it was quoted, and its text
/// without the quotes.
pub type FieldView = (bool, Seq<char>);

/// Whether `c` ends a field that is not quoted.
pub open spec fn ends_field(c: char, d: char) -> bool {
    c == d || c == '\n' || c == '\r'
}

/// How many characters `s` starts with that end no field.
pub open spec fn raw_len(s: Seq<char>, d: char) -> nat
    decreases s.len(),
{
    if s.len() > 0 && !ends_field(s[0], d) {
        1 + raw_len(s.skip(1), d)
    } else {
        0
    }
}

/// Reads a quoted field from behind its opening quote to its closing quote.
#[verifier::opaque]
pub open spec fn parse_quoted(s: Seq<char>) -> Result<(Seq<char>, nat), Failure>
    decreases s.len(),
{
    if s.len() == 0 {
        Err((ParseFault::UnterminatedString, 0))
    } else if s[0] == '"' {
        if s.len() >= 2 && s[1] == '"' {
            prepend(seq!['"'], parse_quoted(s.skip(2)))
        } else {
            Ok((Seq::empty(), (s.len() - 1) as nat))
        }
    } else {
        prepend(seq![s[0]], parse_quoted(s.skip(1)))
    }
}

/// Reads one field.
#[verifier::opaque]
pub open spec fn parse_field(s: Seq<char>, d: char) -> Result<(FieldView, nat), Failure> {
    if s.len() > 0 && s[0] == '"' {
        match parse_quoted(s.skip(1)) {
            Err(e) => Err(e),
            Ok((text, left)) => {
                let t = tail(s.skip(1), left);
                if t.len() == 0 || ends_field(t[0], d) {
                    Ok(((true, text), left))
                } else {
                    Err((ParseFault::UnexpectedChar, left))
                }
            },
        }
    } else {
        let n = raw_len(s, d);
        Ok(((false, s.take(n as int)), (s.len() - n) as nat))
    }
}

/// Reads one record: its fields, to the end of the line or of the text.
#[verifier::opaque]
pub open spec fn parse_record(s: Seq<char>, d: char) -> Result<(Seq<FieldView>, nat), Failure>
    decreases s.len(),
{
    match parse_field(s, d) {
        Err(e) => Err(e),
        Ok((field, left)) => {
            let t = tail(s, left);
            if t.len() == 0 {
                Ok((seq![field], 0))
            } else if t[0] == d {
                prepend(seq![field], parse_record(t.skip(1), d))
            } else if t[0] == '\n' {
                Ok((seq![field], (t.len() - 1) as nat))
            } else if t.len() >= 2 && t[0] == '\r' && t[1] == '\n' {
                Ok((seq![field], (t.len() - 2) as nat))
            } else {
                Err((ParseFault::UnexpectedChar, t.len()))
            }
        },
    }
}

/// A record takes at least one character of a text that is not empty.
pub proof fn lemma_record_len(s: Seq<char>, d: char)
    ensures
        parse_record(s, d) matches Ok((_, left)) ==> left <= s.len() && (s.len() > 0 ==> left
            < s.len()),
    decreases s.len(),
{
    reveal(parse_record);
    reveal(parse_field);
    if let Ok((field, left)) = parse_field(s, d) {
        let t = tail(s, left);
        if t.len() > 0 && t[0] == d {
            lemma_record_len(t.skip(1), d);
        }
    }
}

/// Reads the records to the end of the text, each with `columns` fields.
#[verifier::opaque]
pub open spec fn parse_records(s: Seq<char>, d: char, columns: nat) -> Result<
    (Seq<Seq<FieldView>>, nat),
    Failure,
>
    decreases s.len(),
{
    if s.len() == 0 {
        Ok((Seq::empty(), 0))
    } else {
        match parse_record(s, d) {
            Err(e) => Err(e),
            Ok((fields, left)) => {
                if fields.len() != columns {
                    Err((ParseFault::FieldCount, s.len()))
                } else {
                    proof {
                        lemma_record_len(s, d);
                    }
                    prepend(seq![fields], parse_records(tail(s, left), d, columns))
                }
            },
        }
    }
}

/// The value of a field that is not quoted.
pub open spec fn infer(text: Seq<char>) -> ValueView {
    if text.len() == 0 {
        ValueView::Null
    } else if text == seq!['t', 'r', 'u', 'e'] {
        ValueView::Bool(true)
    } else if text == seq!['f', 'a', 'l', 's', 'e'] {
        ValueView::Bool(false)
    } else if is_number(text) {
        ValueView::Number(number_of(text))
    } else {
        ValueView::String(text)
    }
}

/// The value of a field.
pub open spec fn cell_value(field: FieldView) -> ValueView {
    if field.0 {
        ValueView::String(field.1)
    } else {
        infer(field.1)
    }
}

/// The entries of a row under a header, column by column.
pub open spec fn row_entries(header: Seq<FieldView>, row: Seq<FieldView>) -> Seq<
    (Seq<char>, ValueView),
> {
    Seq::new(row.len(), |i: int| (header[i].1, cell_value(row[i])))
}

/// The object that a row is under a header. Where a column name comes
/// twice, the last value wins and stands at the place of the first.
pub open spec fn row_object(header: Seq<FieldView>, row: Seq<FieldView>) -> ValueView {
    ValueView::Object(put_all(Seq::empty(), row_entries(header, row), row.len()))
}

/// The objects that the rows are under a header.
pub open spec fn row_objects(header: Seq<FieldView>, rows: Seq<Seq<FieldView>>) -> Seq<ValueView> {
    Seq::new(rows.len(), |i: int| row_object(header, rows[i]))
}

/// Reads a whole text as a table: an array with one object for each
/// record behind the header. A text without any character is the empty
/// array.
pub open spec fn parse_table(s: Seq<char>, d: char) -> Result<ValueView, Failure> {
    if s.len() == 0 {
        Ok(ValueView::Array(Seq::empty()))
    } else {
        match parse_record(s, d) {
            Err(e) => Err(e),
            Ok((header, left)) => match parse_records(tail(s, left), d, header.len()) {
                Err(e) => Err(e),
                Ok((rows, _)) => Ok(ValueView::Array(row_objects(header, rows))),
            },
        }
    }
}

} // verus!
