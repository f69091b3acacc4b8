//! The YAML subset that the library reads, as functions on text.
//!
//! A document is a block of lines. Blank lines and lines that start with
//! `#` are not part of it. A line `- item` belongs to a sequence, a line
//! `key: value` to a mapping, any other line is a scalar. What follows a
//! dash or a key on its own line is nested further to the right; a
//! sequence under a key may also stand at the key's own indentation. A
//! scalar is a string in double quotes (with the escapes of JSON), an
//! array or object in the one-line notation of JSON, or plain text: `null`
//! and `~` are null, `true` and `false` are booleans, a numeric literal is
//! a number, all else is a string. Strings in single quotes, block
//! scalars, anchors, aliases, tags and directives are refused.
//!
//! A result of reading lines is the value with the number of lines left
//! after it; a failure is a fault with the number of lines left where it
//! was met, the line at fault included.

use crate::error::{prepend, Failure, ParseFault};
use crate::json::syntax::{array_result, object_result, parse_string, parse_value, MAX_NESTING};
use crate::number::{is_number, number_of};
use crate::text::{tail, trim_start};
use crate::value::ValueView;
use vstd::prelude::*;

verus! {

/// A line of a document: the number of blanks it starts with, and its text
/// behind them, which is not empty and ends with no blank.
pub struct Line {
    pub indent: nat,
    pub content: Seq<char>,
}

/// How many characters `s` has before its first line feed.
pub open spec fn line_len(s: Seq<char>) -> nat
    decreases s.len(),
{
    if s.len() > 0 && s[0] != '\n' {
        1 + line_len(s.skip(1))
    } else {
        0
    }
}

/// How many blanks `s` starts with.
pub open spec fn indent_len(s: Seq<char>) -> nat
    decreases s.len(),
{
    if s.len() > 0 && s[0] == ' ' {
        1 + indent_len(s.skip(1))
    } else {
        0
    }
}

/// The length of `s` without the blanks, tabs and carriage returns at its
/// end.
pub open spec fn trimmed_len(s: Seq<char>) -> nat
    decreases s.len(),
{
    if s.len() > 0 && (s.last() == ' ' || s.last() == '\r' || s.last() == '\t') {
        trimmed_len(s.drop_last())
    } else {
        s.len()
    }
}

/// A line is never longer than the text.
pub proof fn lemma_line_len(s: Seq<char>)
    ensures
        line_len(s) <= s.len(),
        line_len(s) < s.len() ==> s[line_len(s) as int] == '\n',
    decreases s.len(),
{
    if s.len() > 0 && s[0] != '\n' {
        lemma_line_len(s.skip(1));
    }
}

/// An indentation is never longer than the text.
pub proof fn lemma_indent_len(s: Seq<char>)
    ensures
        indent_len(s) <= s.len(),
        indent_len(s) < s.len() ==> s[indent_len(s) as int] != ' ',
    decreases s.len(),
{
    if s.len() > 0 && s[0] == ' ' {
        lemma_indent_len(s.skip(1));
    }
}

/// Trimming makes a text no longer.
pub proof fn lemma_trimmed_len(s: Seq<char>)
    ensures
        trimmed_len(s) <= s.len(),
    decreases s.len(),
{
    if s.len() > 0 && (s.last() == ' ' || s.last() == '\r' || s.last() == '\t') {
        lemma_trimmed_len(s.drop_last());
    }
}

/// The first line of `s`, without the blanks at its end.
pub open spec fn first_line(s: Seq<char>) -> Seq<char> {
    let raw = s.take(line_len(s) as int);
    raw.take(trimmed_len(raw) as int)
}

/// What follows the first line of `s`.
pub open spec fn next_lines(s: Seq<char>) -> Seq<char> {
    if line_len(s) < s.len() {
        s.skip(line_len(s) + 1 as int)
    } else {
        Seq::empty()
    }
}

/// The lines of a text that are neither blank nor comments, each with the
/// number of characters that are left at its first character.
pub open spec fn scan_lines(s: Seq<char>) -> Seq<(Line, nat)>
    decreases s.len(),
{
    if s.len() == 0 {
        Seq::empty()
    } else {
        proof {
            lemma_line_len(s);
        }
        let body = first_line(s);
        let indent = indent_len(body);
        let content = body.skip(indent as int);
        if content.len() == 0 || content[0] == '#' {
            scan_lines(next_lines(s))
        } else {
            seq![(Line { indent, content }, (s.len() - indent) as nat)] + scan_lines(next_lines(s))
        }
    }
}

/// The lines without their places.
pub open spec fn lines_of(scanned: Seq<(Line, nat)>) -> Seq<Line> {
    Seq::new(scanned.len(), |i: int| scanned[i].0)
}

/// What a line is by its first characters.
pub enum Shape {
    /// An item of a sequence, with the text behind the dash.
    Dash(Seq<char>),
    /// An entry of a mapping, with its key and the text behind the colon.
    Pair(Seq<char>, Seq<char>),
    /// A scalar.
    Scalar,
}

/// The place of the first colon that ends a key: one that is followed by
/// a blank or by nothing.
pub open spec fn colon_index(s: Seq<char>) -> Option<nat>
    decreases s.len(),
{
    if s.len() == 0 {
        None
    } else if s[0] == ':' && (s.len() == 1 || s[1] == ' ') {
        Some(0)
    } else {
        match colon_index(s.skip(1)) {
            Some(i) => Some(i + 1),
            None => None,
        }
    }
}

/// `s` without the blanks it starts with.
pub open spec fn skip_blanks(s: Seq<char>) -> Seq<char> {
    s.skip(indent_len(s) as int)
}

/// Whether `c` starts something that is not read: a string in single
/// quotes, a block scalar, an anchor, an alias, a tag or a directive.
pub open spec fn is_reserved(c: char) -> bool {
    c == '\'' || c == '|' || c == '>' || c == '&' || c == '*' || c == '!' || c == '%' || c == '@'
        || c == '`'
}

/// The shape of a line with the given text.
#[verifier::opaque]
pub open spec fn classify(content: Seq<char>) -> Result<Shape, ParseFault> {
    if content.len() == 0 {
        Ok(Shape::Scalar)
    } else if is_reserved(content[0]) {
        Err(ParseFault::UnexpectedChar)
    } else if content[0] == '-' && (content.len() == 1 || content[1] == ' ') {
        Ok(Shape::Dash(skip_blanks(content.skip(1))))
    } else if content[0] == '[' || content[0] == '{' {
        Ok(Shape::Scalar)
    } else if content[0] == '"' {
        match parse_string(content.skip(1)) {
            Err(e) => Err(e.0),
            Ok((key, left)) => {
                let t = tail(content.skip(1), left);
                if t.len() == 0 {
                    Ok(Shape::Scalar)
                } else if t[0] == ':' && (t.len() == 1 || t[1] == ' ') {
                    Ok(Shape::Pair(key, skip_blanks(t.skip(1))))
                } else {
                    Err(ParseFault::UnexpectedChar)
                }
            },
        }
    } else {
        match colon_index(content) {
            Some(i) => Ok(Shape::Pair(content.take(i as int), skip_blanks(content.skip(i + 1 as int)))),
            None => Ok(Shape::Scalar),
        }
    }
}

/// The place of a colon is within the text.
pub proof fn lemma_colon_index(s: Seq<char>)
    ensures
        colon_index(s) matches Some(i) ==> i < s.len(),
    decreases s.len(),
{
    if s.len() > 0 && !(s[0] == ':' && (s.len() == 1 || s[1] == ' ')) {
        lemma_colon_index(s.skip(1));
    }
}

/// The text behind a dash or a colon is shorter than the line.
pub proof fn lemma_shape(content: Seq<char>)
    ensures
        classify(content) matches Ok(Shape::Dash(text)) ==> text.len() < content.len(),
        classify(content) matches Ok(Shape::Pair(_, text)) ==> text.len() < content.len(),
{
    reveal(classify);
    if content.len() > 0 {
        lemma_indent_len(content.skip(1));
        lemma_colon_index(content);
        if let Some(i) = colon_index(content) {
            lemma_indent_len(content.skip(i + 1 as int));
        }
        if content[0] == '"' {
            if let Ok((key, left)) = parse_string(content.skip(1)) {
                let t = tail(content.skip(1), left);
                if t.len() > 0 {
                    lemma_indent_len(t.skip(1));
                }
            }
        }
    }
}

/// The value of plain text.
pub open spec fn plain_value(text: Seq<char>) -> ValueView {
    if text == seq!['n', 'u', 'l', 'l'] || text == seq!['~'] {
        ValueView::Null
    } else if text == seq!['t', 'r', 'u', 'e'] {
        ValueView::Bool(true)
    } else if text == seq!['f', 'a', 'l', 's', 'e'] {
        ValueView::Bool(false)
    } else if is_number(text) {
        ValueView::Number(number_of(text))
    } else {
        ValueView::String(text)
    }
}

/// The value of a scalar with the given text; of no text, null. An array
/// or object in the one-line notation may open `budget` arrays and objects
/// inside one another, as many as a block in its place might.
#[verifier::opaque]
pub open spec fn scalar_value(text: Seq<char>, budget: nat) -> Result<ValueView, ParseFault> {
    if text.len() == 0 {
        Ok(ValueView::Null)
    } else if text[0] == '"' {
        match parse_string(text.skip(1)) {
            Err(e) => Err(e.0),
            Ok((s, left)) => if left == 0 {
                Ok(ValueView::String(s))
            } else {
                Err(ParseFault::TrailingCharacters)
            },
        }
    } else if text[0] == '[' || text[0] == '{' {
        match parse_value(text, budget) {
            Err(e) => Err(e.0),
            Ok((v, left)) => if trim_start(tail(text, left)).len() == 0 {
                Ok(v)
            } else {
                Err(ParseFault::TrailingCharacters)
            },
        }
    } else {
        Ok(plain_value(text))
    }
}

/// The last `left` lines of `lines`; all of them where there are fewer.
pub open spec fn tail_lines(lines: Seq<Line>, left: nat) -> Seq<Line> {
    if left <= lines.len() {
        lines.skip(lines.len() - left)
    } else {
        lines
    }
}

/// Whether the lines go on with an item of the sequence at `indent`.
pub open spec fn continues_sequence(after: Seq<Line>, indent: nat) -> bool {
    after.len() > 0 && after[0].indent == indent && classify(after[0].content) matches Ok(
        Shape::Dash(_),
    )
}

/// Whether the lines go on with an entry of the mapping at `indent`.
pub open spec fn continues_mapping(after: Seq<Line>, indent: nat) -> bool {
    after.len() > 0 && after[0].indent == indent && classify(after[0].content) matches Ok(
        Shape::Pair(_, _),
    )
}

/// Reads the node that starts with the line `first` and goes on in
/// `rest`. `budget` is the number of arrays and objects that may still be
/// opened inside one another, be they written as blocks or on one line.
#[verifier::opaque]
pub open spec fn parse_node(first: Line, rest: Seq<Line>, budget: nat) -> Result<
    (ValueView, nat),
    Failure,
>
    decreases rest.len(), first.content.len(), 3nat,
{
    match classify(first.content) {
        Err(fault) => Err((fault, rest.len() + 1)),
        Ok(Shape::Scalar) => match scalar_value(first.content, budget) {
            Err(fault) => Err((fault, rest.len() + 1)),
            Ok(v) => Ok((v, rest.len())),
        },
        Ok(Shape::Dash(_)) => if budget == 0 {
            Err((ParseFault::TooDeep, rest.len() + 1))
        } else {
            array_result(parse_sequence(first, rest, (budget - 1) as nat))
        },
        Ok(Shape::Pair(_, _)) => if budget == 0 {
            Err((ParseFault::TooDeep, rest.len() + 1))
        } else {
            object_result(parse_mapping(first, rest, (budget - 1) as nat))
        },
    }
}

/// Reads what a dash or a key holds: a nested node in the lines that
/// follow where `text` is empty, else the node that `text` starts. Behind
/// a dash (`inline`) that node may be a sequence or a mapping, whose lines
/// start at `column`; behind a key it is a scalar.
#[verifier::opaque]
pub open spec fn parse_held(
    indent: nat,
    column: nat,
    text: Seq<char>,
    inline: bool,
    rest: Seq<Line>,
    budget: nat,
) -> Result<(ValueView, nat), Failure>
    decreases rest.len(), text.len(), 4nat,
{
    if text.len() == 0 {
        if rest.len() > 0 && (rest[0].indent > indent || (!inline && continues_sequence(
            rest,
            indent,
        ))) {
            parse_node(rest[0], rest.skip(1), budget)
        } else {
            Ok((ValueView::Null, rest.len()))
        }
    } else if inline {
        parse_node(Line { indent: column, content: text }, rest, budget)
    } else {
        match classify(text) {
            Ok(Shape::Scalar) => match scalar_value(text, budget) {
                Err(fault) => Err((fault, rest.len() + 1)),
                Ok(v) => Ok((v, rest.len())),
            },
            Ok(_) => Err((ParseFault::UnexpectedChar, rest.len() + 1)),
            Err(fault) => Err((fault, rest.len() + 1)),
        }
    }
}

/// Reads the items of the sequence that starts with the line `first`.
#[verifier::opaque]
pub open spec fn parse_sequence(first: Line, rest: Seq<Line>, budget: nat) -> Result<
    (Seq<ValueView>, nat),
    Failure,
>
    decreases rest.len(), first.content.len(), 2nat,
{
    match classify(first.content) {
        Ok(Shape::Dash(text)) => {
            proof {
                lemma_shape(first.content);
            }
            match parse_held(
                first.indent,
                (first.indent + first.content.len() - text.len()) as nat,
                text,
                true,
                rest,
                budget,
            ) {
                Err(e) => Err(e),
                Ok((item, left)) => {
                    let after = tail_lines(rest, left);
                    if continues_sequence(after, first.indent) {
                        prepend(seq![item], parse_sequence(after[0], after.skip(1), budget))
                    } else if after.len() > 0 && after[0].indent > first.indent {
                        Err((ParseFault::Indentation, after.len()))
                    } else {
                        Ok((seq![item], after.len()))
                    }
                },
            }
        },
        _ => Err((ParseFault::UnexpectedChar, rest.len() + 1)),
    }
}

/// Reads the entries of the mapping that starts with the line `first`, in
/// the order in which they are written.
#[verifier::opaque]
pub open spec fn parse_mapping(first: Line, rest: Seq<Line>, budget: nat) -> Result<
    (Seq<(Seq<char>, ValueView)>, nat),
    Failure,
>
    decreases rest.len(), first.content.len(), 2nat,
{
    match classify(first.content) {
        Ok(Shape::Pair(key, text)) => {
            proof {
                lemma_shape(first.content);
            }
            match parse_held(first.indent, 0, text, false, rest, budget) {
                Err(e) => Err(e),
                Ok((value, left)) => {
                    let after = tail_lines(rest, left);
                    if continues_mapping(after, first.indent) {
                        prepend(seq![(key, value)], parse_mapping(after[0], after.skip(1), budget))
                    } else if after.len() > 0 && after[0].indent > first.indent {
                        Err((ParseFault::Indentation, after.len()))
                    } else {
                        Ok((seq![(key, value)], after.len()))
                    }
                },
            }
        },
        _ => Err((ParseFault::UnexpectedChar, rest.len() + 1)),
    }
}

/// Reads the lines of a whole document: one node, and null where there
/// is no line.
pub open spec fn parse_lines(lines: Seq<Line>) -> Result<ValueView, Failure> {
    if lines.len() == 0 {
        Ok(ValueView::Null)
    } else {
        match parse_node(lines[0], lines.skip(1), MAX_NESTING as nat) {
            Err(e) => Err(e),
            Ok((value, left)) => if left == 0 {
                Ok(value)
            } else {
                Err((ParseFault::Indentation, left))
            },
        }
    }
}

/// The number of characters that are left at the line where `left` lines
/// are left.
pub open spec fn place(scanned: Seq<(Line, nat)>, left: nat) -> nat {
    if 0 < left <= scanned.len() {
        scanned[scanned.len() - left].1
    } else {
        0
    }
}

/// Reads a whole text.
pub open spec fn parse_document(s: Seq<char>) -> Result<ValueView, Failure> {
    let scanned = scan_lines(s);
    match parse_lines(lines_of(scanned)) {
        Ok(value) => Ok(value),
        Err((fault, left)) => Err((fault, place(scanned, left))),
    }
}

} // verus!
