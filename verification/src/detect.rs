//! Finding out the format of an input that comes without one.
//!
//! The steps, in this order: an input whose first character that is no
//! whitespace is `{` or `[` is JSON; one whose first such character is `<`
//! is XML; an input that reads as YAML is YAML; an input with a tab or a
//! comma on its first line that reads as a table is TSV or CSV. Where no
//! step applies, the failures of the formats that were tried are
//! reported: nothing is ever chosen by default.

use crate::delimited::syntax::Delimiter;
use crate::error::{AutoDetectError, Format, ParseError, ParseFault};
use crate::text::{decode, decoded, skip_space, trim_start};
use crate::yaml::syntax::{lemma_line_len, line_len};
use vstd::prelude::*;

verus! {

/// A format that can be read.
#[derive(Debug, Clone, Copy, PartialEq, Eq, Structural)]
pub enum InputFormat {
    Json,
    Yaml,
    Xml,
    Csv,
    Tsv,
}

/// Whether the byte is a blank, a tab, a line feed or a carriage return.
pub open spec fn is_space_byte(b: u8) -> bool {
    b == 0x20 || b == 0x09 || b == 0x0a || b == 0x0d
}

/// The first byte that is no whitespace.
pub open spec fn first_byte(bytes: Seq<u8>) -> Option<u8>
    decreases bytes.len(),
{
    if bytes.len() == 0 {
        None
    } else if is_space_byte(bytes[0]) {
        first_byte(bytes.skip(1))
    } else {
        Some(bytes[0])
    }
}

/// The delimiter that the first line which is not blank suggests: a tab
/// where it holds one, else a comma where it holds one.
pub open spec fn table_delimiter(text: Seq<char>) -> Option<Delimiter> {
    let t = trim_start(text);
    let line = t.take(line_len(t) as int);
    if line.contains('\t') {
        Some(Delimiter::Tab)
    } else if line.contains(',') {
        Some(Delimiter::Comma)
    } else {
        None
    }
}

/// What reading the input as a table gives, with the delimiter that its
/// first line suggests.
pub open spec fn table_attempt(bytes: Seq<u8>) -> Result<InputFormat, ParseError> {
    match decoded(bytes) {
        None => Err(ParseError { format: Format::Csv, position: 0, fault: ParseFault::InvalidUtf8 }),
        Some(text) => match table_delimiter(text) {
            None => Err(
                ParseError { format: Format::Csv, position: 0, fault: ParseFault::NoDelimiter },
            ),
            Some(d) => match crate::delimited::read::parse_bytes(bytes, d) {
                Ok(_) => Ok(
                    match d {
                        Delimiter::Comma => InputFormat::Csv,
                        Delimiter::Tab => InputFormat::Tsv,
                    },
                ),
                Err(e) => Err(e),
            },
        },
    }
}

/// The format of an input, or the failures of the formats that were
/// tried.
pub open spec fn detect_format(bytes: Seq<u8>) -> Result<InputFormat, AutoDetectError> {
    match first_byte(bytes) {
        Some(b) if b == 0x7b || b == 0x5b => Ok(InputFormat::Json),
        Some(b) if b == 0x3c => Ok(InputFormat::Xml),
        _ => match crate::yaml::read::parse_bytes(bytes) {
            Ok(_) => Ok(InputFormat::Yaml),
            Err(yaml) => match table_attempt(bytes) {
                Ok(format) => Ok(format),
                Err(table) => Err(AutoDetectError { yaml, table }),
            },
        },
    }
}

/// The first byte that is no whitespace.
fn leading_byte(input: &[u8]) -> (r: Option<u8>)
    ensures
        r == first_byte(input@),
{
    let mut i: usize = 0;
    assert(input@.skip(0) =~= input@);
    while i < input.len()
        invariant
            i <= input.len(),
            first_byte(input@) == first_byte(input@.skip(i as int)),
        decreases input.len() - i,
    {
        let b = input[i];
        if !(b == 0x20 || b == 0x09 || b == 0x0a || b == 0x0d) {
            return Some(b);
        }
        proof {
            assert(input@.skip(i as int).skip(1) =~= input@.skip(i + 1));
        }
        i += 1;
    }
    None
}

/// The delimiter that the first line which is not blank suggests.
fn suggest_delimiter(buf: &Vec<char>) -> (r: Option<Delimiter>)
    ensures
        r == table_delimiter(buf@),
{
    assert(buf@.skip(0) =~= buf@);
    let start = skip_space(buf, 0);
    let ghost t = buf@.skip(start as int);
    let ghost line = t.take(line_len(t) as int);
    proof {
        lemma_line_len(t);
    }
    let mut comma = false;
    let mut i = start;
    while i < buf.len() && buf[i] != '\n'
        invariant
            start <= i <= buf.len(),
            t == buf@.skip(start as int),
            t == trim_start(buf@),
            line == t.take(line_len(t) as int),
            line_len(t) <= t.len(),
            line_len(t) == (i - start) + line_len(buf@.skip(i as int)),
            forall|j: int| 0 <= j < i - start ==> line[j] != '\t',
            comma == exists|j: int| 0 <= j < i - start && line[j] == ',',
        decreases buf.len() - i,
    {
        proof {
            assert(buf@.skip(i as int).skip(1) =~= buf@.skip(i + 1));
            assert(buf@.skip(i as int)[0] == buf@[i as int]);
            assert(line_len(buf@.skip(i as int)) >= 1);
            assert(line[i - start] == buf@[i as int]);
        }
        if buf[i] == '\t' {
            assert(line.contains('\t'));
            return Some(Delimiter::Tab);
        }
        if buf[i] == ',' {
            comma = true;
        }
        i += 1;
    }
    proof {
        assert(line.len() == i - start);
    }
    if comma {
        Some(Delimiter::Comma)
    } else {
        None
    }
}

/// Reads the input as a table, with the delimiter that its first line
/// suggests.
fn try_table(input: &[u8]) -> (r: Result<InputFormat, ParseError>)
    ensures
        r == table_attempt(input@),
{
    let buf = match decode(input) {
        None => {
            return Err(
                ParseError { format: Format::Csv, position: 0, fault: ParseFault::InvalidUtf8 },
            );
        },
        Some(buf) => buf,
    };
    match suggest_delimiter(&buf) {
        None => Err(ParseError { format: Format::Csv, position: 0, fault: ParseFault::NoDelimiter }),
        Some(d) => match crate::delimited::read::parse(input, d) {
            Ok(_) => Ok(
                match d {
                    Delimiter::Comma => InputFormat::Csv,
                    Delimiter::Tab => InputFormat::Tsv,
                },
            ),
            Err(e) => Err(e),
        },
    }
}

/// Finds out the format of an input.
pub fn detect(input: &[u8]) -> (r: Result<InputFormat, AutoDetectError>)
    ensures
        r == detect_format(input@),
{
    match leading_byte(input) {
        Some(b) => {
            if b == 0x7b || b == 0x5b {
                return Ok(InputFormat::Json);
            }
            if b == 0x3c {
                return Ok(InputFormat::Xml);
            }
        },
        None => {},
    }
    match crate::yaml::read::parse(input) {
        Ok(_) => Ok(InputFormat::Yaml),
        Err(yaml) => match try_table(input) {
            Ok(format) => Ok(format),
            Err(table) => Err(AutoDetectError { yaml, table }),
        },
    }
}

} // verus!
