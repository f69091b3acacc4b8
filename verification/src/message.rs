//! The words for an error, for a reader who is no program.

use crate::error::{
    ConfigError, EncodeFault, Error, FilterConfigError, Format, ParseError, ParseFault,
};
use crate::filters::path::PathFault;
use crate::text::{decimal_digits, push_decimal, push_str, string_of};
use vstd::prelude::*;

verus! {

/// The name of a format.
pub open spec fn format_name(format: Format) -> Seq<char> {
    match format {
        Format::Json => "JSON"@,
        Format::Yaml => "YAML"@,
        Format::Xml => "XML"@,
        Format::Csv => "CSV"@,
        Format::Tsv => "TSV"@,
        Format::Toon => "TOON"@,
    }
}

/// The words for a fault in an input.
pub open spec fn parse_fault_text(fault: ParseFault) -> Seq<char> {
    match fault {
        ParseFault::InvalidUtf8 => "the bytes are not UTF-8"@,
        ParseFault::UnexpectedEnd => "the text ends too early"@,
        ParseFault::UnexpectedChar => "unexpected character"@,
        ParseFault::InvalidLiteral => "unknown word"@,
        ParseFault::InvalidNumber => "malformed number"@,
        ParseFault::InvalidEscape => "unknown escape"@,
        ParseFault::ControlCharacter => "control character in a string"@,
        ParseFault::UnterminatedString => "a string is not closed"@,
        ParseFault::TrailingCharacters => "something follows the end of the document"@,
        ParseFault::TooDeep => "nested too deep"@,
        ParseFault::FieldCount => "a row has another number of fields than the header"@,
        ParseFault::Indentation => "a line fits no block"@,
        ParseFault::MismatchedTag => "a closing tag names another element"@,
        ParseFault::NoDelimiter => "the first line holds no delimiter"@,
    }
}

/// The words for a fault in a path expression.
pub open spec fn path_fault_text(fault: PathFault) -> Seq<char> {
    match fault {
        PathFault::Empty => "the expression is empty"@,
        PathFault::EmptyKey => "a key is missing"@,
        PathFault::UnclosedBracket => "a bracket is not closed"@,
        PathFault::InvalidIndex => "an index is neither a number nor *"@,
        PathFault::IndexTooLarge => "an index is too large"@,
        PathFault::UnexpectedChar => "unexpected character"@,
    }
}

/// The words for a malformed input.
pub open spec fn parse_text(e: ParseError) -> Seq<char> {
    format_name(e.format) + " input is malformed at character "@ + decimal_digits(
        e.position as nat,
    ) + ": "@ + parse_fault_text(e.fault)
}

/// The words for an error.
pub open spec fn message_text(e: Error) -> Seq<char> {
    match e {
        Error::Config(ConfigError::MissingParser) => "no input format was chosen"@,
        Error::Config(ConfigError::MissingEncoder) => "no output format was chosen"@,
        Error::Config(ConfigError::UnsupportedInputFormat) => "unsupported input format"@,
        Error::Config(ConfigError::UnsupportedOutputFormat) => "unsupported output format"@,
        Error::FilterConfig(FilterConfigError::NegativeDepth) => "the depth is negative"@,
        Error::FilterConfig(FilterConfigError::Path(p)) => "the path is malformed at character "@
            + decimal_digits(p.position as nat) + ": "@ + path_fault_text(p.fault),
        Error::AutoDetect(a) => "no format fits the input; "@ + parse_text(a.yaml) + "; "@
            + parse_text(a.table),
        Error::Parse(p) => parse_text(p),
        Error::FilterApply(f) => "a filter failed, number "@ + decimal_digits(f.filter as nat),
        Error::Encode(x) => "the value cannot be written as "@ + format_name(x.format) + ": "@
            + match x.fault {
            EncodeFault::InvalidNumber => "a number holds no numeric literal"@,
            EncodeFault::NotTabular => "it is no array of flat objects with the same keys"@,
        },
    }
}

/// Appends the name of a format.
fn push_format(out: &mut Vec<char>, format: Format)
    ensures
        final(out)@ == old(out)@ + format_name(format),
{
    match format {
        Format::Json => push_str(out, "JSON"),
        Format::Yaml => push_str(out, "YAML"),
        Format::Xml => push_str(out, "XML"),
        Format::Csv => push_str(out, "CSV"),
        Format::Tsv => push_str(out, "TSV"),
        Format::Toon => push_str(out, "TOON"),
    }
}

/// Appends the words for a fault in an input.
fn push_parse_fault(out: &mut Vec<char>, fault: ParseFault)
    ensures
        final(out)@ == old(out)@ + parse_fault_text(fault),
{
    match fault {
        ParseFault::InvalidUtf8 => push_str(out, "the bytes are not UTF-8"),
        ParseFault::UnexpectedEnd => push_str(out, "the text ends too early"),
        ParseFault::UnexpectedChar => push_str(out, "unexpected character"),
        ParseFault::InvalidLiteral => push_str(out, "unknown word"),
        ParseFault::InvalidNumber => push_str(out, "malformed number"),
        ParseFault::InvalidEscape => push_str(out, "unknown escape"),
        ParseFault::ControlCharacter => push_str(out, "control character in a string"),
        ParseFault::UnterminatedString => push_str(out, "a string is not closed"),
        ParseFault::TrailingCharacters => push_str(
            out,
            "something follows the end of the document",
        ),
        ParseFault::TooDeep => push_str(out, "nested too deep"),
        ParseFault::FieldCount => push_str(
            out,
            "a row has another number of fields than the header",
        ),
        ParseFault::Indentation => push_str(out, "a line fits no block"),
        ParseFault::MismatchedTag => push_str(out, "a closing tag names another element"),
        ParseFault::NoDelimiter => push_str(out, "the first line holds no delimiter"),
    }
}

/// Appends the words for a fault in a path expression.
fn push_path_fault(out: &mut Vec<char>, fault: PathFault)
    ensures
        final(out)@ == old(out)@ + path_fault_text(fault),
{
    match fault {
        PathFault::Empty => push_str(out, "the expression is empty"),
        PathFault::EmptyKey => push_str(out, "a key is missing"),
        PathFault::UnclosedBracket => push_str(out, "a bracket is not closed"),
        PathFault::InvalidIndex => push_str(out, "an index is neither a number nor *"),
        PathFault::IndexTooLarge => push_str(out, "an index is too large"),
        PathFault::UnexpectedChar => push_str(out, "unexpected character"),
    }
}

/// Appends the words for a malformed input.
fn push_parse(out: &mut Vec<char>, e: ParseError)
    ensures
        final(out)@ == old(out)@ + parse_text(e),
{
    push_format(out, e.format);
    push_str(out, " input is malformed at character ");
    push_decimal(out, e.position as u64);
    push_str(out, ": ");
    push_parse_fault(out, e.fault);
    assert(out@ =~= old(out)@ + parse_text(e));
}

impl Error {
    /// The words for the error.
    pub fn message(&self) -> (r: String)
        ensures
            r@ == message_text(*self),
    {
        let mut out: Vec<char> = Vec::new();
        match *self {
            Error::Config(ConfigError::MissingParser) => push_str(
                &mut out,
                "no input format was chosen",
            ),
            Error::Config(ConfigError::MissingEncoder) => push_str(
                &mut out,
                "no output format was chosen",
            ),
            Error::Config(ConfigError::UnsupportedInputFormat) => push_str(
                &mut out,
                "unsupported input format",
            ),
            Error::Config(ConfigError::UnsupportedOutputFormat) => push_str(
                &mut out,
                "unsupported output format",
            ),
            Error::FilterConfig(FilterConfigError::NegativeDepth) => push_str(
                &mut out,
                "the depth is negative",
            ),
            Error::FilterConfig(FilterConfigError::Path(p)) => {
                push_str(&mut out, "the path is malformed at character ");
                push_decimal(&mut out, p.position as u64);
                push_str(&mut out, ": ");
                push_path_fault(&mut out, p.fault);
            },
            Error::AutoDetect(a) => {
                push_str(&mut out, "no format fits the input; ");
                push_parse(&mut out, a.yaml);
                push_str(&mut out, "; ");
                push_parse(&mut out, a.table);
            },
            Error::Parse(p) => push_parse(&mut out, p),
            Error::FilterApply(f) => {
                push_str(&mut out, "a filter failed, number ");
                push_decimal(&mut out, f.filter as u64);
            },
            Error::Encode(x) => {
                push_str(&mut out, "the value cannot be written as ");
                push_format(&mut out, x.format);
                push_str(&mut out, ": ");
                match x.fault {
                    EncodeFault::InvalidNumber => push_str(
                        &mut out,
                        "a number holds no numeric literal",
                    ),
                    EncodeFault::NotTabular => push_str(
                        &mut out,
                        "it is no array of flat objects with the same keys",
                    ),
                }
            },
        }
        assert(out@ =~= message_text(*self));
        string_of(&out)
    }
}

} // verus!
