//! The errors of the library, one type for each stage at which one can
//! arise.

use crate::filters::path::PathError;
use vstd::prelude::*;

verus! {

/// A configuration that is incomplete or names a format that is not
/// supported. It is found before anything is read or written.
#[derive(Debug, Clone, Copy, PartialEq, Eq, Structural)]
pub enum ConfigError {
    /// Neither a parser nor a sample to detect one from was given.
    MissingParser,
    /// No encoder was given.
    MissingEncoder,
    /// The name of the input format is none of the supported ones.
    UnsupportedInputFormat,
    /// The name of the output format is none of the supported ones.
    UnsupportedOutputFormat,
}

/// A filter that cannot be made from its parameters. It is found when the
/// filter is made, before any pipeline is built.
#[derive(Debug, Clone, Copy, PartialEq, Eq, Structural)]
pub enum FilterConfigError {
    /// The depth is below zero.
    NegativeDepth,
    /// The path expression is malformed.
    Path(PathError),
}

/// A filter that failed on a value; `filter` is its place in the chain.
#[derive(Debug, Clone, Copy, PartialEq, Eq, Structural)]
pub struct FilterApplyError {
    pub filter: usize,
}

/// A textual format.
#[derive(Debug, Clone, Copy, PartialEq, Eq, Structural)]
pub enum Format {
    Json,
    Yaml,
    Xml,
    Csv,
    Tsv,
    Toon,
}

/// What is wrong with an input text.
#[derive(Debug, Clone, Copy, PartialEq, Eq, Structural)]
pub enum ParseFault {
    /// The bytes are not well-formed UTF-8.
    InvalidUtf8,
    /// The text ends where more is needed.
    UnexpectedEnd,
    /// A character stands where the grammar allows none like it.
    UnexpectedChar,
    /// A word that starts like `null`, `true` or `false` is none of them.
    InvalidLiteral,
    /// A number is malformed.
    InvalidNumber,
    /// A backslash or an ampersand starts no known escape.
    InvalidEscape,
    /// A control character stands unescaped in a string.
    ControlCharacter,
    /// A string has no closing quote.
    UnterminatedString,
    /// Something follows the end of the document.
    TrailingCharacters,
    /// Arrays and objects are nested deeper than the reader follows.
    TooDeep,
    /// A row has another number of fields than the header.
    FieldCount,
    /// A line is indented in a way that fits no block.
    Indentation,
    /// A closing tag does not name the element that is open.
    MismatchedTag,
    /// The text holds no delimiter, so it is no table.
    NoDelimiter,
}

/// An input that is malformed for a format, with the character position
/// at which this shows.
#[derive(Debug, Clone, Copy, PartialEq, Eq, Structural)]
pub struct ParseError {
    pub format: Format,
    pub position: usize,
    pub fault: ParseFault,
}

/// A fault and the number of characters that were left when it was met.
pub type Failure = (ParseFault, nat);

/// The error that a failure stands for in a text of `len` characters.
pub open spec fn parse_error(format: Format, len: nat, failure: Failure) -> ParseError {
    ParseError { format, position: (len - failure.1) as usize, fault: failure.0 }
}

/// No format could be detected: the failure of every format that was
/// tried. JSON and XML are chosen by the first character and never tried.
#[derive(Debug, Clone, Copy, PartialEq, Eq, Structural)]
pub struct AutoDetectError {
    /// Why the input is no YAML.
    pub yaml: ParseError,
    /// Why the input is no table.
    pub table: ParseError,
}

/// Why a value cannot be written in a format.
#[derive(Debug, Clone, Copy, PartialEq, Eq, Structural)]
pub enum EncodeFault {
    /// A number holds a literal that is no numeric literal.
    InvalidNumber,
    /// The value is no array of objects that all have the same keys and
    /// hold scalars only.
    NotTabular,
}

/// A value whose shape a format cannot represent.
#[derive(Debug, Clone, Copy, PartialEq, Eq, Structural)]
pub struct EncodeError {
    pub format: Format,
    pub fault: EncodeFault,
}

} // verus!

verus! {

/// Any error of the library.
#[derive(Debug, Clone, Copy, PartialEq, Eq, Structural)]
pub enum Error {
    Config(ConfigError),
    AutoDetect(AutoDetectError),
    FilterConfig(FilterConfigError),
    Parse(ParseError),
    FilterApply(FilterApplyError),
    Encode(EncodeError),
}

/// The stage of the work at which an error arose.
#[derive(Debug, Clone, Copy, PartialEq, Eq, Structural)]
pub enum Stage {
    Configure,
    Detect,
    Parse,
    Filter,
    Encode,
}

impl Error {
    /// The stage at which the error arose.
    pub open spec fn stage_of(self) -> Stage {
        match self {
            Error::Config(_) => Stage::Configure,
            Error::FilterConfig(_) => Stage::Configure,
            Error::AutoDetect(_) => Stage::Detect,
            Error::Parse(_) => Stage::Parse,
            Error::FilterApply(_) => Stage::Filter,
            Error::Encode(_) => Stage::Encode,
        }
    }

    /// The stage at which the error arose.
    pub fn stage(&self) -> (s: Stage)
        ensures
            s == self.stage_of(),
    {
        match self {
            Error::Config(_) => Stage::Configure,
            Error::FilterConfig(_) => Stage::Configure,
            Error::AutoDetect(_) => Stage::Detect,
            Error::Parse(_) => Stage::Parse,
            Error::FilterApply(_) => Stage::Filter,
            Error::Encode(_) => Stage::Encode,
        }
    }
}

/// The error for a fault met at `position` in a text of the given format.
pub fn parse_failure<T>(format: Format, position: usize, fault: ParseFault) -> (r: Result<
    T,
    ParseError,
>)
    ensures
        r == Err::<T, ParseError>(ParseError { format, position, fault }),
{
    Err(ParseError { format, position, fault })
}

/// What was read already, put in front of what reading the rest gives.
pub open spec fn prepend<T>(done: Seq<T>, rest: Result<(Seq<T>, nat), Failure>) -> Result<
    (Seq<T>, nat),
    Failure,
> {
    match rest {
        Ok((more, left)) => Ok((done + more, left)),
        Err(e) => Err(e),
    }
}

/// Nothing in front of a result leaves it as it is.
pub proof fn lemma_prepend_nothing<T>(r: Result<(Seq<T>, nat), Failure>)
    ensures
        prepend(Seq::empty(), r) == r,
{
    if let Ok((more, left)) = r {
        assert(Seq::<T>::empty() + more =~= more);
    }
}

/// Putting one thing and then more in front is putting all of it in front.
pub proof fn lemma_prepend_push<T>(done: Seq<T>, one: T, r: Result<(Seq<T>, nat), Failure>)
    ensures
        prepend(done, prepend(seq![one], r)) == prepend(done.push(one), r),
{
    if let Ok((more, left)) = r {
        assert(done + (seq![one] + more) =~= done.push(one) + more);
    }
}

} // verus!
