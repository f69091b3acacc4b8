//! The pipeline: one parser, the filters in their order, one encoder.
//!
//! A builder collects the configuration and checks it when the pipeline is
//! built. A pipeline that was built is not changed by running it and can
//! be run any number of times. A run parses, applies each filter to what
//! the one before it gave, and encodes; it stops at the first stage that
//! fails and returns that stage's error.

use crate::delimited::syntax::Delimiter;
use crate::detect::{detect, detect_format, InputFormat};
use crate::error::{
    ConfigError, EncodeError, EncodeFault, Error, FilterApplyError, FilterConfigError, Format,
    ParseError,
};
use crate::filters::max_depth::{truncate, MaxDepthFilter};
use crate::filters::path::{parse_path, path_error, segment_views};
use crate::filters::select::{extract, IncludeFilter};
use crate::json::write::writable;
use crate::sort::{sort_keys, sorted};
use crate::text::{chars_of, has_text};
use crate::value::{Value, ValueView};
use vstd::prelude::*;

verus! {

/// A format that can be written.
#[derive(Debug, Clone, Copy, PartialEq, Eq, Structural)]
pub enum OutputFormat {
    Toon,
    Json,
    Yaml,
    Tsv,
    Csv,
}

/// How the input is to be read: as a given format, or as the format that
/// is found out from the input.
#[derive(Debug, Clone, Copy, PartialEq, Eq, Structural)]
pub enum InputChoice {
    Fixed(InputFormat),
    Auto,
}

/// A filter of the chain.
#[derive(Debug, PartialEq, Eq)]
pub enum Filter {
    MaxDepth(MaxDepthFilter),
    Include(IncludeFilter),
}

impl Filter {
    /// What the filter makes of a value.
    pub open spec fn apply_spec(&self, v: ValueView) -> ValueView {
        match self {
            Filter::MaxDepth(f) => truncate(v, f.max_depth as nat),
            Filter::Include(f) => extract(v, segment_views(f.path@)),
        }
    }

    /// Applies the filter to `value`, which is left as it is. Neither of
    /// the two filters ever fails.
    pub fn apply(&self, value: &Value) -> (r: Result<Value, FilterApplyError>)
        ensures
            r matches Ok(v) && v@ == self.apply_spec(value@),
    {
        match self {
            Filter::MaxDepth(f) => Ok(f.apply(value)),
            Filter::Include(f) => Ok(f.apply(value)),
        }
    }
}

/// The character in lower case, where it is a capital of the basic
/// alphabet.
pub open spec fn lower_char(c: char) -> char {
    if 'A' <= c <= 'Z' {
        ((c as u32) + 32) as char
    } else {
        c
    }
}

/// The name in lower case.
pub open spec fn lower(name: Seq<char>) -> Seq<char> {
    Seq::new(name.len(), |i: int| lower_char(name[i]))
}

/// The output format with the given name: `toon`, `json`, `yaml`, `tsv` or
/// `csv`, written just so.
pub open spec fn output_format_of(name: Seq<char>) -> Option<OutputFormat> {
    if name == "toon"@ {
        Some(OutputFormat::Toon)
    } else if name == "json"@ {
        Some(OutputFormat::Json)
    } else if name == "yaml"@ {
        Some(OutputFormat::Yaml)
    } else if name == "tsv"@ {
        Some(OutputFormat::Tsv)
    } else if name == "csv"@ {
        Some(OutputFormat::Csv)
    } else {
        None
    }
}

/// The way of reading with the given name, whatever its case: `json`,
/// `yaml` or `yml`, `xml`, `csv`, `tsv`, or `auto`.
pub open spec fn input_choice_of(name: Seq<char>) -> Option<InputChoice> {
    let n = lower(name);
    if n == "json"@ {
        Some(InputChoice::Fixed(InputFormat::Json))
    } else if n == "yaml"@ || n == "yml"@ {
        Some(InputChoice::Fixed(InputFormat::Yaml))
    } else if n == "xml"@ {
        Some(InputChoice::Fixed(InputFormat::Xml))
    } else if n == "csv"@ {
        Some(InputChoice::Fixed(InputFormat::Csv))
    } else if n == "tsv"@ {
        Some(InputChoice::Fixed(InputFormat::Tsv))
    } else if n == "auto"@ {
        Some(InputChoice::Auto)
    } else {
        None
    }
}

/// The name in lower case.
fn lowered(name: &str) -> (r: Vec<char>)
    ensures
        r@ == lower(name@),
{
    let chars = chars_of(name);
    let mut out: Vec<char> = Vec::new();
    let mut i: usize = 0;
    while i < chars.len()
        invariant
            i <= chars.len(),
            out.len() == i,
            forall|j: int| 0 <= j < i ==> out@[j] == lower_char(chars@[j]),
        decreases chars.len() - i,
    {
        let c = chars[i];
        if 'A' <= c && c <= 'Z' {
            let code = c as u32 as u8;
            let small = (code + 32) as char;
            out.push(small);
        } else {
            out.push(c);
        }
        i += 1;
    }
    assert(out@ =~= lower(chars@));
    out
}

/// The output format with the given name.
pub fn parse_output_format(name: &str) -> (r: Option<OutputFormat>)
    ensures
        r == output_format_of(name@),
{
    let n = chars_of(name);
    if has_text(&n, "toon") {
        Some(OutputFormat::Toon)
    } else if has_text(&n, "json") {
        Some(OutputFormat::Json)
    } else if has_text(&n, "yaml") {
        Some(OutputFormat::Yaml)
    } else if has_text(&n, "tsv") {
        Some(OutputFormat::Tsv)
    } else if has_text(&n, "csv") {
        Some(OutputFormat::Csv)
    } else {
        None
    }
}

/// The way of reading with the given name.
pub fn parse_input_choice(name: &str) -> (r: Option<InputChoice>)
    ensures
        r == input_choice_of(name@),
{
    let n = lowered(name);
    if has_text(&n, "json") {
        Some(InputChoice::Fixed(InputFormat::Json))
    } else if has_text(&n, "yaml") || has_text(&n, "yml") {
        Some(InputChoice::Fixed(InputFormat::Yaml))
    } else if has_text(&n, "xml") {
        Some(InputChoice::Fixed(InputFormat::Xml))
    } else if has_text(&n, "csv") {
        Some(InputChoice::Fixed(InputFormat::Csv))
    } else if has_text(&n, "tsv") {
        Some(InputChoice::Fixed(InputFormat::Tsv))
    } else if has_text(&n, "auto") {
        Some(InputChoice::Auto)
    } else {
        None
    }
}

/// What a byte buffer denotes in a format.
pub open spec fn parse_as(format: InputFormat, bytes: Seq<u8>) -> Result<ValueView, ParseError> {
    match format {
        InputFormat::Json => crate::json::read::parse_bytes(bytes),
        InputFormat::Yaml => crate::yaml::read::parse_bytes(bytes),
        InputFormat::Xml => crate::xml::read::parse_bytes(bytes),
        InputFormat::Csv => crate::delimited::read::parse_bytes(bytes, Delimiter::Comma),
        InputFormat::Tsv => crate::delimited::read::parse_bytes(bytes, Delimiter::Tab),
    }
}

/// Reads a byte buffer in a format.
pub fn parse_input(format: InputFormat, input: &[u8]) -> (r: Result<Value, ParseError>)
    ensures
        match parse_as(format, input@) {
            Ok(value) => r matches Ok(v) && v@ == value,
            Err(e) => r == Err::<Value, ParseError>(e),
        },
{
    match format {
        InputFormat::Json => crate::json::read::parse(input),
        InputFormat::Yaml => crate::yaml::read::parse(input),
        InputFormat::Xml => crate::xml::read::parse(input),
        InputFormat::Csv => crate::delimited::read::parse(input, Delimiter::Comma),
        InputFormat::Tsv => crate::delimited::read::parse(input, Delimiter::Tab),
    }
}

/// The format that errors of an encoder name.
pub open spec fn format_of(output: OutputFormat) -> Format {
    match output {
        OutputFormat::Toon => Format::Toon,
        OutputFormat::Json => Format::Json,
        OutputFormat::Yaml => Format::Yaml,
        OutputFormat::Tsv => Format::Tsv,
        OutputFormat::Csv => Format::Csv,
    }
}

/// The text of a value in a format, as it stands.
pub open spec fn write_as(output: OutputFormat, v: ValueView) -> Result<Seq<char>, EncodeError> {
    match output {
        OutputFormat::Tsv | OutputFormat::Csv => {
            let d = if output == OutputFormat::Tsv {
                Delimiter::Tab
            } else {
                Delimiter::Comma
            };
            if !crate::delimited::write::is_table(v) {
                Err(EncodeError { format: format_of(output), fault: EncodeFault::NotTabular })
            } else if !writable(v) {
                Err(EncodeError { format: format_of(output), fault: EncodeFault::InvalidNumber })
            } else {
                Ok(crate::delimited::write::encode_table(v, d.mark()))
            }
        },
        _ => if !writable(v) {
            Err(EncodeError { format: format_of(output), fault: EncodeFault::InvalidNumber })
        } else {
            Ok(
                match output {
                    OutputFormat::Toon => crate::toon::write::encode(v),
                    OutputFormat::Json => crate::json::write::encode(v),
                    _ => crate::yaml::write::encode(v),
                },
            )
        },
    }
}

/// The text of a value in a format: with `sort_keys`, the keys of every
/// object come in ascending order, at every level; without, in the order
/// in which the value holds them.
pub open spec fn encode_as(output: OutputFormat, sort_keys: bool, v: ValueView) -> Result<
    Seq<char>,
    EncodeError,
> {
    write_as(
        output,
        if sort_keys {
            sorted(v)
        } else {
            v
        },
    )
}

/// Writes a value in a format, as it stands.
fn write_output(output: OutputFormat, value: &Value) -> (r: Result<String, EncodeError>)
    ensures
        match write_as(output, value@) {
            Ok(text) => r matches Ok(s) && s@ == text,
            Err(e) => r == Err::<String, EncodeError>(e),
        },
{
    match output {
        OutputFormat::Toon => crate::toon::write::to_text(value),
        OutputFormat::Json => crate::json::write::to_text(value),
        OutputFormat::Yaml => crate::yaml::write::to_text(value),
        OutputFormat::Tsv => crate::delimited::write::to_text(value, Delimiter::Tab),
        OutputFormat::Csv => crate::delimited::write::to_text(value, Delimiter::Comma),
    }
}

/// Writes a value in a format.
pub fn encode_output(output: OutputFormat, sort: bool, value: &Value) -> (r: Result<
    String,
    EncodeError,
>)
    ensures
        match encode_as(output, sort, value@) {
            Ok(text) => r matches Ok(s) && s@ == text,
            Err(e) => r == Err::<String, EncodeError>(e),
        },
{
    if sort {
        let ordered = sort_keys(value);
        write_output(output, &ordered)
    } else {
        write_output(output, value)
    }
}

/// What the first `n` filters make of a value, one after the other.
pub open spec fn apply_all(filters: Seq<Filter>, v: ValueView, n: nat) -> ValueView
    decreases n,
{
    if n == 0 || n > filters.len() {
        v
    } else {
        filters[n - 1].apply_spec(apply_all(filters, v, (n - 1) as nat))
    }
}

/// A pipeline that is ready to run.
#[derive(Debug, PartialEq, Eq)]
pub struct Pipeline {
    pub parser: InputFormat,
    pub encoder: OutputFormat,
    pub sort_keys: bool,
    pub filters: Vec<Filter>,
}

impl Pipeline {
    /// What a run on the given input comes to.
    pub open spec fn run_spec(&self, bytes: Seq<u8>) -> Result<Seq<char>, Error> {
        match parse_as(self.parser, bytes) {
            Err(e) => Err(Error::Parse(e)),
            Ok(v) => match encode_as(
                self.encoder,
                self.sort_keys,
                apply_all(self.filters@, v, self.filters@.len()),
            ) {
                Err(e) => Err(Error::Encode(e)),
                Ok(text) => Ok(text),
            },
        }
    }

    /// Runs the pipeline on `input`: parses it, applies the filters in
    /// their order and encodes what they leave.
    pub fn run(&self, input: &[u8]) -> (r: Result<String, Error>)
        ensures
            match self.run_spec(input@) {
                Ok(text) => r matches Ok(s) && s@ == text,
                Err(e) => r == Err::<String, Error>(e),
            },
    {
        let parsed = match parse_input(self.parser, input) {
            Err(e) => {
                return Err(Error::Parse(e));
            },
            Ok(v) => v,
        };
        let ghost start = parsed@;
        let mut value = parsed;
        let mut i: usize = 0;
        while i < self.filters.len()
            invariant
                i <= self.filters.len(),
                value@ == apply_all(self.filters@, start, i as nat),
            decreases self.filters.len() - i,
        {
            match self.filters[i].apply(&value) {
                Ok(next) => {
                    value = next;
                },
                Err(_) => {
                    return Err(Error::FilterApply(FilterApplyError { filter: i }));
                },
            }
            i += 1;
        }
        match encode_output(self.encoder, self.sort_keys, &value) {
            Err(e) => Err(Error::Encode(e)),
            Ok(text) => Ok(text),
        }
    }
}

/// The parser of a builder.
#[derive(Debug, PartialEq, Eq)]
pub enum ParserChoice {
    /// None was chosen yet.
    Unset,
    /// This format.
    Fixed(InputFormat),
    /// The format that is found out from the sample, where there is one.
    Auto(Option<Vec<u8>>),
}

/// The configuration of a pipeline while it is put together.
#[derive(Debug, PartialEq, Eq)]
pub struct PipelineBuilder {
    pub parser: ParserChoice,
    pub encoder: Option<OutputFormat>,
    pub sort_keys: bool,
    pub filters: Vec<Filter>,
}

impl PipelineBuilder {
    /// A builder without parser, encoder and filters.
    pub fn new() -> (r: PipelineBuilder)
        ensures
            r.parser == ParserChoice::Unset,
            r.encoder == None::<OutputFormat>,
            !r.sort_keys,
            r.filters@.len() == 0,
    {
        PipelineBuilder {
            parser: ParserChoice::Unset,
            encoder: None,
            sort_keys: false,
            filters: Vec::new(),
        }
    }

    /// Chooses the parser of a format.
    pub fn with_parser(self, format: InputFormat) -> (r: PipelineBuilder)
        ensures
            r.parser == ParserChoice::Fixed(format),
            r.encoder == self.encoder,
            r.sort_keys == self.sort_keys,
            r.filters == self.filters,
    {
        PipelineBuilder {
            parser: ParserChoice::Fixed(format),
            encoder: self.encoder,
            sort_keys: self.sort_keys,
            filters: self.filters,
        }
    }

    /// Chooses the parser that is found out from the sample when the
    /// pipeline is built.
    pub fn with_auto_parser(self, sample: Option<&[u8]>) -> (r: PipelineBuilder)
        ensures
            match sample {
                Some(bytes) => r.parser matches ParserChoice::Auto(Some(kept)) && kept@ == bytes@,
                None => r.parser == ParserChoice::Auto(None),
            },
            r.encoder == self.encoder,
            r.sort_keys == self.sort_keys,
            r.filters == self.filters,
    {
        let kept = match sample {
            Some(bytes) => Some(vstd::slice::slice_to_vec(bytes)),
            None => None,
        };
        PipelineBuilder {
            parser: ParserChoice::Auto(kept),
            encoder: self.encoder,
            sort_keys: self.sort_keys,
            filters: self.filters,
        }
    }

    /// Chooses the encoder of a format.
    pub fn with_encoder(self, format: OutputFormat, sort_keys: bool) -> (r: PipelineBuilder)
        ensures
            r.parser == self.parser,
            r.encoder == Some(format),
            r.sort_keys == sort_keys,
            r.filters == self.filters,
    {
        PipelineBuilder {
            parser: self.parser,
            encoder: Some(format),
            sort_keys,
            filters: self.filters,
        }
    }

    /// Chooses the encoder of the format with the given name. A name that
    /// is none of the supported ones is refused, and no builder is left.
    pub fn with_format(self, name: &str, sort_keys: bool) -> (r: Result<PipelineBuilder, Error>)
        ensures
            match output_format_of(name@) {
                Some(format) => r matches Ok(b) && b.parser == self.parser && b.encoder == Some(
                    format,
                ) && b.sort_keys == sort_keys && b.filters == self.filters,
                None => r == Err::<PipelineBuilder, Error>(
                    Error::Config(ConfigError::UnsupportedOutputFormat),
                ),
            },
    {
        match parse_output_format(name) {
            Some(format) => Ok(self.with_encoder(format, sort_keys)),
            None => Err(Error::Config(ConfigError::UnsupportedOutputFormat)),
        }
    }

    /// Adds a filter behind the filters that were added before.
    pub fn add_filter(self, filter: Filter) -> (r: PipelineBuilder)
        ensures
            r.parser == self.parser,
            r.encoder == self.encoder,
            r.sort_keys == self.sort_keys,
            r.filters@ == self.filters@.push(filter),
    {
        let mut filters = self.filters;
        filters.push(filter);
        PipelineBuilder {
            parser: self.parser,
            encoder: self.encoder,
            sort_keys: self.sort_keys,
            filters,
        }
    }

    /// The parser that the pipeline will have, or why there is none.
    pub open spec fn parser_spec(&self) -> Result<InputFormat, Error> {
        match self.parser {
            ParserChoice::Unset => Err(Error::Config(ConfigError::MissingParser)),
            ParserChoice::Fixed(format) => Ok(format),
            ParserChoice::Auto(None) => Err(Error::Config(ConfigError::MissingParser)),
            ParserChoice::Auto(Some(sample)) => match detect_format(sample@) {
                Ok(format) => Ok(format),
                Err(e) => Err(Error::AutoDetect(e)),
            },
        }
    }

    /// Checks the configuration and makes the pipeline. Without an
    /// encoder, or without a parser or a sample to find one from, there
    /// is no pipeline; nor is there where no format is found for the
    /// sample.
    pub fn build(self) -> (r: Result<Pipeline, Error>)
        ensures
            match self.encoder {
                None => r == Err::<Pipeline, Error>(Error::Config(ConfigError::MissingEncoder)),
                Some(encoder) => match self.parser_spec() {
                    Err(e) => r == Err::<Pipeline, Error>(e),
                    Ok(parser) => r matches Ok(p) && p.parser == parser && p.encoder == encoder
                        && p.sort_keys == self.sort_keys && p.filters == self.filters,
                },
            },
    {
        let encoder = match self.encoder {
            None => {
                return Err(Error::Config(ConfigError::MissingEncoder));
            },
            Some(encoder) => encoder,
        };
        let parser = match self.parser {
            ParserChoice::Unset => {
                return Err(Error::Config(ConfigError::MissingParser));
            },
            ParserChoice::Fixed(format) => format,
            ParserChoice::Auto(None) => {
                return Err(Error::Config(ConfigError::MissingParser));
            },
            ParserChoice::Auto(Some(sample)) => match detect(sample.as_slice()) {
                Ok(format) => format,
                Err(e) => {
                    return Err(Error::AutoDetect(e));
                },
            },
        };
        Ok(Pipeline { parser, encoder, sort_keys: self.sort_keys, filters: self.filters })
    }
}

/// The value behind the depth filter, where one is asked for.
pub open spec fn limited(v: ValueView, max_depth: Option<i64>) -> ValueView {
    match max_depth {
        Some(d) => truncate(v, d as nat),
        None => v,
    }
}

/// The value behind the path filter, where one is asked for.
pub open spec fn selected(v: ValueView, path: Option<Seq<char>>) -> ValueView {
    match path {
        Some(p) => match parse_path(p) {
            Ok(segments) => extract(v, segments),
            Err(_) => v,
        },
        None => v,
    }
}

/// The filter error that the parameters give, if any: a depth below zero
/// first, then a malformed path.
pub open spec fn filter_fault(max_depth: Option<i64>, path: Option<Seq<char>>) -> Option<
    FilterConfigError,
> {
    if max_depth matches Some(d) && d < 0 {
        Some(FilterConfigError::NegativeDepth)
    } else {
        match path {
            Some(p) => match parse_path(p) {
                Err(failure) => Some(FilterConfigError::Path(path_error(p.len(), failure))),
                Ok(_) => None,
            },
            None => None,
        }
    }
}

/// What a conversion comes to. The parameters are checked in this order:
/// the name of the input format, the name of the output format, the depth,
/// the path. Only then the format is found out, where that is asked for,
/// and the input is read.
pub open spec fn convert_spec(
    input: Seq<u8>,
    format: Seq<char>,
    input_format: Seq<char>,
    max_depth: Option<i64>,
    sort_keys: bool,
    path: Option<Seq<char>>,
) -> Result<Seq<char>, Error> {
    match input_choice_of(input_format) {
        None => Err(Error::Config(ConfigError::UnsupportedInputFormat)),
        Some(choice) => match output_format_of(format) {
            None => Err(Error::Config(ConfigError::UnsupportedOutputFormat)),
            Some(output) => match filter_fault(max_depth, path) {
                Some(e) => Err(Error::FilterConfig(e)),
                None => {
                    let parser = match choice {
                        InputChoice::Fixed(f) => Ok(f),
                        InputChoice::Auto => detect_format(input),
                    };
                    match parser {
                        Err(e) => Err(Error::AutoDetect(e)),
                        Ok(f) => match parse_as(f, input) {
                            Err(e) => Err(Error::Parse(e)),
                            Ok(v) => match encode_as(
                                output,
                                sort_keys,
                                selected(limited(v, max_depth), path),
                            ) {
                                Err(e) => Err(Error::Encode(e)),
                                Ok(text) => Ok(text),
                            },
                        },
                    }
                },
            },
        },
    }
}

/// The view of an optional path expression.
pub open spec fn path_view(path: Option<&str>) -> Option<Seq<char>> {
    match path {
        Some(p) => Some(p@),
        None => None,
    }
}

/// Converts `input` to the format named `format`. `input_format` names
/// the format of the input, or is `auto`; `max_depth`, where given, cuts
/// the value at that depth; `path`, where given, takes out what the path
/// expression matches; `sort_keys` puts the keys of every object in
/// order.
pub fn convert(
    input: &[u8],
    format: &str,
    input_format: &str,
    max_depth: Option<i64>,
    sort_keys: bool,
    path: Option<&str>,
) -> (r: Result<String, Error>)
    ensures
        match convert_spec(input@, format@, input_format@, max_depth, sort_keys, path_view(path)) {
            Ok(text) => r matches Ok(s) && s@ == text,
            Err(e) => r == Err::<String, Error>(e),
        },
{
    let mut builder = PipelineBuilder::new();
    builder = match parse_input_choice(input_format) {
        None => {
            return Err(Error::Config(ConfigError::UnsupportedInputFormat));
        },
        Some(InputChoice::Fixed(f)) => builder.with_parser(f),
        Some(InputChoice::Auto) => builder.with_auto_parser(Some(input)),
    };
    builder = match builder.with_format(format, sort_keys) {
        Err(e) => {
            return Err(e);
        },
        Ok(b) => b,
    };
    if let Some(depth) = max_depth {
        match MaxDepthFilter::new(depth) {
            Err(e) => {
                return Err(Error::FilterConfig(e));
            },
            Ok(filter) => {
                builder = builder.add_filter(Filter::MaxDepth(filter));
            },
        }
    }
    let ghost middle = builder.filters@;
    if let Some(expression) = path {
        match IncludeFilter::new(expression) {
            Err(e) => {
                return Err(Error::FilterConfig(e));
            },
            Ok(filter) => {
                builder = builder.add_filter(Filter::Include(filter));
            },
        }
    }
    let ghost filters = builder.filters@;
    let pipeline = match builder.build() {
        Err(e) => {
            return Err(e);
        },
        Ok(p) => p,
    };
    proof {
        assert(pipeline.filters@ == filters);
        assert forall|v: ValueView|
            apply_all(filters, v, filters.len()) == selected(
                limited(v, max_depth),
                path_view(path),
            ) by {
            assert(apply_all(middle, v, middle.len()) == limited(v, max_depth)) by {
                if max_depth is Some {
                    assert(middle.len() == 1);
                    assert(apply_all(middle, v, 0) == v);
                }
            }
            if path is Some {
                let n = filters.len();
                assert(filters[n - 1] is Include);
                assert(apply_all(filters, v, (n - 1) as nat) == apply_all(middle, v, middle.len()))
                    by {
                    if max_depth is Some {
                        assert(filters[0] == middle[0]);
                        assert(apply_all(filters, v, 0) == v);
                    }
                }
            }
        }
    }
    pipeline.run(input)
}

} // verus!
