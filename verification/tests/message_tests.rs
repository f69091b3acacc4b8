use llm_fmt::error::{
    AutoDetectError, ConfigError, EncodeError, EncodeFault, Error, FilterApplyError,
    FilterConfigError, Format, ParseError, ParseFault, Stage,
};
use llm_fmt::filters::path::{PathError, PathFault};

#[test]
fn messages_name_the_place_and_the_fault() {
    let parse = ParseError { format: Format::Json, position: 17, fault: ParseFault::UnexpectedChar };
    assert_eq!(
        Error::Parse(parse).message(),
        "JSON input is malformed at character 17: unexpected character"
    );
    assert_eq!(
        Error::FilterConfig(FilterConfigError::Path(PathError {
            position: 0,
            fault: PathFault::Empty
        }))
        .message(),
        "the path is malformed at character 0: the expression is empty"
    );
    assert_eq!(
        Error::Encode(EncodeError { format: Format::Tsv, fault: EncodeFault::NotTabular }).message(),
        "the value cannot be written as TSV: it is no array of flat objects with the same keys"
    );
    assert_eq!(Error::Config(ConfigError::UnsupportedOutputFormat).message(), "unsupported output format");
    assert_eq!(Error::FilterApply(FilterApplyError { filter: 3 }).message(), "a filter failed, number 3");
}

#[test]
fn detection_failures_carry_both_attempts() {
    let e = Error::AutoDetect(AutoDetectError {
        yaml: ParseError { format: Format::Yaml, position: 4, fault: ParseFault::Indentation },
        table: ParseError { format: Format::Csv, position: 0, fault: ParseFault::NoDelimiter },
    });
    assert_eq!(
        e.message(),
        "no format fits the input; YAML input is malformed at character 4: a line fits no block; CSV input is malformed at character 0: the first line holds no delimiter"
    );
    assert_eq!(e.stage(), Stage::Detect);
}

#[test]
fn every_error_has_its_stage() {
    assert_eq!(Error::Config(ConfigError::MissingParser).stage(), Stage::Configure);
    assert_eq!(Error::FilterConfig(FilterConfigError::NegativeDepth).stage(), Stage::Configure);
    assert_eq!(
        Error::Parse(ParseError { format: Format::Xml, position: 0, fault: ParseFault::TooDeep }).stage(),
        Stage::Parse
    );
    assert_eq!(Error::FilterApply(FilterApplyError { filter: 0 }).stage(), Stage::Filter);
    assert_eq!(
        Error::Encode(EncodeError { format: Format::Json, fault: EncodeFault::InvalidNumber }).stage(),
        Stage::Encode
    );
}
