use llm_fmt::detect::{detect, InputFormat};
use llm_fmt::error::{
    AutoDetectError, ConfigError, EncodeFault, Error, FilterConfigError, Format, ParseError,
    ParseFault, Stage,
};
use llm_fmt::filters::max_depth::MaxDepthFilter;
use llm_fmt::filters::path::{PathError, PathFault};
use llm_fmt::filters::select::IncludeFilter;
use llm_fmt::pipeline::{
    convert, parse_input_choice, parse_output_format, Filter, InputChoice, OutputFormat,
    PipelineBuilder,
};

#[test]
fn auto_detection_goes_by_the_first_character() {
    assert_eq!(detect(b"{\"a\":1}"), Ok(InputFormat::Json));
    assert_eq!(detect(b"  \n[1]"), Ok(InputFormat::Json));
    assert_eq!(detect(b"<root><a/></root>"), Ok(InputFormat::Xml));
    assert_eq!(detect(b"\n <root>"), Ok(InputFormat::Xml));
}

#[test]
fn auto_detection_tries_yaml_and_then_tables() {
    assert_eq!(detect(b"a: 1\nb:\n  - x\n"), Ok(InputFormat::Yaml));
    assert_eq!(detect(b"just text"), Ok(InputFormat::Yaml));
    assert_eq!(detect(b"name,age\nA,1\nB,2\n"), Ok(InputFormat::Csv));
    assert_eq!(detect(b"name\tage\nA\t1\n"), Ok(InputFormat::Tsv));
}

#[test]
fn auto_detection_reports_every_failed_attempt() {
    assert_eq!(
        detect(b"one\ntwo\n"),
        Err(AutoDetectError {
            yaml: ParseError { format: Format::Yaml, position: 4, fault: ParseFault::Indentation },
            table: ParseError { format: Format::Csv, position: 0, fault: ParseFault::NoDelimiter },
        })
    );
    assert_eq!(
        detect(b"a,b\n1\n"),
        Err(AutoDetectError {
            yaml: ParseError { format: Format::Yaml, position: 4, fault: ParseFault::Indentation },
            table: ParseError { format: Format::Csv, position: 4, fault: ParseFault::FieldCount },
        })
    );
    assert_eq!(
        detect(&[0x61, 0xff]),
        Err(AutoDetectError {
            yaml: ParseError { format: Format::Yaml, position: 0, fault: ParseFault::InvalidUtf8 },
            table: ParseError { format: Format::Csv, position: 0, fault: ParseFault::InvalidUtf8 },
        })
    );
}

#[test]
fn format_names_are_recognised() {
    assert_eq!(parse_output_format("toon"), Some(OutputFormat::Toon));
    assert_eq!(parse_output_format("json"), Some(OutputFormat::Json));
    assert_eq!(parse_output_format("yaml"), Some(OutputFormat::Yaml));
    assert_eq!(parse_output_format("YAML"), None);
    assert_eq!(parse_output_format("yml"), None);
    assert_eq!(parse_output_format("tsv"), Some(OutputFormat::Tsv));
    assert_eq!(parse_output_format("csv"), Some(OutputFormat::Csv));
    assert_eq!(parse_output_format("protobuf"), None);
    assert_eq!(parse_output_format(""), None);
    assert_eq!(parse_input_choice("Json"), Some(InputChoice::Fixed(InputFormat::Json)));
    assert_eq!(parse_input_choice("yml"), Some(InputChoice::Fixed(InputFormat::Yaml)));
    assert_eq!(parse_input_choice("xml"), Some(InputChoice::Fixed(InputFormat::Xml)));
    assert_eq!(parse_input_choice("csv"), Some(InputChoice::Fixed(InputFormat::Csv)));
    assert_eq!(parse_input_choice("tsv"), Some(InputChoice::Fixed(InputFormat::Tsv)));
    assert_eq!(parse_input_choice("auto"), Some(InputChoice::Auto));
    assert_eq!(parse_input_choice("toon"), None);
}

#[test]
fn key_ordering() {
    let input = b"{\"b\":1,\"a\":2}";
    assert_eq!(convert(input, "json", "json", None, false, None).unwrap(), "{\"b\":1,\"a\":2}");
    assert_eq!(convert(input, "json", "json", None, true, None).unwrap(), "{\"a\":2,\"b\":1}");
}

#[test]
fn unsupported_output_format_is_a_config_error() {
    let r = convert(b"this is { not parsed", "protobuf", "json", None, false, None);
    assert_eq!(r, Err(Error::Config(ConfigError::UnsupportedOutputFormat)));
    assert_eq!(r.unwrap_err().stage(), Stage::Configure);
    let built = PipelineBuilder::new().with_parser(InputFormat::Json).with_format("protobuf", false);
    assert_eq!(built.map(|_| ()), Err(Error::Config(ConfigError::UnsupportedOutputFormat)));
}

#[test]
fn unsupported_input_format_is_a_config_error() {
    assert_eq!(
        convert(b"{}", "json", "ini", None, false, None),
        Err(Error::Config(ConfigError::UnsupportedInputFormat))
    );
    assert_eq!(
        convert(b"{}", "protobuf", "ini", Some(-1), false, Some("[")),
        Err(Error::Config(ConfigError::UnsupportedInputFormat))
    );
}

#[test]
fn a_builder_without_parser_or_encoder_builds_nothing() {
    assert_eq!(
        PipelineBuilder::new().build().map(|_| ()),
        Err(Error::Config(ConfigError::MissingEncoder))
    );
    assert_eq!(
        PipelineBuilder::new().with_encoder(OutputFormat::Json, false).build().map(|_| ()),
        Err(Error::Config(ConfigError::MissingParser))
    );
    assert_eq!(
        PipelineBuilder::new()
            .with_auto_parser(None)
            .with_encoder(OutputFormat::Json, false)
            .build()
            .map(|_| ()),
        Err(Error::Config(ConfigError::MissingParser))
    );
    assert_eq!(
        PipelineBuilder::new().with_parser(InputFormat::Json).build().map(|_| ()),
        Err(Error::Config(ConfigError::MissingEncoder))
    );
    assert!(PipelineBuilder::new()
        .with_auto_parser(Some(b"{}"))
        .with_encoder(OutputFormat::Json, false)
        .build()
        .is_ok());
}

#[test]
fn negative_depth_stops_the_conversion_before_anything_is_read() {
    let r = convert(b"not json at all {", "json", "json", Some(-1), false, None);
    assert_eq!(r, Err(Error::FilterConfig(FilterConfigError::NegativeDepth)));
    assert_eq!(r.unwrap_err().stage(), Stage::Configure);
}

#[test]
fn malformed_path_stops_the_conversion_before_anything_is_read() {
    assert_eq!(
        convert(b"not json at all {", "json", "json", None, false, Some("a[")),
        Err(Error::FilterConfig(FilterConfigError::Path(PathError {
            position: 2,
            fault: PathFault::InvalidIndex
        })))
    );
}

#[test]
fn a_run_stops_at_the_first_failing_stage() {
    let r = convert(b"{\"a\":", "json", "json", None, false, None);
    assert_eq!(
        r,
        Err(Error::Parse(ParseError {
            format: Format::Json,
            position: 5,
            fault: ParseFault::UnexpectedEnd
        }))
    );
    assert_eq!(r.unwrap_err().stage(), Stage::Parse);
    let r = convert(b"{\"a\":1}", "tsv", "json", None, false, None);
    assert_eq!(r.clone().map_err(|e| e.stage()), Err(Stage::Encode));
    match r {
        Err(Error::Encode(e)) => {
            assert_eq!(e.format, Format::Tsv);
            assert_eq!(e.fault, EncodeFault::NotTabular);
        }
        other => panic!("unexpected result {:?}", other),
    }
    let r = convert(b"one\ntwo", "json", "auto", None, false, None);
    assert_eq!(r.map_err(|e| e.stage()), Err(Stage::Detect));
}

#[test]
fn filters_run_in_the_order_depth_then_path() {
    let input = b"{\"users\":[{\"name\":\"A\",\"tags\":[1]},{\"name\":\"B\",\"tags\":[2]}]}";
    assert_eq!(
        convert(input, "json", "auto", None, false, Some("users[*].name")).unwrap(),
        "[\"A\",\"B\"]"
    );
    assert_eq!(
        convert(input, "json", "json", Some(1), false, Some("users[*]")).unwrap(),
        "[\"{...}\",\"{...}\"]"
    );
    assert_eq!(
        convert(input, "json", "json", Some(2), false, Some("users[*].tags")).unwrap(),
        "[\"[...]\",\"[...]\"]"
    );
    assert_eq!(
        convert(input, "json", "json", Some(0), false, None).unwrap(),
        "{\"users\":\"[...]\"}"
    );
}

#[test]
fn a_pipeline_can_be_run_many_times() {
    let pipeline = PipelineBuilder::new()
        .with_parser(InputFormat::Json)
        .with_format("toon", false)
        .unwrap()
        .add_filter(Filter::MaxDepth(MaxDepthFilter::new(1).unwrap()))
        .add_filter(Filter::Include(IncludeFilter::new("a").unwrap()))
        .build()
        .unwrap();
    assert_eq!(pipeline.run(b"{\"a\":{\"b\":[1]}}").unwrap(), "b: \"[...]\"\n");
    assert_eq!(pipeline.run(b"{\"a\":[1,2]}").unwrap(), "[2]: 1,2\n");
    assert_eq!(pipeline.run(b"{\"a\":{\"b\":[1]}}").unwrap(), "b: \"[...]\"\n");
    assert!(pipeline.run(b"{").is_err());
    assert_eq!(pipeline.run(b"{\"a\":5}").unwrap(), "5\n");
}

#[test]
fn conversions_between_formats() {
    let csv = b"name,age\nA,1\nB,2\n";
    assert_eq!(
        convert(csv, "json", "auto", None, false, None).unwrap(),
        "[{\"name\":\"A\",\"age\":1},{\"name\":\"B\",\"age\":2}]"
    );
    assert_eq!(
        convert(csv, "toon", "csv", None, false, None).unwrap(),
        "[2]{name,age}:\n  A,1\n  B,2\n"
    );
    assert_eq!(convert(csv, "tsv", "csv", None, true, None).unwrap(), "age\tname\n1\tA\n2\tB\n");
    assert_eq!(
        convert(csv, "yaml", "CSV", None, false, None).unwrap(),
        "-\n  name: A\n  age: 1\n-\n  name: B\n  age: 2\n"
    );
    assert_eq!(
        convert(b"<r><i>1</i><i>2</i></r>", "json", "auto", None, false, None).unwrap(),
        "{\"r\":{\"i\":[\"1\",\"2\"]}}"
    );
    assert_eq!(
        convert(b"a:\n  b: [1, 2]\n", "json", "auto", None, false, None).unwrap(),
        "{\"a\":{\"b\":[1,2]}}"
    );
    assert_eq!(
        convert(b"a:\n  b: [1, 2]\n", "csv", "yaml", None, false, Some("a.b")).map_err(|e| e.stage()),
        Err(Stage::Encode)
    );
}

#[test]
fn a_conversion_to_the_same_format_is_converted_to_itself() {
    let cases: [(&str, &[u8]); 5] = [
        ("json", b" { \"b\" : [ 1 , 2.50 , \"x\" ] , \"a\" : null , \"b\" : {} } "),
        ("yaml", b"users:\n  - name: A\n    tags: [1, [2, {\"k\": []}]]\n  - \"B: x\"\nn: 1.0\n"),
        ("yaml", b"[[[1]], {\"a\": {\"b\": [2]}}]"),
        ("tsv", b"name\tage\tname\nA\t1\tB\n\"x\ty\"\t\ttrue\n"),
        ("tsv", b""),
    ];
    for (format, input) in cases {
        let first = convert(input, format, format, None, false, None).unwrap();
        assert_eq!(convert(first.as_bytes(), format, format, None, false, None), Ok(first));
    }
}

#[test]
fn yaml_counts_one_line_arrays_like_blocks() {
    let nested = |n: usize| format!("- {}1{}\n", "[".repeat(n), "]".repeat(n));
    let too_deep = convert(nested(128).as_bytes(), "yaml", "yaml", None, false, None);
    match too_deep {
        Err(Error::Parse(e)) => {
            assert_eq!(e.format, Format::Yaml);
            assert_eq!(e.fault, ParseFault::TooDeep);
        }
        other => panic!("unexpected result {:?}", other),
    }
    let fine = convert(nested(127).as_bytes(), "yaml", "yaml", None, false, None).unwrap();
    assert_eq!(convert(fine.as_bytes(), "yaml", "yaml", None, false, None), Ok(fine.clone()));
    assert_eq!(
        convert(fine.as_bytes(), "json", "yaml", None, false, None).unwrap(),
        format!("{}1{}", "[".repeat(128), "]".repeat(128))
    );
    let flat = format!("{}1{}", "[".repeat(128), "]".repeat(128));
    assert!(convert(flat.as_bytes(), "yaml", "yaml", None, false, None).is_ok());
    let deeper = format!("{}1{}", "[".repeat(129), "]".repeat(129));
    assert_eq!(
        convert(deeper.as_bytes(), "yaml", "yaml", None, false, None).map_err(|e| e.stage()),
        Err(Stage::Parse)
    );
}
