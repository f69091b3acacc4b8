use llm_fmt::error::{EncodeError, EncodeFault, Format, ParseError, ParseFault};
use llm_fmt::json::read::parse;
use llm_fmt::json::write::to_text;
use llm_fmt::value::{Number, Value};

fn obj(entries: Vec<(&str, Value)>) -> Value {
    Value::Object(entries.into_iter().map(|(k, v)| (k.to_string(), v)).collect())
}

fn text(s: &str) -> Value {
    Value::String(s.to_string())
}

fn num(i: i64) -> Value {
    Value::Number(Number::Int(i))
}

fn fault_at(position: usize, fault: ParseFault) -> Result<Value, ParseError> {
    Err(ParseError { format: Format::Json, position, fault })
}

#[test]
fn parses_scalars() {
    assert_eq!(parse(b"null"), Ok(Value::Null));
    assert_eq!(parse(b" true "), Ok(Value::Bool(true)));
    assert_eq!(parse(b"false"), Ok(Value::Bool(false)));
    assert_eq!(parse(b"42"), Ok(num(42)));
    assert_eq!(parse(b"-7"), Ok(num(-7)));
    assert_eq!(parse(b"\"a\\nb\""), Ok(text("a\nb")));
}

#[test]
fn keeps_the_way_a_number_was_written() {
    assert_eq!(parse(b"1"), Ok(num(1)));
    assert_eq!(parse(b"1.0"), Ok(Value::Number(Number::Literal("1.0".to_string()))));
    assert_eq!(parse(b"1e3"), Ok(Value::Number(Number::Literal("1e3".to_string()))));
    assert_eq!(to_text(&parse(b"1.0").unwrap()).unwrap(), "1.0");
    assert_eq!(to_text(&parse(b"1").unwrap()).unwrap(), "1");
}

#[test]
fn integers_at_the_edge_of_64_bits() {
    assert_eq!(parse(b"9223372036854775807"), Ok(num(i64::MAX)));
    assert_eq!(parse(b"-9223372036854775808"), Ok(num(i64::MIN)));
    assert_eq!(
        parse(b"9223372036854775808"),
        Ok(Value::Number(Number::Literal("9223372036854775808".to_string())))
    );
    assert_eq!(to_text(&num(i64::MIN)).unwrap(), "-9223372036854775808");
    assert_eq!(to_text(&num(0)).unwrap(), "0");
    assert_eq!(to_text(&num(1234567890)).unwrap(), "1234567890");
}

#[test]
fn parses_nested_document() {
    let parsed = parse(b"{\"users\":[{\"name\":\"A\"},{\"name\":\"B\"}]}").unwrap();
    let expected = obj(vec![(
        "users",
        Value::Array(vec![obj(vec![("name", text("A"))]), obj(vec![("name", text("B"))])]),
    )]);
    assert_eq!(parsed, expected);
}

#[test]
fn parses_whitespace_and_empty_containers() {
    assert_eq!(parse(b" [ ] "), Ok(Value::Array(vec![])));
    assert_eq!(parse(b"{ }"), Ok(Value::Object(vec![])));
    assert_eq!(
        parse(b"{ \"a\" : [ 1 , 2 ] }\n"),
        Ok(obj(vec![("a", Value::Array(vec![num(1), num(2)]))]))
    );
}

#[test]
fn last_duplicate_key_wins_at_the_place_of_the_first() {
    assert_eq!(
        parse(b"{\"a\":1,\"b\":2,\"a\":3}"),
        Ok(obj(vec![("a", num(3)), ("b", num(2))]))
    );
}

#[test]
fn reads_escapes() {
    assert_eq!(parse(b"\"\\u0041\\t\\\"\\\\\\/\""), Ok(text("A\t\"\\/")));
    assert_eq!(parse(b"\"\\ud83d\\ude00\""), Ok(text("\u{1F600}")));
    assert_eq!(parse("\"\u{e9}\"".as_bytes()), Ok(text("\u{e9}")));
}

#[test]
fn writes_escapes() {
    assert_eq!(to_text(&text("a\"b\\c\nd\te\u{1}")).unwrap(), "\"a\\\"b\\\\c\\nd\\te\\u0001\"");
    assert_eq!(to_text(&text("caf\u{e9}")).unwrap(), "\"caf\u{e9}\"");
}

#[test]
fn writes_what_it_reads() {
    let source = "{\"b\":1,\"a\":[true,null,\"x\\\"y\",2.50e3],\"c\":{}}";
    let value = parse(source.as_bytes()).unwrap();
    assert_eq!(to_text(&value).unwrap(), source);
}

#[test]
fn reads_what_it_writes() {
    let value = obj(vec![
        ("name", text("line\nbreak \u{7} \u{1F600}")),
        ("n", num(-12)),
        ("x", Value::Number(Number::Literal("0.5".to_string()))),
        ("list", Value::Array(vec![Value::Null, Value::Bool(false), Value::Array(vec![])])),
        ("", obj(vec![("k", Value::Object(vec![]))])),
    ]);
    let written = to_text(&value).unwrap();
    assert_eq!(parse(written.as_bytes()), Ok(value));
}

#[test]
fn reports_faults_with_their_place() {
    assert_eq!(parse(b""), fault_at(0, ParseFault::UnexpectedEnd));
    assert_eq!(parse(b"  "), fault_at(2, ParseFault::UnexpectedEnd));
    assert_eq!(parse(b"nul"), fault_at(0, ParseFault::InvalidLiteral));
    assert_eq!(parse(b"[1,]"), fault_at(3, ParseFault::UnexpectedChar));
    assert_eq!(parse(b"[1 2]"), fault_at(3, ParseFault::UnexpectedChar));
    assert_eq!(parse(b"{\"a\" 1}"), fault_at(5, ParseFault::UnexpectedChar));
    assert_eq!(parse(b"{a:1}"), fault_at(1, ParseFault::UnexpectedChar));
    assert_eq!(parse(b"\"abc"), fault_at(4, ParseFault::UnterminatedString));
    assert_eq!(parse(b"\"a\\x\""), fault_at(2, ParseFault::InvalidEscape));
    assert_eq!(parse(b"\"a\nb\""), fault_at(2, ParseFault::ControlCharacter));
    assert_eq!(parse(b"01"), fault_at(0, ParseFault::InvalidNumber));
    assert_eq!(parse(b"-"), fault_at(0, ParseFault::InvalidNumber));
    assert_eq!(parse(b"1."), fault_at(0, ParseFault::InvalidNumber));
    assert_eq!(parse(b"1 2"), fault_at(2, ParseFault::TrailingCharacters));
    assert_eq!(parse(b"[1"), fault_at(2, ParseFault::UnexpectedEnd));
    assert_eq!(parse(b"\"\\ud83d\""), fault_at(1, ParseFault::InvalidEscape));
}

#[test]
fn refuses_bytes_that_are_no_utf8() {
    assert_eq!(parse(&[0x22, 0xff, 0x22]), fault_at(0, ParseFault::InvalidUtf8));
    assert_eq!(parse(&[0xc3]), fault_at(0, ParseFault::InvalidUtf8));
}

#[test]
fn refuses_nesting_beyond_the_limit() {
    let deep = "[".repeat(129) + &"]".repeat(129);
    assert_eq!(parse(deep.as_bytes()), fault_at(128, ParseFault::TooDeep));
    let fine = "[".repeat(128) + &"]".repeat(128);
    assert!(parse(fine.as_bytes()).is_ok());
}

#[test]
fn refuses_a_number_that_is_no_literal() {
    let broken = Value::Array(vec![Value::Number(Number::Literal("12abc".to_string()))]);
    assert_eq!(
        to_text(&broken),
        Err(EncodeError { format: Format::Json, fault: EncodeFault::InvalidNumber })
    );
}

#[test]
fn number_parse_tells_integers_from_other_literals() {
    assert_eq!(Number::parse("15"), Some(Number::Int(15)));
    assert_eq!(Number::parse("-0"), Some(Number::Int(0)));
    assert_eq!(Number::parse("1.5E+3"), Some(Number::Literal("1.5E+3".to_string())));
    assert_eq!(Number::parse("1.5E"), None);
    assert_eq!(Number::parse(""), None);
    assert_eq!(Number::parse("+1"), None);
    assert_eq!(Number::parse("0x10"), None);
}
