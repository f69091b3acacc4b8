use llm_fmt::delimited::syntax::Delimiter;
use llm_fmt::error::{EncodeError, EncodeFault, Format, ParseError, ParseFault};
use llm_fmt::value::{Number, Value};
use llm_fmt::{delimited, json, toon, xml, yaml};

fn obj(entries: Vec<(&str, Value)>) -> Value {
    Value::Object(entries.into_iter().map(|(k, v)| (k.to_string(), v)).collect())
}

fn text(s: &str) -> Value {
    Value::String(s.to_string())
}

fn num(i: i64) -> Value {
    Value::Number(Number::Int(i))
}

fn json_value(s: &str) -> Value {
    json::read::parse(s.as_bytes()).unwrap()
}

#[test]
fn csv_rows_become_objects_under_the_header() {
    let parsed = delimited::read::parse(b"name,age,ok\nA,1,true\nB,,false\n", Delimiter::Comma);
    assert_eq!(
        parsed,
        Ok(Value::Array(vec![
            obj(vec![("name", text("A")), ("age", num(1)), ("ok", Value::Bool(true))]),
            obj(vec![("name", text("B")), ("age", Value::Null), ("ok", Value::Bool(false))]),
        ]))
    );
}

#[test]
fn csv_quotes_hold_delimiters_quotes_and_line_feeds() {
    let parsed =
        delimited::read::parse(b"a,b\r\n\"x,1\",\"say \"\"hi\"\"\"\r\n\"1\",\"l1\nl2\"", Delimiter::Comma);
    assert_eq!(
        parsed,
        Ok(Value::Array(vec![
            obj(vec![("a", text("x,1")), ("b", text("say \"hi\""))]),
            obj(vec![("a", text("1")), ("b", text("l1\nl2"))]),
        ]))
    );
}

#[test]
fn tsv_splits_on_tabs_only() {
    let parsed = delimited::read::parse(b"a\tb\n1,5\tx y\n", Delimiter::Tab);
    assert_eq!(
        parsed,
        Ok(Value::Array(vec![obj(vec![("a", text("1,5")), ("b", text("x y"))])]))
    );
}

#[test]
fn delimited_edge_cases() {
    assert_eq!(delimited::read::parse(b"", Delimiter::Comma), Ok(Value::Array(vec![])));
    assert_eq!(delimited::read::parse(b"a,b\n", Delimiter::Comma), Ok(Value::Array(vec![])));
    assert_eq!(
        delimited::read::parse(b"a\n\n1\n", Delimiter::Comma),
        Ok(Value::Array(vec![obj(vec![("a", Value::Null)]), obj(vec![("a", num(1))])]))
    );
    assert_eq!(
        delimited::read::parse(b"a,b,a\n1,2,3\n", Delimiter::Comma),
        Ok(Value::Array(vec![obj(vec![("a", num(3)), ("b", num(2))])]))
    );
}

#[test]
fn delimited_faults() {
    let err = |format, position, fault| Err::<Value, _>(ParseError { format, position, fault });
    assert_eq!(
        delimited::read::parse(b"a,b\n1\n", Delimiter::Comma),
        err(Format::Csv, 4, ParseFault::FieldCount)
    );
    assert_eq!(
        delimited::read::parse(b"a\tb\n1\t2\t3\n", Delimiter::Tab),
        err(Format::Tsv, 4, ParseFault::FieldCount)
    );
    assert_eq!(
        delimited::read::parse(b"a\n\"x", Delimiter::Comma),
        err(Format::Csv, 4, ParseFault::UnterminatedString)
    );
    assert_eq!(
        delimited::read::parse(b"a\n\"x\"y\n", Delimiter::Comma),
        err(Format::Csv, 5, ParseFault::UnexpectedChar)
    );
    assert_eq!(
        delimited::read::parse(b"a\rb\n", Delimiter::Comma),
        err(Format::Csv, 1, ParseFault::UnexpectedChar)
    );
    assert_eq!(
        delimited::read::parse(&[0x61, 0xff], Delimiter::Tab),
        err(Format::Tsv, 0, ParseFault::InvalidUtf8)
    );
}

#[test]
fn tsv_is_written_with_a_header_and_one_line_for_each_row() {
    let v = json_value("[{\"name\":\"A\",\"n\":1,\"x\":null},{\"name\":\"B C\",\"n\":2.5,\"x\":true}]");
    assert_eq!(
        delimited::write::to_text(&v, Delimiter::Tab).unwrap(),
        "name\tn\tx\nA\t1\t\nB C\t2.5\ttrue\n"
    );
}

#[test]
fn fields_are_quoted_where_a_reader_would_take_them_otherwise() {
    let v = Value::Array(vec![obj(vec![
        ("a,b", text("1")),
        ("c", text("true")),
        ("d", text("")),
        ("e", text("x\"y")),
        ("f", text("l1\nl2")),
        ("g", text("t\tab")),
    ])]);
    assert_eq!(
        delimited::write::to_text(&v, Delimiter::Comma).unwrap(),
        "\"a,b\",c,d,e,f,g\n\"1\",\"true\",\"\",\"x\"\"y\",\"l1\nl2\",t\tab\n"
    );
    assert_eq!(
        delimited::write::to_text(&v, Delimiter::Tab).unwrap(),
        "a,b\tc\td\te\tf\tg\n\"1\"\t\"true\"\t\"\"\t\"x\"\"y\"\t\"l1\nl2\"\t\"t\tab\"\n"
    );
}

#[test]
fn tables_are_read_back_as_they_were_written() {
    let v = Value::Array(vec![
        obj(vec![("k", text("a,b")), ("n", num(-5)), ("s", text("07")), ("z", Value::Null)]),
        obj(vec![("k", text("")), ("n", Value::Bool(true)), ("s", text(" x ")), ("z", text("\"q\""))]),
        obj(vec![("k", text("false")), ("n", text("1e5")), ("s", text("a\r\nb")), ("z", text("\t"))]),
    ]);
    for d in [Delimiter::Comma, Delimiter::Tab] {
        let written = delimited::write::to_text(&v, d).unwrap();
        assert_eq!(delimited::read::parse(written.as_bytes(), d), Ok(v.clone()));
    }
    let empty = Value::Array(vec![]);
    assert_eq!(delimited::write::to_text(&empty, Delimiter::Tab).unwrap(), "");
    assert_eq!(delimited::read::parse(b"", Delimiter::Tab), Ok(empty));
}

#[test]
fn values_that_are_no_table_cannot_be_written_as_one() {
    let not_tabular = |format| Err::<String, _>(EncodeError { format, fault: EncodeFault::NotTabular });
    assert_eq!(delimited::write::to_text(&num(1), Delimiter::Tab), not_tabular(Format::Tsv));
    assert_eq!(
        delimited::write::to_text(&json_value("{\"a\":1}"), Delimiter::Comma),
        not_tabular(Format::Csv)
    );
    assert_eq!(
        delimited::write::to_text(&json_value("[{\"a\":1},{\"b\":1}]"), Delimiter::Tab),
        not_tabular(Format::Tsv)
    );
    assert_eq!(
        delimited::write::to_text(&json_value("[{\"a\":[1]}]"), Delimiter::Tab),
        not_tabular(Format::Tsv)
    );
    assert_eq!(
        delimited::write::to_text(&json_value("[{}]"), Delimiter::Tab),
        not_tabular(Format::Tsv)
    );
    assert_eq!(
        delimited::write::to_text(
            &Value::Array(vec![obj(vec![("a", Value::Number(Number::Literal("x".to_string())))])]),
            Delimiter::Tab
        ),
        Err(EncodeError { format: Format::Tsv, fault: EncodeFault::InvalidNumber })
    );
}

#[test]
fn yaml_blocks_are_read() {
    let source = "# people\nusers:\n  - name: A\n    tags: [1, 2]\n  - name: \"B: x\"\n    age: 3\n\nempty:\nlist:\n- 1\n- two\n-\n  - nested\ncount: 2.5\n";
    let expected = json_value(
        "{\"users\":[{\"name\":\"A\",\"tags\":[1,2]},{\"name\":\"B: x\",\"age\":3}],\"empty\":null,\"list\":[1,\"two\",[\"nested\"]],\"count\":2.5}",
    );
    assert_eq!(yaml::read::parse(source.as_bytes()), Ok(expected));
}

#[test]
fn yaml_scalars_are_read() {
    assert_eq!(yaml::read::parse(b""), Ok(Value::Null));
    assert_eq!(yaml::read::parse(b"\n  \n# only a comment\n"), Ok(Value::Null));
    assert_eq!(yaml::read::parse(b"hello world"), Ok(text("hello world")));
    assert_eq!(yaml::read::parse(b"~"), Ok(Value::Null));
    assert_eq!(yaml::read::parse(b"null"), Ok(Value::Null));
    assert_eq!(yaml::read::parse(b"true\n"), Ok(Value::Bool(true)));
    assert_eq!(yaml::read::parse(b"-12"), Ok(num(-12)));
    assert_eq!(yaml::read::parse(b"\"a\\tb\"  \n"), Ok(text("a\tb")));
    assert_eq!(yaml::read::parse(b"{\"a\": [1, {}]}"), Ok(json_value("{\"a\":[1,{}]}")));
    assert_eq!(yaml::read::parse(b"http://example.com/x"), Ok(text("http://example.com/x")));
    assert_eq!(yaml::read::parse(b"\"k\": v"), Ok(obj(vec![("k", text("v"))])));
}

#[test]
fn yaml_faults() {
    let err = |position, fault| Err::<Value, _>(ParseError { format: Format::Yaml, position, fault });
    assert_eq!(yaml::read::parse(b"a,b\n1,2\n"), err(4, ParseFault::Indentation));
    assert_eq!(yaml::read::parse(b"a: 1\n   b: 2\n"), err(8, ParseFault::Indentation));
    assert_eq!(yaml::read::parse(b"a: b: c\n"), err(0, ParseFault::UnexpectedChar));
    assert_eq!(yaml::read::parse(b"k: \"open\n"), err(0, ParseFault::UnterminatedString));
    assert_eq!(yaml::read::parse(b"a: [1, 2\n"), err(0, ParseFault::UnexpectedEnd));
    assert_eq!(yaml::read::parse(b"a: [1] x\n"), err(0, ParseFault::TrailingCharacters));
    assert_eq!(yaml::read::parse(b"a: 1\nb: 'x'\n"), err(5, ParseFault::UnexpectedChar));
    assert_eq!(yaml::read::parse(b"text: |\n  line\n"), err(0, ParseFault::UnexpectedChar));
    assert_eq!(yaml::read::parse(b"- &a 1\n- *a\n"), err(0, ParseFault::UnexpectedChar));
    assert_eq!(yaml::read::parse(&[0x61, 0x3a, 0x20, 0xfe]), err(0, ParseFault::InvalidUtf8));
}

#[test]
fn yaml_is_written_in_block_style() {
    let v = json_value(
        "{\"users\":[{\"name\":\"A\",\"tags\":[]},{\"name\":\"B: x\",\"n\":{}}],\"t\":\"true\",\"k k\":null,\"list\":[1,[2,\"x y\"]]}",
    );
    assert_eq!(
        yaml::write::to_text(&v).unwrap(),
        "users:\n  -\n    name: A\n    tags: []\n  -\n    name: \"B: x\"\n    n: {}\nt: \"true\"\nk k: null\nlist:\n  - 1\n  -\n    - 2\n    - x y\n"
    );
    assert_eq!(yaml::write::to_text(&num(5)).unwrap(), "5\n");
    assert_eq!(yaml::write::to_text(&Value::Array(vec![])).unwrap(), "[]\n");
}

#[test]
fn yaml_is_read_back_as_it_was_written() {
    let v = json_value(
        "{\"users\":[{\"name\":\"A\",\"tags\":[]},{\"name\":\"B: x\",\"n\":{}}],\"t\":\"true\",\"k k\":null,\"\":\"-\",\"list\":[1,[2,\"x y\",\" lead\",\"# no\",\"a\\nb\"],-0.5,\"12\",\"~\",\"null\"],\"q\":{\"r\":{\"s\":[[[]]]}}}",
    );
    let written = yaml::write::to_text(&v).unwrap();
    assert_eq!(yaml::read::parse(written.as_bytes()), Ok(v));
    for scalar in ["null", "true", "17", "\"x\"", "\"\"", "\"- a\"", "\"a: b\"", "[]", "{}"] {
        let value = json_value(scalar);
        let written = yaml::write::to_text(&value).unwrap();
        assert_eq!(yaml::read::parse(written.as_bytes()), Ok(value));
    }
}

#[test]
fn xml_elements_become_entries() {
    let source = "<?xml version=\"1.0\"?>\n<!-- list -->\n<root id=\"7\">\n  <user name='A'>first &amp; <b>bold</b></user>\n  <user>B</user>\n  <empty/>\n  <n> 12 </n>\n</root>\n";
    let expected = obj(vec![(
        "root",
        obj(vec![
            ("@id", text("7")),
            (
                "user",
                Value::Array(vec![
                    obj(vec![("@name", text("A")), ("b", text("bold")), ("#text", text("first &"))]),
                    text("B"),
                ]),
            ),
            ("empty", Value::Null),
            ("n", text("12")),
        ]),
    )]);
    assert_eq!(xml::read::parse(source.as_bytes()), Ok(expected));
}

#[test]
fn xml_repeated_names_hold_arrays() {
    assert_eq!(
        xml::read::parse(b"<a><i>1</i><i>2</i><i>3</i><j/></a>"),
        Ok(obj(vec![(
            "a",
            obj(vec![("i", Value::Array(vec![text("1"), text("2"), text("3")])), ("j", Value::Null)])
        )]))
    );
}

#[test]
fn xml_faults() {
    let err = |position, fault| Err::<Value, _>(ParseError { format: Format::Xml, position, fault });
    assert_eq!(xml::read::parse(b""), err(0, ParseFault::UnexpectedEnd));
    assert_eq!(xml::read::parse(b"text"), err(0, ParseFault::UnexpectedChar));
    assert_eq!(xml::read::parse(b"<a><b></a></b>"), err(6, ParseFault::MismatchedTag));
    assert_eq!(xml::read::parse(b"<a>"), err(3, ParseFault::UnexpectedEnd));
    assert_eq!(xml::read::parse(b"<a>&bogus;</a>"), err(3, ParseFault::InvalidEscape));
    assert_eq!(xml::read::parse(b"<a/><b/>"), err(4, ParseFault::TrailingCharacters));
    assert_eq!(xml::read::parse(b"<a b></a>"), err(4, ParseFault::UnexpectedChar));
    assert_eq!(xml::read::parse(b"<!-- open"), err(9, ParseFault::UnexpectedEnd));
    assert_eq!(xml::read::parse(&[0x3c, 0x80]), err(0, ParseFault::InvalidUtf8));
}

#[test]
fn toon_writes_uniform_arrays_as_tables() {
    let v = json_value("{\"users\":[{\"name\":\"A\",\"age\":1},{\"name\":\"B, C\",\"age\":null}],\"n\":2}");
    assert_eq!(
        toon::write::to_text(&v).unwrap(),
        "users[2]{name,age}:\n  A,1\n  \"B, C\",null\nn: 2\n"
    );
}

#[test]
fn toon_writes_other_shapes_as_nested_lines() {
    let v = json_value(
        "{\"tags\":[\"a\",\"b c\",3],\"none\":[],\"o\":{\"p\":{\"q\":true}},\"mixed\":[1,{\"a\":1},[2,3],{\"b\":[]}],\"e\":{}}",
    );
    assert_eq!(
        toon::write::to_text(&v).unwrap(),
        "tags[3]: a,b c,3\nnone[0]:\no:\n  p:\n    q: true\nmixed[4]:\n  - 1\n  -\n    a: 1\n  - [2]: 2,3\n  -\n    b[0]:\ne:\n"
    );
    assert_eq!(toon::write::to_text(&json_value("[1,2]")).unwrap(), "[2]: 1,2\n");
    assert_eq!(toon::write::to_text(&json_value("\"x\"")).unwrap(), "x\n");
    assert_eq!(
        toon::write::to_text(&json_value("[{\"a\":1},{\"a\":2}]")).unwrap(),
        "[2]{a}:\n  1\n  2\n"
    );
}

#[test]
fn yaml_compact_items_and_sequences_under_keys() {
    let source = "- - 1\n  - 2\n- a: 1\n  b:\n  - x\n  - y\n  c: 3\n- \"q\": \"r\"\n";
    assert_eq!(
        yaml::read::parse(source.as_bytes()),
        Ok(json_value("[[1,2],{\"a\":1,\"b\":[\"x\",\"y\"],\"c\":3},{\"q\":\"r\"}]"))
    );
    assert_eq!(
        yaml::read::parse(b"a: 1\na: 2\nb: 3\n"),
        Ok(obj(vec![("a", num(2)), ("b", num(3))]))
    );
}

#[test]
fn yaml_and_xml_refuse_nesting_beyond_the_limit() {
    let mut deep = String::new();
    for level in 0..129 {
        deep.push_str(&" ".repeat(level));
        deep.push_str("-\n");
    }
    deep.push_str(&" ".repeat(129));
    deep.push_str("- x\n");
    let r = yaml::read::parse(deep.as_bytes());
    assert_eq!(r.map_err(|e| e.fault), Err(ParseFault::TooDeep));
    let nested = "<a>".repeat(130) + &"</a>".repeat(130);
    let r = xml::read::parse(nested.as_bytes());
    assert_eq!(r.map_err(|e| e.fault), Err(ParseFault::TooDeep));
    let fine = "<a>".repeat(100) + &"</a>".repeat(100);
    assert!(xml::read::parse(fine.as_bytes()).is_ok());
}

#[test]
fn xml_references_stand_for_their_characters() {
    assert_eq!(
        xml::read::parse(b"<a t=\"&lt;x&gt; &quot;y&quot;\">&apos;&amp;&apos;<!-- c --> tail</a>"),
        Ok(obj(vec![(
            "a",
            obj(vec![("@t", text("<x> \"y\"")), ("#text", text("'&' tail"))])
        )]))
    );
}

#[test]
fn toon_quotes_what_would_be_read_otherwise() {
    let v = json_value("{\"a,b\":\"x,y\",\"n\":\"12\",\"t\":\"true\",\"e\":\"\",\"s\":[\"a:b\",\"[x]\",\"ok\"]}");
    assert_eq!(
        toon::write::to_text(&v).unwrap(),
        "\"a,b\": \"x,y\"\nn: \"12\"\nt: \"true\"\ne: \"\"\ns[3]: \"a:b\",\"[x]\",ok\n"
    );
}
