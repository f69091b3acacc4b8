use llm_fmt::error::FilterConfigError;
use llm_fmt::filters::max_depth::MaxDepthFilter;
use llm_fmt::filters::path::{read_path, PathError, PathFault, Segment};
use llm_fmt::filters::select::IncludeFilter;
use llm_fmt::json::read::parse;
use llm_fmt::value::{Number, Value};

fn json(s: &str) -> Value {
    parse(s.as_bytes()).unwrap()
}

#[test]
fn negative_depth_is_refused_at_once() {
    assert_eq!(MaxDepthFilter::new(-1), Err(FilterConfigError::NegativeDepth));
    assert_eq!(MaxDepthFilter::new(i64::MIN), Err(FilterConfigError::NegativeDepth));
    assert_eq!(MaxDepthFilter::new(0), Ok(MaxDepthFilter { max_depth: 0 }));
    assert_eq!(MaxDepthFilter::new(7), Ok(MaxDepthFilter { max_depth: 7 }));
}

#[test]
fn depth_zero_keeps_the_root_and_replaces_nested_containers() {
    let v = json("{\"a\":1,\"b\":{\"c\":2},\"d\":[1,2],\"e\":\"s\"}");
    let cut = MaxDepthFilter::new(0).unwrap().apply(&v);
    assert_eq!(cut, json("{\"a\":1,\"b\":\"{...}\",\"d\":\"[...]\",\"e\":\"s\"}"));
    assert_eq!(cut.depth(), 0);
}

#[test]
fn depth_one_keeps_one_level_below_the_root() {
    let v = json("{\"a\":{\"b\":{\"c\":1},\"d\":[[1]]},\"e\":[{\"f\":2},3]}");
    let cut = MaxDepthFilter::new(1).unwrap().apply(&v);
    assert_eq!(cut, json("{\"a\":{\"b\":\"{...}\",\"d\":\"[...]\"},\"e\":[\"{...}\",3]}"));
    assert_eq!(cut.depth(), 1);
}

#[test]
fn depth_at_least_the_depth_of_the_value_changes_nothing() {
    let v = json("{\"a\":{\"b\":{\"c\":1}},\"e\":[{\"f\":2},3]}");
    assert_eq!(v.depth(), 2);
    assert_eq!(MaxDepthFilter::new(2).unwrap().apply(&v), v);
    assert_eq!(MaxDepthFilter::new(100).unwrap().apply(&v), v);
    assert_ne!(MaxDepthFilter::new(1).unwrap().apply(&v), v);
}

#[test]
fn depth_filter_leaves_scalars_alone() {
    assert_eq!(MaxDepthFilter::new(0).unwrap().apply(&json("5")), json("5"));
    assert_eq!(MaxDepthFilter::new(0).unwrap().apply(&json("[]")), json("[]"));
}

#[test]
fn wildcard_extraction() {
    let v = json("{\"users\":[{\"name\":\"A\"},{\"name\":\"B\"}]}");
    let filter = IncludeFilter::new("users[*].name").unwrap();
    assert_eq!(filter.apply(&v), json("[\"A\",\"B\"]"));
}

#[test]
fn empty_match_is_an_empty_array() {
    let v = json("{\"a\":1}");
    let filter = IncludeFilter::new("b.c").unwrap();
    assert_eq!(filter.apply(&v), Value::Array(vec![]));
}

#[test]
fn single_match_is_the_value_itself() {
    let v = json("{\"a\":{\"b\":[10,20,30]}}");
    assert_eq!(IncludeFilter::new("a.b[1]").unwrap().apply(&v), json("20"));
    assert_eq!(IncludeFilter::new("a.b").unwrap().apply(&v), json("[10,20,30]"));
    assert_eq!(IncludeFilter::new("a").unwrap().apply(&v), json("{\"b\":[10,20,30]}"));
    assert_eq!(IncludeFilter::new("a.b[*]").unwrap().apply(&v), json("[10,20,30]"));
    assert_eq!(IncludeFilter::new("a.b[3]").unwrap().apply(&v), json("[]"));
}

#[test]
fn wildcard_with_one_element_gives_that_element() {
    let v = json("{\"users\":[{\"name\":\"A\"}]}");
    assert_eq!(IncludeFilter::new("users[*].name").unwrap().apply(&v), json("\"A\""));
}

#[test]
fn nested_wildcards_keep_the_order_of_the_walk() {
    let v = json("[[1,2],[3],[],[4,5]]");
    assert_eq!(IncludeFilter::new("[*][*]").unwrap().apply(&v), json("[1,2,3,4,5]"));
    assert_eq!(IncludeFilter::new("[*][0]").unwrap().apply(&v), json("[1,3,4]"));
}

#[test]
fn wildcard_on_an_object_matches_nothing() {
    let v = json("{\"a\":{\"x\":1,\"y\":2}}");
    assert_eq!(IncludeFilter::new("a[*]").unwrap().apply(&v), json("[]"));
}

#[test]
fn a_present_null_is_a_match() {
    let v = json("{\"a\":null}");
    assert_eq!(IncludeFilter::new("a").unwrap().apply(&v), Value::Null);
}

#[test]
fn path_expressions_are_parsed() {
    assert_eq!(
        read_path("users[*].name"),
        Ok(vec![Segment::Key("users".to_string()), Segment::Wildcard, Segment::Key("name".to_string())])
    );
    assert_eq!(
        read_path("[12].a b[0]"),
        Ok(vec![Segment::Index(12), Segment::Key("a b".to_string()), Segment::Index(0)])
    );
}

#[test]
fn malformed_paths_are_refused_with_their_place() {
    let err = |position, fault| Err::<Vec<Segment>, _>(PathError { position, fault });
    assert_eq!(read_path(""), err(0, PathFault::Empty));
    assert_eq!(read_path(".a"), err(0, PathFault::EmptyKey));
    assert_eq!(read_path("a."), err(2, PathFault::EmptyKey));
    assert_eq!(read_path("a..b"), err(2, PathFault::EmptyKey));
    assert_eq!(read_path("a[1"), err(3, PathFault::UnclosedBracket));
    assert_eq!(read_path("a[*x]"), err(3, PathFault::UnclosedBracket));
    assert_eq!(read_path("a[x]"), err(2, PathFault::InvalidIndex));
    assert_eq!(read_path("a[]"), err(2, PathFault::InvalidIndex));
    assert_eq!(read_path("a[99999999999999999999]"), err(2, PathFault::IndexTooLarge));
    assert_eq!(read_path("a[0]b"), err(4, PathFault::UnexpectedChar));
    assert_eq!(read_path("a]"), err(1, PathFault::UnexpectedChar));
    assert_eq!(
        IncludeFilter::new("a[").map(|_| ()),
        Err(FilterConfigError::Path(PathError { position: 2, fault: PathFault::InvalidIndex }))
    );
}

#[test]
fn filters_do_not_change_their_input() {
    let v = json("{\"a\":{\"b\":[1,{\"c\":2}]}}");
    let copy = v.deep_clone();
    let _ = MaxDepthFilter::new(0).unwrap().apply(&v);
    let _ = IncludeFilter::new("a.b[*]").unwrap().apply(&v);
    assert_eq!(v, copy);
    assert_eq!(v.get("a").unwrap().get("b").unwrap().index(0), Some(&Value::Number(Number::Int(1))));
}
