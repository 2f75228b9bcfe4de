use mavlink2rest::json::JsonValue;
use mavlink2rest::query::{parse_index, resolve, split_path, unescape_segment};

fn s(x: &str) -> String {
    x.to_string()
}

fn num(x: &str) -> JsonValue {
    JsonValue::Number(s(x))
}

fn obj(members: Vec<(&str, JsonValue)>) -> JsonValue {
    JsonValue::Object(members.into_iter().map(|(k, v)| (s(k), v)).collect())
}

fn sample() -> JsonValue {
    obj(vec![(
        "mavlink",
        obj(vec![(
            "HEARTBEAT",
            obj(vec![
                ("mavtype", obj(vec![("type", num("2"))])),
                ("message_information", obj(vec![("frequency", num("1.0"))])),
            ]),
        )]),
    )])
}

#[test]
fn resolves_nested_field() {
    let tree = sample();
    assert_eq!(resolve(&tree, "/mavlink/HEARTBEAT/mavtype/type"), Some(&num("2")));
}

#[test]
fn resolves_frequency() {
    let tree = sample();
    assert_eq!(
        resolve(&tree, "/mavlink/HEARTBEAT/message_information/frequency"),
        Some(&num("1.0"))
    );
}

#[test]
fn unknown_type_is_not_found() {
    let tree = sample();
    assert_eq!(resolve(&tree, "/mavlink/UNKNOWN"), None);
}

#[test]
fn root_path_gives_whole_tree() {
    let tree = sample();
    assert_eq!(resolve(&tree, "/"), Some(&sample()));
    assert_eq!(resolve(&tree, ""), Some(&sample()));
}

#[test]
fn single_segment_gives_namespace() {
    let tree = sample();
    let expected = match &tree {
        JsonValue::Object(m) => &m[0].1,
        _ => unreachable!(),
    };
    assert_eq!(resolve(&tree, "/mavlink"), Some(expected));
}

#[test]
fn empty_segment_is_the_empty_key() {
    let tree = sample();
    assert_eq!(resolve(&tree, "/mavlink/"), None);
    assert_eq!(resolve(&tree, "//mavlink"), None);
    let with_empty = obj(vec![("", num("7"))]);
    assert_eq!(resolve(&with_empty, "//"), None);
    assert_eq!(resolve(&with_empty, "/x"), None);
    let nested = obj(vec![("", obj(vec![("", num("8"))]))]);
    assert_eq!(resolve(&nested, "//"), Some(&num("8")));
    assert_eq!(resolve(&nested, "///"), None);
}

#[test]
fn path_without_leading_slash_is_not_found() {
    let tree = sample();
    assert_eq!(resolve(&tree, "mavlink"), None);
    assert_eq!(split_path("mavlink/HEARTBEAT"), None);
}

#[test]
fn escaped_keys() {
    let tree = obj(vec![("a/b", num("1")), ("c~d", num("2")), ("~1", num("3"))]);
    assert_eq!(resolve(&tree, "/a~1b"), Some(&num("1")));
    assert_eq!(resolve(&tree, "/c~0d"), Some(&num("2")));
    assert_eq!(resolve(&tree, "/~01"), Some(&num("3")));
    assert_eq!(resolve(&tree, "/a/b"), None);
    assert_eq!(unescape_segment("x~1y~0z"), "x/y~z");
    assert_eq!(unescape_segment("~"), "~");
    assert_eq!(unescape_segment("~~1"), "~/");
}

#[test]
fn indexing_into_a_leaf_is_not_found() {
    let tree = sample();
    assert_eq!(resolve(&tree, "/mavlink/HEARTBEAT/mavtype/type/more"), None);
}

#[test]
fn array_elements_by_index() {
    let tree = obj(vec![(
        "list",
        JsonValue::Array(vec![num("10"), JsonValue::Str(s("b")), JsonValue::Bool(true)]),
    )]);
    assert_eq!(resolve(&tree, "/list/0"), Some(&num("10")));
    assert_eq!(resolve(&tree, "/list/2"), Some(&JsonValue::Bool(true)));
    assert_eq!(resolve(&tree, "/list/3"), None);
    assert_eq!(resolve(&tree, "/list/01"), None);
    assert_eq!(resolve(&tree, "/list/x"), None);
}

#[test]
fn splits_paths_into_segments() {
    assert_eq!(split_path("/mavlink/HEARTBEAT"), Some(vec![s("mavlink"), s("HEARTBEAT")]));
    assert_eq!(split_path("//a//b/"), Some(vec![s(""), s("a"), s(""), s("b"), s("")]));
    assert_eq!(split_path("/"), Some(Vec::<String>::new()));
    assert_eq!(split_path(""), Some(Vec::<String>::new()));
}

#[test]
fn parses_indices() {
    assert_eq!(parse_index(&s("0"), 1), Some(0));
    assert_eq!(parse_index(&s("12"), 13), Some(12));
    assert_eq!(parse_index(&s("12"), 12), None);
    assert_eq!(parse_index(&s("007"), 100), None);
    assert_eq!(parse_index(&s("+1"), 100), None);
    assert_eq!(parse_index(&s(""), 100), None);
    assert_eq!(parse_index(&s("99999999999999999999999999"), 100), None);
}
