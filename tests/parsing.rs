use json_parser::render::get_padded_string;
use json_parser::value::{ArgsParseError, JSONParseError, JSONValue, JSON};

fn parse(text: &str) -> Result<JSON, ArgsParseError> {
    JSON::parse_from_string(String::from(text))
}

fn parsed(text: &str) -> JSON {
    match parse(text) {
        Ok(json) => json,
        Err(err) => panic!("{} did not parse: {}", text, err.message()),
    }
}

fn lookup<'a>(json: &'a JSON, key: &str) -> &'a JSONValue {
    for (k, v) in json.object.iter() {
        if k == key {
            return v;
        }
    }
    panic!("no key {}", key)
}

fn number(v: &JSONValue) -> i32 {
    match v {
        JSONValue::Number(n) => *n,
        other => panic!("not a number: {}", other.render()),
    }
}

fn string(v: &JSONValue) -> String {
    match v {
        JSONValue::String(s) => s.clone(),
        other => panic!("not a string: {}", other.render()),
    }
}

#[test]
fn empty_document_renders_as_braces() {
    assert_eq!(parsed("{}").render(), "{}");
    assert_eq!(parsed("  {}\n").render(), "{}");
    assert_eq!(parsed("{ \n\t }").render(), "{}");
}

#[test]
fn duplicate_key_keeps_last_value() {
    let json = parsed(r#"{"a": 1, "a": 2}"#);
    assert_eq!(json.object.len(), 1);
    assert_eq!(number(lookup(&json, "a")), 2);
}

#[test]
fn trailing_comma_is_rejected() {
    assert!(parse(r#"{"a": 1,}"#).is_err());
    assert!(parse("{\"a\": 1,\n}").is_err());
}

#[test]
fn partial_literals_are_rejected() {
    assert!(parse(r#"{"a": tru}"#).is_err());
    assert!(parse(r#"{"a": nul}"#).is_err());
    assert!(parse(r#"{"a": fals}"#).is_err());
    assert!(parse(r#"{"a": truex}"#).is_err());
}

#[test]
fn literals_parse() {
    let json = parsed(r#"{"t": true, "f": false, "n": null}"#);
    assert!(matches!(lookup(&json, "t"), JSONValue::Bool(true)));
    assert!(matches!(lookup(&json, "f"), JSONValue::Bool(false)));
    assert!(matches!(lookup(&json, "n"), JSONValue::Null));
}

#[test]
fn nested_objects_are_isolated() {
    let json = parsed(r#"{"a": {"b": 1}, "c": 2}"#);
    assert_eq!(json.object.len(), 2);
    match lookup(&json, "a") {
        JSONValue::Object(inner) => assert_eq!(number(lookup(inner, "b")), 1),
        other => panic!("not an object: {}", other.render()),
    }
    assert_eq!(number(lookup(&json, "c")), 2);

    let json = parsed(r#"{"a": {"b": "x{y}z"}, "c": 2}"#);
    match lookup(&json, "a") {
        JSONValue::Object(inner) => assert_eq!(string(lookup(inner, "b")), "x{y}z"),
        other => panic!("not an object: {}", other.render()),
    }
    assert_eq!(number(lookup(&json, "c")), 2);
}

#[test]
fn escaped_quote_in_string() {
    let json = parsed(r#"{"a": "x\"y"}"#);
    let s = string(lookup(&json, "a"));
    assert_eq!(s.chars().count(), 3);
    assert_eq!(s, "x\"y");
    assert_eq!(lookup(&json, "a").render(), r#""x\"y""#);
    assert_eq!(json.render(), "{\n  a: \"x\\\"y\"\n}");
}

#[test]
fn backslash_is_escaped_again_on_output() {
    let json = parsed(r#"{"a": "p\\q"}"#);
    assert_eq!(string(lookup(&json, "a")), "p\\q");
    assert_eq!(lookup(&json, "a").render(), r#""p\\q""#);
}

#[test]
fn numbers_parse_within_i32() {
    assert_eq!(number(lookup(&parsed(r#"{"a": -42}"#), "a")), -42);
    assert!(parse(r#"{"a": 99999999999999}"#).is_err());
    assert_eq!(number(lookup(&parsed(r#"{"a": 2147483647}"#), "a")), 2147483647);
    assert!(parse(r#"{"a": 2147483648}"#).is_err());
    assert_eq!(number(lookup(&parsed(r#"{"a": -2147483648}"#), "a")), -2147483648);
    assert!(parse(r#"{"a": -2147483649}"#).is_err());
    assert_eq!(number(lookup(&parsed(r#"{"a": 007}"#), "a")), 7);
    assert!(parse(r#"{"a": -}"#).is_err());
    assert!(parse(r#"{"a": 1.5}"#).is_err());
}

#[test]
fn numbers_render_in_decimal() {
    assert_eq!(JSONValue::Number(-42).render(), "-42");
    assert_eq!(JSONValue::Number(0).render(), "0");
    assert_eq!(JSONValue::Number(i32::MIN).render(), "-2147483648");
    assert_eq!(JSONValue::Number(i32::MAX).render(), "2147483647");
}

#[test]
fn whitespace_between_tokens_is_ignored() {
    let compact = parsed(r#"{"a":[1,true,"s"],"b":{"c":null}}"#).render();
    let spaced = parsed("\n{ \"a\" :\t[ 1 ,\n true , \"s\" ] ,\r\n \"b\" : { \"c\" : null } }\n").render();
    assert_eq!(compact, spaced);
}

#[test]
fn rendering_lays_out_nested_documents() {
    let json = parsed(r#"{"a": {"b": 1}, "c": [1,2]}"#);
    assert_eq!(json.render(), "{\n  a: {\n    b: 1\n  },\n  c: [1,2]\n}");
}

#[test]
fn keys_with_spaces_are_quoted() {
    assert_eq!(parsed(r#"{"a b": true}"#).render(), "{\n  \"a b\": true\n}");
}

#[test]
fn arrays_parse_and_render() {
    let json = parsed(r#"{"a": [], "b": [ ], "c": [[1], {"d": 2}]}"#);
    assert_eq!(lookup(&json, "a").render(), "[]");
    assert_eq!(lookup(&json, "b").render(), "[]");
    assert_eq!(lookup(&json, "c").render(), "[[1],{\n  d: 2\n}]");
    assert!(parse(r#"{"a": [1,]}"#).is_err());
    assert!(parse(r#"{"a": [1 2]}"#).is_err());
    assert!(parse(r#"{"a": [1"#).is_err());
}

#[test]
fn scalar_document_round_trips_through_its_text() {
    let json = parsed(r#"{"a b": 1, "c d": "x\"y", "e f": null, "g h": false}"#);
    let again = parsed(&json.render());
    assert_eq!(again.render(), json.render());
    assert_eq!(again.object.len(), 4);
    assert_eq!(string(lookup(&again, "c d")), "x\"y");
}

#[test]
fn grammar_errors_carry_one_message() {
    for text in [
        "",
        "abc",
        "{",
        r#"{"a" 1}"#,
        r#"{a: 1}"#,
        r#"{"a": 1"#,
        r#"{"a": "open}"#,
        r#"{"a": 1 "b": 2}"#,
        r#"{"a": @}"#,
    ] {
        match parse(text) {
            Ok(_) => panic!("{:?} parsed", text),
            Err(err) => assert_eq!(err.message(), "Invalid JSON file!"),
        }
    }
    assert_eq!(JSONParseError.message(), "Invalid JSON file!");
}

#[test]
fn text_after_the_closing_brace_is_not_read() {
    assert_eq!(parsed(r#"{"a": 1} x }"#).object.len(), 1);
}

#[test]
fn parse_takes_trimmed_text() {
    assert!(JSON::parse(String::from(r#"{"a": 1}"#)).is_ok());
    assert!(JSON::parse(String::from(" {}")).is_err());
}

#[test]
fn file_names_need_the_json_extension() {
    assert!(JSON::check_file_name(&String::from("data.json")).is_ok());
    match JSON::check_file_name(&String::from("data.txt")) {
        Ok(()) => panic!("accepted"),
        Err(err) => assert_eq!(err.message(), "data.txt is not a JSON file"),
    }
    assert!(JSON::check_file_name(&String::from("json")).is_err());
    assert_eq!(
        ArgsParseError::missing_file(&String::from("x.json")).message(),
        "x.json does not exist!"
    );
}

#[test]
fn padding_indents_every_line() {
    assert_eq!(get_padded_string(String::from("a\nb")), "  a\n  b\n");
    assert_eq!(get_padded_string(String::from("a\r\nb\n")), "  a\n  b\n");
    assert_eq!(get_padded_string(String::new()), "");
}

#[test]
fn cursor_functions_follow_the_grammar() {
    let s: Vec<char> = "  \"k\\\"\" : -7 ]".chars().collect();
    let mut pos: usize = 0;
    assert_eq!(JSON::parse_key(&s, &mut pos).ok(), Some(String::from("k\"")));
    assert!(JSON::skip_colons(&s, &mut pos).is_none());
    match JSON::parse_value(&s, &mut pos) {
        Ok(JSONValue::Number(n)) => assert_eq!(n, -7),
        _ => panic!("no number"),
    }
    assert_eq!(JSON::skip_whitspace(&s, &mut pos), Some(']'));
    assert_eq!(pos, s.len());
    assert_eq!(JSON::skip_whitspace(&s, &mut pos), None);
}
