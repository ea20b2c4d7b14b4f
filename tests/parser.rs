use jsonparser::json::JSON;
use jsonparser::parse;
use jsonparser::parser::{ParseError, Parser};

fn num(s: &str) -> JSON {
    JSON::JSONNum(s.to_string())
}

#[test]
fn test_false() {
    let mut parser = Parser::new("false");
    assert_eq!(parser.parse().unwrap(), JSON::JSONBool(false));
}

#[test]
fn test_true() {
    let mut parser = Parser::new("true");
    assert_eq!(parser.parse().unwrap(), JSON::JSONBool(true));
}

#[test]
fn tests_test_null() {
    let mut parser = Parser::new("null");
    assert_eq!(parser.parse().unwrap(), JSON::JSONNull);
}

#[test]
fn tests_test_simple_float() {
    let mut parser = Parser::new("44.3");
    let actual = parser.parse().unwrap();
    assert_eq!(actual, num("44.3"));
    match actual {
        JSON::JSONNum(s) => assert_eq!(s.parse::<f64>().unwrap(), 44.3),
        _ => panic!("not a number"),
    }
}

#[test]
fn tests_test_string() {
    let mut parser = Parser::new("\"Hello\"");
    assert_eq!(parser.parse().unwrap(), JSON::JSONString("Hello".to_string()));
}

#[test]
fn test_simple_array() {
    let mut parser = Parser::new("[true, false, null, 1.2]");
    let expected = JSON::JSONArray(vec![
        JSON::JSONBool(true),
        JSON::JSONBool(false),
        JSON::JSONNull,
        num("1.2"),
    ]);
    assert_eq!(parser.parse().unwrap(), expected);
}

#[test]
fn test_arr_missing_comma() {
    let mut parser = Parser::new("[true, false null, 1.2]");
    let expected = Err(ParseError::new("Expecting right bracket at end of array".to_string(), 1));
    assert_eq!(parser.parse(), expected);
}

#[test]
fn test_simple_obj() {
    let mut parser = Parser::new("{ \"abc\":1.1, \"def\":2.2, \"xyz\":3.3 }");
    let expected = JSON::JSONObject(vec![
        ("abc".to_string(), num("1.1")),
        ("def".to_string(), num("2.2")),
        ("xyz".to_string(), num("3.3")),
    ]);
    assert_eq!(parser.parse().unwrap(), expected);
}

#[test]
fn test_extra_comma() {
    let mut parser = Parser::new("{ \"abc\":1.1, \"def\":2.2, \"xyz\":3.3, }");
    let expected = Err(ParseError::new("Expecting string".to_string(), 1));
    assert_eq!(parser.parse(), expected);
}

#[test]
fn test_obj_missing_colon() {
    let mut parser = Parser::new("{ \"abc\" 1.1, \"def\":2.2, \"xyz\":3.3 }");
    let expected = Err(ParseError::new("Expecting colon after key".to_string(), 1));
    assert_eq!(parser.parse(), expected);
}

#[test]
fn test_invalid_obj_key() {
    let mut parser = Parser::new("{ 15 : false }");
    let expected = Err(ParseError::new("Expecting string".to_string(), 1));
    assert_eq!(parser.parse(), expected);
}

#[test]
fn empty_containers() {
    assert_eq!(parse(" [ ] ").unwrap(), JSON::JSONArray(vec![]));
    assert_eq!(parse("{}").unwrap(), JSON::JSONObject(vec![]));
}

#[test]
fn nested_values() {
    let actual = parse("[ {\"k\": [1, -2]}, [[]] ]").unwrap();
    let expected = JSON::JSONArray(vec![
        JSON::JSONObject(vec![("k".to_string(), JSON::JSONArray(vec![num("1"), num("-2")]))]),
        JSON::JSONArray(vec![JSON::JSONArray(vec![])]),
    ]);
    assert_eq!(actual, expected);
}

#[test]
fn duplicate_key_last_wins() {
    let actual = parse("{\"a\": 1, \"b\": 2, \"a\": 3}").unwrap();
    let expected = JSON::JSONObject(vec![("a".to_string(), num("3")), ("b".to_string(), num("2"))]);
    assert_eq!(actual, expected);
}

#[test]
fn trailing_content() {
    let expected = Err(ParseError::new("Expecting EOF".to_string(), 2));
    assert_eq!(parse("true\n false"), expected);
}

#[test]
fn trailing_comma_in_array() {
    let expected = Err(ParseError::new("Unexpected token".to_string(), 1));
    assert_eq!(parse("[1, ]"), expected);
}

#[test]
fn missing_right_brace() {
    let expected = Err(ParseError::new("Expecting right brace at end of object".to_string(), 1));
    assert_eq!(parse("{\"a\": 1 \"b\": 2}"), expected);
}

#[test]
fn lexer_error_passes_through() {
    let expected = Err(ParseError::new("Invalid character".to_string(), 3));
    assert_eq!(parse("[1,\n\n @]"), expected);
}

#[test]
fn empty_input_is_unexpected() {
    let expected = Err(ParseError::new("Unexpected token".to_string(), 1));
    assert_eq!(parse("   "), expected);
}

#[test]
fn parsing_twice_agrees() {
    let text = "{\"x\": [1.5e3, null], \"y\": {\"z\": false}}";
    assert_eq!(parse(text), parse(text));
    let bad = "[1 2]";
    assert_eq!(parse(bad), parse(bad));
}

#[test]
fn literal_consumes_only_itself() {
    assert_eq!(parse("  null\t").unwrap(), JSON::JSONNull);
    let expected = Err(ParseError::new("Expecting EOF".to_string(), 1));
    assert_eq!(parse("truefalse"), expected);
}

#[test]
fn object_equality_ignores_member_order() {
    let a = parse("{\"x\": 1, \"y\": [true, {\"p\": null, \"q\": \"s\"}]}").unwrap();
    let b = parse("{\"y\": [true, {\"q\": \"s\", \"p\": null}], \"x\": 1}").unwrap();
    assert_eq!(a, b);
    let c = parse("{\"y\": [true, {\"q\": \"s\", \"p\": null}], \"x\": 2}").unwrap();
    assert_ne!(a, c);
    let d = parse("[1, 2]").unwrap();
    let e = parse("[2, 1]").unwrap();
    assert_ne!(d, e);
}

#[test]
fn unterminated_escape_through_parse() {
    let expected = Err(ParseError::new("Unexpected EOF while parsing string".to_string(), 1));
    assert_eq!(parse("[\"abc\\"), expected);
}
