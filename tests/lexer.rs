use jsonparser::lexer::{LexError, Lexer, TokenVal};

fn number_text(v: &TokenVal) -> String {
    match v {
        TokenVal::JNumber(s) => s.clone(),
        _ => panic!("not a number token"),
    }
}

#[test]
fn test_eof() {
    let mut lexer = Lexer::new("");
    let actual = lexer.next_token().unwrap();
    assert_eq!(actual.value, TokenVal::Eof);
}

#[test]
fn test_puncts() {
    let mut lexer = Lexer::new("{}[]:,");
    assert_eq!(lexer.next_token().unwrap().value, TokenVal::LBrace);
    assert_eq!(lexer.next_token().unwrap().value, TokenVal::RBrace);
    assert_eq!(lexer.next_token().unwrap().value, TokenVal::LBrack);
    assert_eq!(lexer.next_token().unwrap().value, TokenVal::RBrack);
    assert_eq!(lexer.next_token().unwrap().value, TokenVal::Colon);
    assert_eq!(lexer.next_token().unwrap().value, TokenVal::Comma);
}

#[test]
fn test_null() {
    let mut lexer = Lexer::new("null");
    assert_eq!(lexer.next_token().unwrap().value, TokenVal::Null);
}

#[test]
fn test_string() {
    let mut lexer = Lexer::new("\"hello world\"");
    let actual = lexer.next_token().unwrap();
    assert_eq!(actual.value, TokenVal::JString("hello world".to_string()));
}

#[test]
fn test_string_eof() {
    let mut lexer = Lexer::new("\"hello world");
    let actual = lexer.next_token();
    let expected = Err(LexError::new("Unexpected EOF while parsing string".to_string(), 1));
    assert_eq!(actual, expected);
}

#[test]
fn test_simple_float() {
    let mut lexer = Lexer::new("4.5");
    let actual = lexer.next_token().unwrap();
    assert_eq!(actual.value, TokenVal::JNumber("4.5".to_string()));
    assert_eq!(number_text(&actual.value).parse::<f64>().unwrap(), 4.5);
}

#[test]
fn test_complex_float() {
    let mut lexer = Lexer::new("-3.775e+2");
    let actual = lexer.next_token().unwrap();
    assert_eq!(number_text(&actual.value).parse::<f64>().unwrap(), -377.5);
}

#[test]
fn test_bad_float() {
    let mut lexer = Lexer::new("33.");
    let actual = lexer.next_token();
    let expected = Err(LexError::new("Need at least one digit".to_string(), 1));
    assert_eq!(actual, expected);
}

#[test]
fn test_bools() {
    let mut lexer = Lexer::new("true false");
    assert_eq!(lexer.next_token().unwrap().value, TokenVal::True);
    assert_eq!(lexer.next_token().unwrap().value, TokenVal::False);
}

#[test]
fn test_invalid_keyword() {
    let mut lexer = Lexer::new("hello");
    let actual = lexer.next_token();
    let expected = Err(LexError::new("Invalid character".to_string(), 1));
    assert_eq!(actual, expected);
}

#[test]
fn test_spaces() {
    let mut lexer = Lexer::new("      ");
    assert_eq!(lexer.next_token().unwrap().value, TokenVal::Eof);
}

#[test]
fn test_line_no() {
    let mut lexer = Lexer::new("\n\ntrue");
    let actual = lexer.next_token().unwrap();
    assert_eq!(actual.line_no, 3);
}

#[test]
fn eof_repeats() {
    let mut lexer = Lexer::new(" ");
    assert_eq!(lexer.next_token().unwrap().value, TokenVal::Eof);
    assert_eq!(lexer.next_token().unwrap().value, TokenVal::Eof);
}

#[test]
fn misspelt_keyword() {
    let mut lexer = Lexer::new("\ntrux");
    let expected = Err(LexError::new("Invalid keyword".to_string(), 2));
    assert_eq!(lexer.next_token(), expected);
}

#[test]
fn keyword_cut_short() {
    let mut lexer = Lexer::new("nul");
    let expected = Err(LexError::new("Invalid keyword".to_string(), 1));
    assert_eq!(lexer.next_token(), expected);
}

#[test]
fn lone_minus() {
    let mut lexer = Lexer::new("-x");
    let expected = Err(LexError::new("Invalid number".to_string(), 1));
    assert_eq!(lexer.next_token(), expected);
}

#[test]
fn exponent_needs_digit() {
    let mut lexer = Lexer::new("1e+");
    let expected = Err(LexError::new("Need at least one digit".to_string(), 1));
    assert_eq!(lexer.next_token(), expected);
}

#[test]
fn leading_zero_stands_alone() {
    let mut lexer = Lexer::new("012");
    assert_eq!(lexer.next_token().unwrap().value, TokenVal::JNumber("0".to_string()));
    assert_eq!(lexer.next_token().unwrap().value, TokenVal::JNumber("12".to_string()));
}

#[test]
fn number_keeps_full_text() {
    let mut lexer = Lexer::new("-0.25E10,");
    assert_eq!(lexer.next_token().unwrap().value, TokenVal::JNumber("-0.25E10".to_string()));
    assert_eq!(lexer.next_token().unwrap().value, TokenVal::Comma);
}

#[test]
fn escapes_are_decoded() {
    let mut lexer = Lexer::new("\"a\\n\\t\\\"\\\\\\/\\b\\f\\r\\u0041\\u00e9\"");
    let expected = TokenVal::JString("a\n\t\"\\/\u{8}\u{c}\rA\u{e9}".to_string());
    assert_eq!(lexer.next_token().unwrap().value, expected);
}

#[test]
fn bad_escape_letter() {
    let mut lexer = Lexer::new("\"\\q\"");
    let expected = Err(LexError::new("Invalid escape character".to_string(), 1));
    assert_eq!(lexer.next_token(), expected);
}

#[test]
fn bad_unicode_escape() {
    let mut a = Lexer::new("\"\\u12G4\"");
    let expected = Err(LexError::new("Invalid escape character".to_string(), 1));
    assert_eq!(a.next_token(), expected);
    let mut b = Lexer::new("\"\\uD800\"");
    assert_eq!(b.next_token(), expected);
}

#[test]
fn control_character_in_string() {
    let mut a = Lexer::new("\"a\tb\"");
    let expected = Err(LexError::new("Invalid character in string: 9".to_string(), 1));
    assert_eq!(a.next_token(), expected);
    let mut b = Lexer::new("\n\"a\nb\"");
    let expected = Err(LexError::new("Invalid character in string: 10".to_string(), 2));
    assert_eq!(b.next_token(), expected);
}

#[test]
fn carriage_return_keeps_line() {
    let mut lexer = Lexer::new("\r\r\n\t null");
    let actual = lexer.next_token().unwrap();
    assert_eq!(actual.line_no, 2);
    assert_eq!(actual.value, TokenVal::Null);
}

#[test]
fn input_ends_after_backslash() {
    let mut lexer = Lexer::new("\"ab\\");
    let expected = Err(LexError::new("Unexpected EOF while parsing string".to_string(), 1));
    assert_eq!(lexer.next_token(), expected);
}

#[test]
fn input_ends_inside_unicode_escape() {
    let mut lexer = Lexer::new("\"\\u12");
    let expected = Err(LexError::new("Unexpected EOF while parsing string".to_string(), 1));
    assert_eq!(lexer.next_token(), expected);
}

#[test]
fn newline_as_escape_letter_counts() {
    let mut lexer = Lexer::new("\"\\\nx\"");
    let expected = Err(LexError::new("Invalid escape character".to_string(), 2));
    assert_eq!(lexer.next_token(), expected);
}
