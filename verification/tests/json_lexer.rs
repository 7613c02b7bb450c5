use codingchallenges::json_lexer::{JsonError, Lexer, Token};
use codingchallenges::json_parser::{parse_json, Parser};

fn tokens(s: &str) -> Vec<Token> {
    Lexer::new(s).tokenize().unwrap()
}

fn string_token(s: &str) -> String {
    let mut lx = Lexer::new(s);
    match lx.read_string().unwrap() {
        Token::String(t) => t,
        other => panic!("not a string token: {:?}", other),
    }
}

#[test]
fn lexes_punctuation_and_words() {
    let t = tokens(" { } [ ] : , true false null ");
    let names: Vec<String> = t.iter().map(|x| format!("{:?}", x)).collect();
    assert_eq!(
        names,
        vec!["LBrace", "RBrace", "LBracket", "RBracket", "Colon", "Comma", "True", "False", "Null"]
    );
}

#[test]
fn number_token_keeps_its_text() {
    let t = tokens("-12.5e+3");
    assert_eq!(t.len(), 1);
    match &t[0] {
        Token::Number(s) => assert_eq!(s, "-12.5e+3"),
        other => panic!("not a number: {:?}", other),
    }
}

#[test]
fn string_escapes_are_decoded() {
    assert_eq!(string_token(r#""a\"b\\c\/d\b\f\n\r\t""#), "a\"b\\c/d\u{8}\u{c}\n\r\t");
}

#[test]
fn unicode_escape_is_decoded() {
    assert_eq!(string_token(r#""\u0041\u00e9""#), "Aé");
}

#[test]
fn surrogate_pair_is_decoded() {
    assert_eq!(string_token(r#""\ud83d\ude00""#), "\u{1F600}");
}

#[test]
fn multibyte_text_is_kept() {
    assert_eq!(string_token("\"héllo €\""), "héllo €");
}

#[test]
fn string_errors() {
    assert!(matches!(Lexer::new("\"abc").read_string(), Err(JsonError::UnterminatedString)));
    assert!(matches!(Lexer::new("\"abc\\").read_string(), Err(JsonError::UnterminatedEscape)));
    assert!(matches!(Lexer::new(r#""\u12G4""#).read_string(), Err(JsonError::InvalidUnicodeEscape)));
    assert!(matches!(Lexer::new(r#""\ud800x""#).read_string(), Err(JsonError::ExpectedLowSurrogate)));
    assert!(matches!(
        Lexer::new(r#""\ud800\u0041""#).read_string(),
        Err(JsonError::InvalidSurrogatePair)
    ));
    assert!(matches!(Lexer::new(r#""\udc00""#).read_string(), Err(JsonError::UnexpectedLowSurrogate)));
    assert!(matches!(Lexer::new(r#""\q""#).read_string(), Err(JsonError::InvalidEscape(b'q'))));
    assert!(matches!(Lexer::new("\"a\tb\"").read_string(), Err(JsonError::ControlCharacter(9))));
}

#[test]
fn number_errors() {
    assert!(matches!(Lexer::new("01").read_number(), Err(JsonError::LeadingZeros)));
    assert!(matches!(Lexer::new("-x").read_number(), Err(JsonError::MissingDigits)));
    assert!(matches!(Lexer::new("1.").read_number(), Err(JsonError::ExpectedFractionDigit)));
    assert!(matches!(Lexer::new("1e+").read_number(), Err(JsonError::ExpectedExponentDigit)));
}

#[test]
fn token_errors() {
    assert!(matches!(Lexer::new("  tru").tokenize(), Err(JsonError::InvalidToken(2))));
    assert!(matches!(Lexer::new("[@]").tokenize(), Err(JsonError::UnexpectedCharacter(b'@', 1))));
}

#[test]
fn parser_errors() {
    assert!(matches!(parse_json(""), Err(JsonError::EmptyInput)));
    assert!(matches!(parse_json("{"), Err(JsonError::ExpectedKeyEnd)));
    assert!(matches!(parse_json(r#"{"k" 1}"#), Err(JsonError::ExpectedColon(Token::Number(_)))));
    assert!(matches!(parse_json(r#"{"k":"#), Err(JsonError::UnexpectedEnd)));
    assert!(matches!(parse_json(r#"{"k":1,}"#), Err(JsonError::ObjectTrailingComma)));
    assert!(matches!(parse_json(r#"{"k":1 2}"#), Err(JsonError::ExpectedCommaOrBrace(_))));
    assert!(matches!(parse_json(r#"{"k":1"#), Err(JsonError::ExpectedCommaOrBraceEnd)));
    assert!(matches!(parse_json("[1,]"), Err(JsonError::ArrayTrailingComma)));
    assert!(matches!(parse_json("[1 2]"), Err(JsonError::ExpectedCommaOrBracket(_))));
    assert!(matches!(parse_json("[1"), Err(JsonError::ExpectedCommaOrBracketEnd)));
    assert!(matches!(parse_json("{1:2}"), Err(JsonError::ExpectedKey(Token::Number(_)))));
    assert!(matches!(parse_json("[:]"), Err(JsonError::UnexpectedToken(Token::Colon))));
    assert!(matches!(parse_json("1 2"), Err(JsonError::TrailingToken(Token::Number(_)))));
    assert!(matches!(parse_json(r#"{"a""#), Err(JsonError::ExpectedColonEnd)));
}

#[test]
fn parser_walks_tokens() {
    let mut p = Parser::new(tokens(r#"[1, {"a": []}]"#));
    assert!(p.peek().is_some());
    assert!(p.parse().is_ok());
    assert!(p.peek().is_none());
    assert!(p.next_token().is_none());
}

#[test]
fn whitespace_is_skipped() {
    assert!(parse_json(" \t\r\n{ \"a\" :\n[ 1 , 2 ] }\n").is_ok());
}

#[test]
fn lexer_byte_access() {
    let mut lx = Lexer::new("  ab");
    assert_eq!(lx.peek(), Some(b' '));
    lx.skip_whitespace();
    assert_eq!(lx.peek(), Some(b'a'));
    assert_eq!(lx.next_byte(), Some(b'a'));
    assert_eq!(lx.next_byte(), Some(b'b'));
    assert_eq!(lx.next_byte(), None);
    assert_eq!(lx.peek(), None);
}

#[test]
fn whitespace_only_separates_tokens() {
    let a = "{\"k\": [1, 2.5e3";
    let b = "-7, \"x\", null]}";
    let names = |v: Vec<Token>| -> Vec<String> { v.iter().map(|x| format!("{:?}", x)).collect() };
    let mut expected = names(tokens(a));
    expected.extend(names(tokens(b)));
    assert_eq!(names(tokens(&format!("{} \t\n{}", a, b))), expected);
    assert!(tokens(" \t\r\n").is_empty());
}

#[test]
fn number_at_end_of_text_is_missing_digits() {
    assert!(matches!(Lexer::new("").read_number(), Err(JsonError::MissingDigits)));
    assert!(matches!(Lexer::new("-").read_number(), Err(JsonError::MissingDigits)));
}
