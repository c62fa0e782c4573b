use jsonc::lexer::Lexer;
use jsonc::node::Node;
use jsonc::parser::{ParseError, Parser};
use jsonc::to_json_string;
use jsonc::token::{LexerError, Location, Token};
use jsonc::utils::is_number_token_char;

#[test]
fn pipeline_object_with_members() {
    let result = to_json_string(r#"{"name": "sato", "age": 20}"#.to_string());
    assert_eq!(Ok(r#"{"age":20,"name":"sato"}"#.to_string()), result);
}

#[test]
fn pipeline_tolerates_trailing_comma() {
    let result = to_json_string(r#"{"a":1,}"#.to_string());
    assert_eq!(Ok(r#"{"a":1}"#.to_string()), result);
    let with_comma = to_json_string(r#"[1,2,]"#.to_string());
    let without_comma = to_json_string(r#"[1,2]"#.to_string());
    assert_eq!(Ok(r#"[1,2]"#.to_string()), with_comma);
    assert_eq!(with_comma, without_comma);
}

#[test]
fn pipeline_rejects_leading_comma() {
    let result = to_json_string(r#"{,"a":1}"#.to_string());
    assert_eq!(
        Err("Unexpected Token: `first comma is not allowed`".to_string()),
        result
    );
}

#[test]
fn pipeline_rejects_missing_comma() {
    let result = to_json_string(r#"{"a": 1 "b": 2}"#.to_string());
    assert_eq!(
        Err("Unexpected Token: `expected a comma between the members`".to_string()),
        result
    );
}

#[test]
fn pipeline_comment_only_is_not_found_token() {
    let result = to_json_string("// comment only\n".to_string());
    assert_eq!(Err("Not found token".to_string()), result);
}

#[test]
fn surrogate_pair_escape_stays_verbatim() {
    let mut lexer = Lexer::new(r#""\ud83d\ude00""#);
    let tokens = lexer.tokenize().expect("tokenize should succeed");
    assert_eq!(1, tokens.len());
    assert_eq!(
        Token::StringValue(r#"\ud83d\ude00"#.to_string()),
        tokens[0]
    );
    let result = to_json_string(r#""\ud83d\ude00""#.to_string());
    assert_eq!(Ok(r#""\ud83d\ude00""#.to_string()), result);
}

#[test]
fn number_text_kept_byte_for_byte() {
    // the line break ends the number scan; the output drops it
    let result = to_json_string("999.990000\n".to_string());
    assert_eq!(Ok("999.990000".to_string()), result);
    let result = to_json_string(r#"{"price":999.990000}"#.to_string());
    assert_eq!(Ok(r#"{"price":999.990000}"#.to_string()), result);
}

#[test]
fn compact_output_is_fixed_point() {
    let inputs = [
        r#"{"b": 1, "a": [true, null, "x\n"], /* note */ "c": {"k": "v"}}"#,
        r#"["first", 2, false, null, {"n": "あ"}]"#,
        r#""plain""#,
        "true",
        "null",
    ];
    for input in inputs.iter() {
        let once = to_json_string(input.to_string()).expect("first pass should succeed");
        let twice = to_json_string(once.clone()).expect("second pass should succeed");
        assert_eq!(once, twice);
    }
}

#[test]
fn duplicate_keys_last_write_wins() {
    let result = to_json_string(r#"{"a":1,"a":2}"#.to_string());
    assert_eq!(Ok(r#"{"a":2}"#.to_string()), result);
}

#[test]
fn empty_object_and_array() {
    assert_eq!(Ok("{}".to_string()), to_json_string("{}".to_string()));
    assert_eq!(Ok("[]".to_string()), to_json_string("[]".to_string()));
}

#[test]
fn unterminated_string_is_lex_error() {
    let result = to_json_string(r#""abc"#.to_string());
    assert_eq!(Err("Not exist terminal symbol char".to_string()), result);
}

#[test]
fn unknown_escape_is_lex_error() {
    let result = to_json_string(r#""a\qb""#.to_string());
    assert_eq!(Err("Not escape string".to_string()), result);
}

#[test]
fn misspelt_literal_is_lex_error() {
    let result = to_json_string("tru ".to_string());
    assert_eq!(Err("Invalid chars `tru `".to_string()), result);
}

#[test]
fn misspelt_literal_location() {
    let mut lexer = Lexer::new(":tru");
    lexer.pos += 1;
    let index = lexer.pos;
    lexer.pos += 1;
    match lexer.scan_bool_token(true, index) {
        Err(LexerError::InvalidChars(text, location)) => {
            assert_eq!("tru".to_string(), text);
            assert_eq!(Location(1, 4), location);
        }
        other => panic!("expected InvalidChars, got {:?}", other),
    }
}

#[test]
fn unclosed_array_is_parse_error() {
    let result = to_json_string("[1,".to_string());
    assert_eq!(Err("Un closed Token".to_string()), result);
}

#[test]
fn missing_value_is_parse_error() {
    let result = to_json_string(r#"{"a":"#.to_string());
    assert_eq!(Err("Unexpected consumed up Token".to_string()), result);
}

#[test]
fn number_class_covers_unicode_digits() {
    assert!(is_number_token_char('5'));
    assert!(is_number_token_char('.'));
    assert!(is_number_token_char('-'));
    assert!(is_number_token_char('e'));
    assert!(is_number_token_char('E'));
    assert!(is_number_token_char('٣'));
    assert!(!is_number_token_char('x'));
    assert!(!is_number_token_char(','));
    assert!(!is_number_token_char('+'));
}

#[test]
fn tab_and_unknown_chars_are_dropped() {
    let mut lexer = Lexer::new("\t[1,2]\t");
    let tokens = lexer.tokenize().expect("tokenize should succeed");
    assert_eq!(
        vec![
            Token::OpenBracket,
            Token::Number("1".to_string()),
            Token::Comma,
            Token::Number("2".to_string()),
            Token::CloseBracket,
        ],
        tokens
    );
}

#[test]
fn object_keys_come_out_sorted() {
    let result = to_json_string(r#"{"b":1,"a":2,"c":3}"#.to_string());
    assert_eq!(Ok(r#"{"a":2,"b":1,"c":3}"#.to_string()), result);
}

#[test]
fn block_comment_asterisk_runs_survive() {
    let result = to_json_string("/* **decorated** */ 7\n".to_string());
    assert_eq!(Ok("7".to_string()), result);
    let mut lexer = Lexer::new("/* **x** */\n1\n");
    let tokens = lexer.tokenize().expect("tokenize should succeed");
    assert_eq!(Token::CommentBlock(" **x** ".to_string()), tokens[0]);
}

#[test]
fn parse_error_values_compare() {
    let data = vec![Token::Colon];
    let mut parser = Parser::new(&data);
    assert_eq!(
        Err(ParseError::UnexpectedToken(
            "contains a token other than the value".to_string()
        )),
        parser.parse()
    );
}

#[test]
fn parsed_tree_matches_direct_construction() {
    let mut lexer = Lexer::new(r#"{"a": [1, {"b": null}]}"#);
    let tokens = lexer.tokenize().expect("tokenize should succeed");
    let mut parser = Parser::new(&tokens);
    let node = parser.parse().expect("parse should succeed");
    let expected = Node::Object(vec![(
        "a".to_string(),
        Node::Array(vec![
            Node::Number("1".to_string()),
            Node::Object(vec![("b".to_string(), Node::Null)]),
        ]),
    )]);
    assert_eq!(expected, node);
}

#[test]
fn array_missing_comma_is_rejected() {
    let result = to_json_string("[1 2]".to_string());
    assert_eq!(
        Err("Unexpected Token: `found an unexpected token while parsing the array`".to_string()),
        result
    );
}

#[test]
fn object_missing_colon_is_rejected() {
    // the token read in place of the colon is consumed before the value is
    // parsed, so the closing brace is met where a value was required
    let result = to_json_string(r#"{"a" 1}"#.to_string());
    assert_eq!(
        Err("Unexpected Token: `contains a token other than the value`".to_string()),
        result
    );
    // with a value present, the non-colon token is only then reported
    let result = to_json_string(r#"{"a" 1 2}"#.to_string());
    assert_eq!(Err("Unexpected consumed up Token".to_string()), result);
}

#[test]
fn object_unclosed_after_comma() {
    // the stream ends right after the comma: the object was never terminated
    let result = to_json_string(r#"{"a":1,"#.to_string());
    assert_eq!(Err("Un closed Token".to_string()), result);
    let data = vec![
        Token::OpenBrace,
        Token::StringValue("a".to_string()),
        Token::Colon,
        Token::Number("1".to_string()),
        Token::Comma,
    ];
    let mut parser = Parser::new(&data);
    assert_eq!(Err(ParseError::UnClosedToken), parser.parse());
}

#[test]
fn trailing_comma_invisible_at_parser_level() {
    // the cursor stands just past the opening brace
    let with_comma = vec![
        Token::StringValue("k".to_string()),
        Token::Colon,
        Token::Number("1".to_string()),
        Token::Comma,
        Token::CloseBrace,
    ];
    let without_comma = vec![
        Token::StringValue("k".to_string()),
        Token::Colon,
        Token::Number("1".to_string()),
        Token::CloseBrace,
    ];
    let mut with_parser = Parser::new(&with_comma);
    let mut without_parser = Parser::new(&without_comma);
    assert_eq!(
        without_parser.parse_object().unwrap(),
        with_parser.parse_object().unwrap()
    );
    // and just past the opening bracket
    let with_comma = vec![
        Token::Number("1".to_string()),
        Token::Comma,
        Token::CloseBracket,
    ];
    let without_comma = vec![Token::Number("1".to_string()), Token::CloseBracket];
    let mut with_parser = Parser::new(&with_comma);
    let mut without_parser = Parser::new(&without_comma);
    assert_eq!(
        without_parser.parse_array().unwrap(),
        with_parser.parse_array().unwrap()
    );
}
