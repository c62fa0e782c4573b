use jsonc::node::Node;
use jsonc::parser::{ParseError, Parser};
use jsonc::token::Token;

fn assert_parse(data: Vec<(Vec<Token>, Node)>) {
    for (tokens, expect) in data.iter() {
        let mut parser = Parser::new(tokens);
        let result = parser.parse();
        match result {
            Ok(node) => assert_eq!(*expect, node),
            Err(e) => panic!("[assert_parse]: {}", e.message()),
        }
    }
}

fn assert_parse_err(data: Vec<Token>, expect: ParseError) {
    let mut parser = Parser::new(&data);
    let result = parser.parse();
    assert!(result.is_err());
    let err = result.err().unwrap();
    assert_eq!(expect, err);
}

#[test]
fn parse_single_value() {
    let data_expect_list = vec![
        (
            vec![Token::StringValue("test".to_string())],
            Node::StringValue("test".to_string()),
        ),
        (
            vec![Token::Number("100".to_string())],
            Node::Number("100".to_string()),
        ),
        (
            vec![
                Token::BreakLine,
                Token::Number("100".to_string()),
                Token::WhiteSpaces(4),
            ],
            Node::Number("100".to_string()),
        ),
        (vec![Token::Boolean(true)], Node::Boolean(true)),
        (vec![Token::Null], Node::Null),
    ];
    assert_parse(data_expect_list);
}

#[test]
fn parse_single_value_no_token_error() {
    let data = vec![];
    let mut parser = Parser::new(&data);
    let result = parser.parse();
    assert!(result.is_err());
    let err = result.err().unwrap();
    assert_eq!(ParseError::NotFoundToken, err)
}

#[test]
fn parse_single_value_error() {
    let data = vec![
        Token::StringValue("test".to_string()),
        Token::StringValue("test".to_string()),
    ];
    assert_parse_err(
        data,
        ParseError::UnexpectedToken("contains multiple values".to_string()),
    );
}

#[test]
fn parse_object_value() {
    let data_expect_list = vec![
        // flat object
        (
            vec![
                Token::OpenBrace,
                Token::BreakLine,
                Token::WhiteSpaces(4),
                Token::StringValue("name".to_string()),
                Token::Colon,
                Token::WhiteSpaces(1),
                Token::StringValue("sato".to_string()),
                Token::Comma,
                Token::BreakLine,
                Token::WhiteSpaces(4),
                Token::StringValue("age".to_string()),
                Token::Colon,
                Token::WhiteSpaces(1),
                Token::Number("20".to_string()),
                Token::BreakLine,
                Token::CloseBrace,
            ],
            Node::Object(vec![
                ("age".to_string(), Node::Number("20".to_string())),
                ("name".to_string(), Node::StringValue("sato".to_string())),
            ]),
        ),
        // nested
        (
            vec![
                Token::OpenBrace,
                Token::StringValue("user".to_string()),
                Token::Colon,
                Token::WhiteSpaces(1),
                Token::OpenBrace,
                Token::StringValue("name".to_string()),
                Token::Colon,
                Token::StringValue("sato".to_string()),
                Token::CloseBrace,
                Token::CloseBrace,
            ],
            Node::Object(vec![(
                "user".to_string(),
                Node::Object(vec![(
                    "name".to_string(),
                    Node::StringValue("sato".to_string()),
                )]),
            )]),
        ),
        // trailing comma
        (
            vec![
                Token::OpenBrace,
                Token::StringValue("name".to_string()),
                Token::Colon,
                Token::WhiteSpaces(1),
                Token::StringValue("sato".to_string()),
                Token::Comma,
                Token::CloseBrace,
            ],
            Node::Object(vec![(
                "name".to_string(),
                Node::StringValue("sato".to_string()),
            )]),
        ),
    ];
    assert_parse(data_expect_list);
}

#[test]
fn parse_object_value_not_closed() {
    let data = vec![
        Token::OpenBrace,
        Token::BreakLine,
        Token::WhiteSpaces(4),
        Token::StringValue("name".to_string()),
        Token::Colon,
        Token::WhiteSpaces(1),
        Token::StringValue("sato".to_string()),
        Token::BreakLine,
        // Token::CloseBrace,
    ];
    assert_parse_err(data, ParseError::UnClosedToken);
}

#[test]
fn parse_object_value_invalid() {
    let data = vec![
        Token::OpenBrace,
        Token::BreakLine,
        Token::WhiteSpaces(4),
        // Token::StringValue("name".to_string()),
        Token::Colon,
        Token::WhiteSpaces(1),
        Token::StringValue("sato".to_string()),
        Token::Comma,
        Token::CloseBrace,
    ];
    assert_parse_err(
        data,
        ParseError::UnexpectedToken("found a Token that cannot be a key".to_string()),
    );
}

#[test]
fn parse_object_value_no_value() {
    let data = vec![
        Token::OpenBrace,
        Token::BreakLine,
        Token::WhiteSpaces(4),
        Token::StringValue("name".to_string()),
        Token::Colon,
        Token::CloseBrace,
    ];

    assert_parse_err(
        data,
        ParseError::UnexpectedToken("contains a token other than the value".to_string()),
    );
}

#[test]
fn parse_array_value() {
    let data_expect_list = vec![
        (
            // has object
            vec![
                Token::OpenBracket,
                Token::BreakLine,
                Token::WhiteSpaces(4),
                Token::StringValue("hoge".to_string()),
                Token::Comma,
                Token::BreakLine,
                Token::WhiteSpaces(4),
                Token::Number("999".to_string()),
                Token::Comma,
                Token::BreakLine,
                Token::WhiteSpaces(4),
                Token::OpenBrace,
                Token::StringValue("name".to_string()),
                Token::Colon,
                Token::StringValue("sato".to_string()),
                Token::CloseBrace,
                Token::Comma,
                Token::BreakLine,
                Token::OpenBracket,
                Token::Number("123".to_string()),
                Token::CloseBracket,
                Token::CloseBracket,
            ],
            Node::Array(vec![
                Node::StringValue("hoge".to_string()),
                Node::Number("999".to_string()),
                Node::Object(vec![(
                    "name".to_string(),
                    Node::StringValue("sato".to_string()),
                )]),
                Node::Array(vec![Node::Number("123".to_string())]),
            ]),
        ),
        // trailing comma
        (
            vec![
                Token::OpenBracket,
                Token::BreakLine,
                Token::WhiteSpaces(4),
                Token::StringValue("hoge".to_string()),
                Token::Comma,
                Token::BreakLine,
                Token::WhiteSpaces(4),
                Token::Number("999".to_string()),
                Token::Comma,
                Token::CloseBracket,
            ],
            Node::Array(vec![
                Node::StringValue("hoge".to_string()),
                Node::Number("999".to_string()),
            ]),
        ),
    ];
    assert_parse(data_expect_list);
}

#[test]
fn parse_array_value_invalid() {
    let data = vec![
        Token::OpenBracket,
        Token::BreakLine,
        Token::WhiteSpaces(4),
        Token::StringValue("hoge".to_string()),
        Token::Comma,
    ];
    assert_parse_err(data, ParseError::UnClosedToken);
}
