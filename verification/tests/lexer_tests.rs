use jsonc::lexer::Lexer;
use jsonc::token::Token;

#[test]
fn lexer_should_success_scan() {
    let mut lexer = Lexer::new(
        r#"{
    "name": "sato",
    "age": 20,
    "flag": false,
    "attr": null
    // line
    /**
     * block
     */
}"#,
    );
    let result = lexer.tokenize().expect("lexerは配列を返します。");
    let expected = [
        Token::OpenBrace,
        Token::BreakLine,
        Token::WhiteSpaces(4),
        Token::StringValue("name".to_string()),
        Token::Colon,
        Token::WhiteSpaces(1),
        Token::StringValue("sato".to_string()),
        Token::Comma,
        Token::BreakLine,
        Token::WhiteSpaces(4),
        Token::StringValue("age".to_string()),
        Token::Colon,
        Token::WhiteSpaces(1),
        Token::Number("20".to_string()),
        Token::Comma,
        Token::BreakLine,
        Token::WhiteSpaces(4),
        Token::StringValue("flag".to_string()),
        Token::Colon,
        Token::WhiteSpaces(1),
        Token::Boolean(false),
        Token::Comma,
        Token::BreakLine,
        Token::WhiteSpaces(4),
        Token::StringValue("attr".to_string()),
        Token::Colon,
        Token::WhiteSpaces(1),
        Token::Null,
        Token::BreakLine,
        Token::WhiteSpaces(4),
        Token::CommentLine(" line".to_string()),
        Token::BreakLine,
        Token::WhiteSpaces(4),
        Token::CommentBlock(
            r#"*
     * block
     "#
            .to_string(),
        ),
        Token::BreakLine,
        Token::CloseBrace,
    ];
    for (index, expect) in expected.iter().enumerate() {
        assert_eq!(expect, &result[index], "tokenの{}番目が想定外です。", index,);
    }
    assert_eq!(36, result.len(), "token配列長が想定外です。");
}

#[test]
fn scan_string_token_should_return_token() {
    let mut lexer = Lexer::new(r#""name123""#);
    // 最初の"まで進める
    lexer.pos += 1;
    let token = lexer
        .scan_string_token()
        .expect("[scan_string_token_should_return_token]\"name\"のscanに失敗しました。");
    assert_eq!(Token::StringValue("name123".to_string()), token);

    let mut lexer = Lexer::new(r#""あいうえお""#);
    // 最初の"まで進める
    lexer.pos += 1;
    let token = lexer
        .scan_string_token()
        .expect("[scan_string_token_should_return_token]\"あいうえお\"のscanに失敗しました。");
    assert_eq!(Token::StringValue("あいうえお".to_string()), token);

    let mut lexer = Lexer::new(r#""\u3042\u3044\u3046abc""#);
    // 最初の"まで進める
    lexer.pos += 1;
    let token = lexer
        .scan_string_token()
        .expect("[scan_string_token_should_return_token]\"あいうabc\"のscanに失敗しました。");
    assert_eq!(
        Token::StringValue("\\u3042\\u3044\\u3046abc".to_string()),
        token
    );

    let mut lexer = Lexer::new(r#""\ud83d\ude00\ud83d\udc4d""#);
    // 最初の"まで進める
    lexer.pos += 1;
    let token = lexer
        .scan_string_token()
        .expect("[scan_string_token_should_return_token]\"😀👍\"のscanに失敗しました。");
    assert_eq!(
        Token::StringValue("\\ud83d\\ude00\\ud83d\\udc4d".to_string()),
        token
    );

    let mut lexer = Lexer::new(r#""😀👍""#);
    // 最初の"まで進める
    lexer.pos += 1;
    let token = lexer
        .scan_string_token()
        .expect("[scan_string_token_should_return_token]\"😀👍\"のscanに失敗しました。");
    assert_eq!(Token::StringValue("😀👍".to_string()), token);

    let mut lexer = Lexer::new(r#""test\"\/\\\b\n\f\r\t""#);
    // 最初の"まで進める
    lexer.pos += 1;
    let token = lexer
        .scan_string_token()
        .expect(r#"[scan_string_token_should_return_token]"test\"\/\\\b\n\f\r\t""のscanに失敗しました。"#);
    assert_eq!(
        Token::StringValue(r#"test\"\/\\\b\n\f\r\t"#.to_string()),
        token
    );
}

#[test]
fn scan_string_token_should_err() {
    // 部分的なテストのためのinvalid json
    let mut lexer = Lexer::new("name");
    assert!(lexer.scan_string_token().is_err());
}

#[test]
fn scan_number_token_should_return_token() {
    // 部分的なテストのためのinvalid json
    let mut lexer = Lexer::new(":100,");
    // 最初の`"`まで進める
    lexer.pos += 1;
    let first = lexer.input[lexer.pos];
    lexer.pos += 1;
    if let Ok(token) = lexer.scan_number_token(first) {
        assert_eq!(Token::Number("100".to_string()), token);
    } else {
        panic!("[scan_string_token]がErrを返しました。");
    };
}

#[test]
fn scan_number_token_should_err() {
    // 部分的なテストのためのinvalid json
    let mut lexer = Lexer::new(":100");
    // 最初の`"`まで進める
    lexer.pos += 1;
    let first = lexer.input[lexer.pos];
    lexer.pos += 1;
    assert!(lexer.scan_number_token(first).is_err());
}

#[test]
fn scan_bool_token_should_return_true_token() {
    // 部分的なテストのためのinvalid json
    let mut lexer = Lexer::new(":true,");
    // 最初の`t`まで進める
    lexer.pos += 1;
    let index = lexer.pos;
    lexer.pos += 1;
    if let Ok(token) = lexer.scan_bool_token(true, index) {
        assert_eq!(Token::Boolean(true), token);
    } else {
        panic!("[scan_string_token]がErrを返しました。");
    };
}

#[test]
fn scan_bool_token_should_err_with_true() {
    // 部分的なテストのためのinvalid json
    let mut lexer = Lexer::new(":tru");
    // 最初の`t`まで進める
    lexer.pos += 1;
    let index = lexer.pos;
    lexer.pos += 1;
    assert!(lexer.scan_bool_token(true, index).is_err());
}

#[test]
fn scan_bool_token_should_return_false_token() {
    // 部分的なテストのためのinvalid json
    let mut lexer = Lexer::new(":false,");
    // 最初の`f`まで進める
    lexer.pos += 1;
    let index = lexer.pos;
    lexer.pos += 1;
    if let Ok(token) = lexer.scan_bool_token(false, index) {
        assert_eq!(Token::Boolean(false), token);
    } else {
        panic!("[scan_bool_token]がErrを返しました。");
    };
}

#[test]
fn scan_bool_token_should_err_with_false() {
    // 部分的なテストのためのinvalid json
    let mut lexer = Lexer::new(":fal");
    // 最初の`f`まで進める
    lexer.pos += 1;
    let index = lexer.pos;
    lexer.pos += 1;
    assert!(lexer.scan_bool_token(false, index).is_err());
}

#[test]
fn scan_null_token_should_return_token() {
    // 部分的なテストのためのinvalid json
    let mut lexer = Lexer::new(":null,");
    // 最初の`f`まで進める
    lexer.pos += 1;
    let index = lexer.pos;
    lexer.pos += 1;
    if let Ok(token) = lexer.scan_null_token(index) {
        assert_eq!(Token::Null, token);
    } else {
        panic!("[scan_null_token]がErrを返しました。");
    };
}

#[test]
fn scan_null_token_should_err() {
    // 部分的なテストのためのinvalid json
    let mut lexer = Lexer::new(":nu");
    // 最初の`n`まで進める
    lexer.pos += 1;
    let index = lexer.pos;
    lexer.pos += 1;
    assert!(lexer.scan_null_token(index).is_err());
}

#[test]
fn scan_comment_line_token_should_return_token() {
    // 部分的なテストのためのinvalid json
    let mut lexer = Lexer::new(",// comment \n}");
    // 最初の`/`まで進める
    lexer.pos += 1;
    lexer.pos += 1;
    if let Ok(token) = lexer.scan_comment_token() {
        assert_eq!(Token::CommentLine(" comment ".to_string()), token);
    } else {
        panic!("[scan_comment_token]がErrを返しました。");
    };
}

#[test]
fn scan_comment_block_token_should_return_token() {
    // 部分的なテストのためのinvalid json
    let mut lexer = Lexer::new(
        r#"/*
**
test comment
**
*/"#,
    );
    // 最初の`/`まで進める
    lexer.pos += 1;
    if let Ok(token) = lexer.scan_comment_token() {
        assert_eq!(
            Token::CommentBlock(
                r#"
**
test comment
**
"#
                .to_string()
            ),
            token
        );
    } else {
        panic!("[scan_comment_token]がErrを返しました。");
    };
}

#[test]
fn scan_comment_token_should_err() {
    // 部分的なテストのためのinvalid json
    let mut lexer = Lexer::new("/,");
    lexer.pos += 1;
    assert!(lexer.scan_comment_token().is_err());
}

#[test]
fn scan_whitespaces_token_should_return_token() {
    // 部分的なテストのためのinvalid json
    let mut lexer = Lexer::new(r#"   ""#);
    // 最初の` `まで進める
    lexer.pos += 1;
    if let Ok(token) = lexer.scan_whitespaces() {
        assert_eq!(Token::WhiteSpaces(3), token);
    } else {
        panic!("[scan_whitespaces]がErrを返しました。");
    };
}

#[test]
fn scan_whitespaces_token_should_err() {
    // 部分的なテストのためのinvalid json
    let mut lexer = Lexer::new(r#"  "#);
    lexer.pos += 1;
    assert!(lexer.scan_whitespaces().is_err());
}
