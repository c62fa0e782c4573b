//! The lexical token model: tokens, source locations, and lexical errors.
use vstd::prelude::*;

verus! {

/// A `(start, end)` pair of character offsets locating a piece of source
/// text. Offsets count Unicode scalar values, not bytes; `end` is exclusive.
#[derive(Debug, Clone, Copy, PartialEq, Eq, Structural)]
pub struct Location(pub usize, pub usize);

/// One lexical unit of the input text, produced by the lexer in source order.
///
/// `Number` keeps the verbatim source text of the literal so that no
/// floating-point rounding can occur; `StringValue` keeps escape sequences
/// (including `\uXXXX`) unresolved, exactly as written.
#[derive(Debug)]
pub enum Token {
    OpenBrace,
    CloseBrace,
    OpenBracket,
    CloseBracket,
    StringValue(String),
    Number(String),
    Boolean(bool),
    Null,
    CommentLine(String),
    CommentBlock(String),
    Comma,
    Colon,
    WhiteSpaces(usize),
    BreakLine,
}

/// The mathematical model of a [`Token`]: text payloads are character
/// sequences and the whitespace run length is an unbounded integer.
pub ghost enum TokenV {
    OpenBrace,
    CloseBrace,
    OpenBracket,
    CloseBracket,
    StringValue(Seq<char>),
    Number(Seq<char>),
    Boolean(bool),
    Null,
    CommentLine(Seq<char>),
    CommentBlock(Seq<char>),
    Comma,
    Colon,
    WhiteSpaces(int),
    BreakLine,
}

impl View for Token {
    type V = TokenV;

    open spec fn view(&self) -> TokenV {
        match self {
            Token::OpenBrace => TokenV::OpenBrace,
            Token::CloseBrace => TokenV::CloseBrace,
            Token::OpenBracket => TokenV::OpenBracket,
            Token::CloseBracket => TokenV::CloseBracket,
            Token::StringValue(s) => TokenV::StringValue(s@),
            Token::Number(s) => TokenV::Number(s@),
            Token::Boolean(b) => TokenV::Boolean(*b),
            Token::Null => TokenV::Null,
            Token::CommentLine(s) => TokenV::CommentLine(s@),
            Token::CommentBlock(s) => TokenV::CommentBlock(s@),
            Token::Comma => TokenV::Comma,
            Token::Colon => TokenV::Colon,
            Token::WhiteSpaces(n) => TokenV::WhiteSpaces(*n as int),
            Token::BreakLine => TokenV::BreakLine,
        }
    }
}

impl DeepView for Token {
    type V = TokenV;

    open spec fn deep_view(&self) -> TokenV {
        self.view()
    }
}

impl Clone for Token {
    /// Clones the token; the copy carries exactly the same payload.
    fn clone(&self) -> (res: Token)
        ensures
            res@ == self@,
    {
        match self {
            Token::OpenBrace => Token::OpenBrace,
            Token::CloseBrace => Token::CloseBrace,
            Token::OpenBracket => Token::OpenBracket,
            Token::CloseBracket => Token::CloseBracket,
            Token::StringValue(s) => Token::StringValue(s.clone()),
            Token::Number(s) => Token::Number(s.clone()),
            Token::Boolean(b) => Token::Boolean(*b),
            Token::Null => Token::Null,
            Token::CommentLine(s) => Token::CommentLine(s.clone()),
            Token::CommentBlock(s) => Token::CommentBlock(s.clone()),
            Token::Comma => Token::Comma,
            Token::Colon => Token::Colon,
            Token::WhiteSpaces(n) => Token::WhiteSpaces(*n),
            Token::BreakLine => Token::BreakLine,
        }
    }
}

impl PartialEq for Token {
    /// Two tokens are equal when they have the same kind and payload.
    fn eq(&self, other: &Token) -> (r: bool) {
        match (self, other) {
            (Token::OpenBrace, Token::OpenBrace) => true,
            (Token::CloseBrace, Token::CloseBrace) => true,
            (Token::OpenBracket, Token::OpenBracket) => true,
            (Token::CloseBracket, Token::CloseBracket) => true,
            (Token::StringValue(a), Token::StringValue(b)) => *a == *b,
            (Token::Number(a), Token::Number(b)) => *a == *b,
            (Token::Boolean(a), Token::Boolean(b)) => *a == *b,
            (Token::Null, Token::Null) => true,
            (Token::CommentLine(a), Token::CommentLine(b)) => *a == *b,
            (Token::CommentBlock(a), Token::CommentBlock(b)) => *a == *b,
            (Token::Comma, Token::Comma) => true,
            (Token::Colon, Token::Colon) => true,
            (Token::WhiteSpaces(a), Token::WhiteSpaces(b)) => *a == *b,
            (Token::BreakLine, Token::BreakLine) => true,
            _ => false,
        }
    }
}

impl vstd::std_specs::cmp::PartialEqSpecImpl for Token {
    open spec fn obeys_eq_spec() -> bool {
        true
    }

    open spec fn eq_spec(&self, other: &Token) -> bool {
        self@ == other@
    }
}

/// A failure of the lexical scan. Every error aborts the whole tokenize
/// call; no partial token sequence is returned.
#[derive(Debug)]
pub enum LexerError {
    /// A literal was misspelt (`true`, `false`, `null`, or a comment
    /// opener), with the offending text and its location.
    InvalidChars(String, Location),
    /// The input ended before a required terminator was found.
    NotExistTerminalSymbol,
    /// A backslash escape other than the recognized set was seen.
    NotEscapeString,
}

/// The mathematical model of a [`LexerError`]: the offending text together
/// with its start and end offsets as unbounded integers.
pub ghost enum LexErrV {
    InvalidChars(Seq<char>, int, int),
    NotExistTerminalSymbol,
    NotEscapeString,
}

impl View for LexerError {
    type V = LexErrV;

    open spec fn view(&self) -> LexErrV {
        match self {
            LexerError::InvalidChars(s, loc) => LexErrV::InvalidChars(s@, loc.0 as int, loc.1 as int),
            LexerError::NotExistTerminalSymbol => LexErrV::NotExistTerminalSymbol,
            LexerError::NotEscapeString => LexErrV::NotEscapeString,
        }
    }
}

/// The descriptive text for a lexical error, as shown to a caller of the
/// whole pipeline.
pub open spec fn lex_error_text(e: LexErrV) -> Seq<char> {
    match e {
        LexErrV::InvalidChars(s, _start, _end) => "Invalid chars `"@ + s + "`"@,
        LexErrV::NotExistTerminalSymbol => "Not exist terminal symbol char"@,
        LexErrV::NotEscapeString => "Not escape string"@,
    }
}

impl LexerError {
    /// Renders the error as descriptive text.
    pub fn message(&self) -> (r: String)
        ensures
            r@ == lex_error_text(self@),
    {
        match self {
            LexerError::InvalidChars(s, _loc) => {
                let mut m = "Invalid chars `".to_owned();
                m.append(s.as_str());
                m.append("`");
                m
            },
            LexerError::NotExistTerminalSymbol => "Not exist terminal symbol char".to_owned(),
            LexerError::NotEscapeString => "Not escape string".to_owned(),
        }
    }
}

} // verus!
