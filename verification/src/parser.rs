//! The parser: a recursive-descent consumer of the token sequence, skipping
//! whitespace, line breaks and comments, producing a [`Node`] tree or a
//! structured parse error.
//!
//! The whole parse is specified by [`spec_parse`] and its helpers, recursive
//! functions over the token-model sequence. The grammar accepts one document
//! value; objects and arrays take comma-separated parts with a tolerated
//! trailing comma. The first error aborts the whole parse.
use crate::node::{
    insert_member, item_views, lemma_item_views_push, lemma_member_views_index, member_views,
    node_view, spec_insert_member, Json, Node,
};
use crate::token::{Token, TokenV};
use vstd::prelude::*;

verus! {

/// A failure of the parse. Every error is terminal: it surfaces at once and
/// no partial tree is returned.
#[derive(Debug)]
pub enum ParseError {
    /// The input holds no grammar token at all.
    NotFoundToken,
    /// A token the grammar forbids at this position, with the reason.
    UnexpectedToken(String),
    /// The token stream ended in the middle of a production.
    UnexpectedConsumedUpToken,
    /// An object or array was never terminated.
    UnClosedToken,
}

/// The mathematical model of a [`ParseError`].
pub ghost enum ParseErrV {
    NotFoundToken,
    UnexpectedToken(Seq<char>),
    UnexpectedConsumedUpToken,
    UnClosedToken,
}

impl View for ParseError {
    type V = ParseErrV;

    open spec fn view(&self) -> ParseErrV {
        match self {
            ParseError::NotFoundToken => ParseErrV::NotFoundToken,
            ParseError::UnexpectedToken(s) => ParseErrV::UnexpectedToken(s@),
            ParseError::UnexpectedConsumedUpToken => ParseErrV::UnexpectedConsumedUpToken,
            ParseError::UnClosedToken => ParseErrV::UnClosedToken,
        }
    }
}

/// The descriptive text for a parse error, as shown to a caller of the
/// whole pipeline.
pub open spec fn parse_error_text(e: ParseErrV) -> Seq<char> {
    match e {
        ParseErrV::NotFoundToken => "Not found token"@,
        ParseErrV::UnexpectedToken(s) => "Unexpected Token: `"@ + s + "`"@,
        ParseErrV::UnexpectedConsumedUpToken => "Unexpected consumed up Token"@,
        ParseErrV::UnClosedToken => "Un closed Token"@,
    }
}

impl ParseError {
    /// Renders the error as descriptive text.
    pub fn message(&self) -> (r: String)
        ensures
            r@ == parse_error_text(self@),
    {
        match self {
            ParseError::NotFoundToken => "Not found token".to_owned(),
            ParseError::UnexpectedToken(s) => {
                let mut m = "Unexpected Token: `".to_owned();
                m.append(s.as_str());
                m.append("`");
                m
            },
            ParseError::UnexpectedConsumedUpToken => "Unexpected consumed up Token".to_owned(),
            ParseError::UnClosedToken => "Un closed Token".to_owned(),
        }
    }
}

impl PartialEq for ParseError {
    /// Two parse errors are equal when they have the same kind and reason.
    fn eq(&self, other: &ParseError) -> (r: bool) {
        match (self, other) {
            (ParseError::NotFoundToken, ParseError::NotFoundToken) => true,
            (ParseError::UnexpectedToken(a), ParseError::UnexpectedToken(b)) => *a == *b,
            (ParseError::UnexpectedConsumedUpToken, ParseError::UnexpectedConsumedUpToken) => true,
            (ParseError::UnClosedToken, ParseError::UnClosedToken) => true,
            _ => false,
        }
    }
}

impl vstd::std_specs::cmp::PartialEqSpecImpl for ParseError {
    open spec fn obeys_eq_spec() -> bool {
        true
    }

    open spec fn eq_spec(&self, other: &ParseError) -> bool {
        self@ == other@
    }
}

/// Whether the token is skipped by the grammar cursor: whitespace, line
/// breaks and comments carry no grammatical meaning.
pub open spec fn is_trivia(t: TokenV) -> bool {
    t is BreakLine || t is WhiteSpaces || t is CommentLine || t is CommentBlock
}

/// The first grammar (non-trivia) token at or after `i`, together with the
/// offset just past it; `None` when only trivia remains.
pub open spec fn spec_next_grammar(ts: Seq<TokenV>, i: int) -> Option<(TokenV, int)>
    decreases ts.len() - i,
{
    if i < 0 || i >= ts.len() {
        None
    } else if is_trivia(ts[i]) {
        spec_next_grammar(ts, i + 1)
    } else {
        Some((ts[i], i + 1))
    }
}

/// A found grammar token lies strictly past where the search started,
/// within the sequence.
pub proof fn lemma_spec_next_grammar_bounds(ts: Seq<TokenV>, i: int)
    ensures
        spec_next_grammar(ts, i) matches Some(p) ==> i < p.1 <= ts.len(),
    decreases ts.len() - i,
{
    if 0 <= i < ts.len() && is_trivia(ts[i]) {
        lemma_spec_next_grammar_bounds(ts, i + 1);
    }
}

/// Parses one value at `i`: a string, number, boolean or null token maps
/// directly to its value; `{` opens an object, `[` an array; anything else,
/// or an exhausted stream, is an error.
pub open spec fn spec_parse_value(ts: Seq<TokenV>, i: int) -> Result<(Json, int), ParseErrV>
    decreases ts.len() - i, 0int,
    via spec_parse_value_decreases
{
    match spec_next_grammar(ts, i) {
        None => Err(ParseErrV::UnexpectedConsumedUpToken),
        Some((t, j)) => match t {
            TokenV::StringValue(s) => Ok((Json::StringValue(s), j)),
            TokenV::Number(s) => Ok((Json::Number(s), j)),
            TokenV::Boolean(b) => Ok((Json::Boolean(b), j)),
            TokenV::Null => Ok((Json::Null, j)),
            TokenV::OpenBrace => match spec_parse_members(ts, j, Seq::empty(), 0) {
                Ok(p) => Ok((Json::Object(p.0), p.1)),
                Err(e) => Err(e),
            },
            TokenV::OpenBracket => match spec_parse_elements(ts, j, Seq::empty(), 0) {
                Ok(p) => Ok((Json::Array(p.0), p.1)),
                Err(e) => Err(e),
            },
            _ => Err(ParseErrV::UnexpectedToken("contains a token other than the value"@)),
        },
    }
}

#[via_fn]
proof fn spec_parse_value_decreases(ts: Seq<TokenV>, i: int) {
    lemma_spec_next_grammar_bounds(ts, i);
}

/// Parses the members of an object whose `{` has been consumed; `acc` holds
/// the members gathered so far and `times` counts them. `}` ends the object
/// at once; after at least one member a comma must separate members, and a
/// comma directly before `}` is tolerated; a key must be a string literal.
/// An exhausted stream means the object was never closed.
pub open spec fn spec_parse_members(
    ts: Seq<TokenV>,
    i: int,
    acc: Seq<(Seq<char>, Json)>,
    times: int,
) -> Result<(Seq<(Seq<char>, Json)>, int), ParseErrV>
    decreases ts.len() - i, 2int,
    via spec_parse_members_decreases
{
    match spec_next_grammar(ts, i) {
        None => Err(ParseErrV::UnClosedToken),
        Some((first, j)) => {
            if first is CloseBrace {
                Ok((acc, j))
            } else if times == 0 {
                match first {
                    TokenV::Comma => Err(ParseErrV::UnexpectedToken("first comma is not allowed"@)),
                    TokenV::StringValue(key) => spec_parse_member_rest(ts, j, acc, times, key),
                    _ => Err(ParseErrV::UnexpectedToken("found a Token that cannot be a key"@)),
                }
            } else {
                match first {
                    TokenV::Comma => match spec_next_grammar(ts, j) {
                        None => Err(ParseErrV::UnClosedToken),
                        Some((second, k)) => match second {
                            TokenV::CloseBrace => Ok((acc, k)),
                            TokenV::StringValue(key) => spec_parse_member_rest(
                                ts,
                                k,
                                acc,
                                times,
                                key,
                            ),
                            _ => Err(
                                ParseErrV::UnexpectedToken("found a Token that cannot be a key"@),
                            ),
                        },
                    },
                    _ => Err(
                        ParseErrV::UnexpectedToken("expected a comma between the members"@),
                    ),
                }
            }
        },
    }
}

#[via_fn]
proof fn spec_parse_members_decreases(
    ts: Seq<TokenV>,
    i: int,
    acc: Seq<(Seq<char>, Json)>,
    times: int,
) {
    lemma_spec_next_grammar_bounds(ts, i);
    if let Some((_, j)) = spec_next_grammar(ts, i) {
        lemma_spec_next_grammar_bounds(ts, j);
    }
}

/// Parses the rest of one object member after its `key`: a colon token is
/// read, the value is parsed, and only then is the read token required to
/// have been the colon. The member is bound into `acc` with last write
/// winning on a duplicate key.
pub open spec fn spec_parse_member_rest(
    ts: Seq<TokenV>,
    i: int,
    acc: Seq<(Seq<char>, Json)>,
    times: int,
    key: Seq<char>,
) -> Result<(Seq<(Seq<char>, Json)>, int), ParseErrV>
    decreases ts.len() - i, 1int,
    via spec_parse_member_rest_decreases
{
    let colon_opt = spec_next_grammar(ts, i);
    let after_colon = match colon_opt {
        None => i,
        Some((_, j)) => j,
    };
    match spec_parse_value(ts, after_colon) {
        Err(e) => Err(e),
        Ok((v, k)) => {
            if colon_opt matches Some((TokenV::Colon, _)) {
                if k <= i || k > ts.len() {
                    // unreachable: a parsed value always advances the cursor
                    Err(ParseErrV::UnClosedToken)
                } else {
                    spec_parse_members(ts, k, spec_insert_member(acc, key, v), times + 1)
                }
            } else {
                Err(ParseErrV::UnexpectedConsumedUpToken)
            }
        },
    }
}

#[via_fn]
proof fn spec_parse_member_rest_decreases(
    ts: Seq<TokenV>,
    i: int,
    acc: Seq<(Seq<char>, Json)>,
    times: int,
    key: Seq<char>,
) {
    lemma_spec_next_grammar_bounds(ts, i);
}

/// Parses the elements of an array whose `[` has been consumed; `acc` holds
/// the elements gathered so far and `times` counts them. `]` ends the array
/// at once; after at least one element a comma must separate elements, and
/// a comma directly before `]` is tolerated. An exhausted stream means the
/// array was never closed.
pub open spec fn spec_parse_elements(
    ts: Seq<TokenV>,
    i: int,
    acc: Seq<Json>,
    times: int,
) -> Result<(Seq<Json>, int), ParseErrV>
    decreases ts.len() - i, 2int,
    via spec_parse_elements_decreases
{
    match spec_next_grammar(ts, i) {
        None => Err(ParseErrV::UnClosedToken),
        Some((first, j)) => {
            if first is CloseBracket {
                Ok((acc, j))
            } else if times == 0 {
                if first is Comma {
                    Err(ParseErrV::UnexpectedToken("first comma is not allowed"@))
                } else {
                    spec_parse_element_value(ts, i, acc, times, first, j)
                }
            } else {
                match first {
                    TokenV::Comma => match spec_next_grammar(ts, j) {
                        None => Err(ParseErrV::UnClosedToken),
                        Some((second, k)) => {
                            if second is CloseBracket {
                                Ok((acc, k))
                            } else {
                                spec_parse_element_value(ts, i, acc, times, second, k)
                            }
                        },
                    },
                    _ => Err(
                        ParseErrV::UnexpectedToken(
                            "found an unexpected token while parsing the array"@,
                        ),
                    ),
                }
            }
        },
    }
}

#[via_fn]
proof fn spec_parse_elements_decreases(ts: Seq<TokenV>, i: int, acc: Seq<Json>, times: int) {
    lemma_spec_next_grammar_bounds(ts, i);
    if let Some((_, j)) = spec_next_grammar(ts, i) {
        lemma_spec_next_grammar_bounds(ts, j);
    }
}

/// Parses one array element from the already-read token `tok` (which sits
/// just before offset `after`, itself past the search start `i`): a scalar
/// token is the element itself, `{` opens a nested object and `[` a nested
/// array; any other token cannot be an element. Then the remaining elements
/// are parsed.
pub open spec fn spec_parse_element_value(
    ts: Seq<TokenV>,
    i: int,
    acc: Seq<Json>,
    times: int,
    tok: TokenV,
    after: int,
) -> Result<(Seq<Json>, int), ParseErrV>
    decreases ts.len() - i, 1int,
{
    if after <= i || after > ts.len() {
        // unreachable: the cursor had already advanced past the token
        Err(ParseErrV::UnClosedToken)
    } else {
        match tok {
            TokenV::StringValue(s) => spec_parse_elements(
                ts,
                after,
                acc.push(Json::StringValue(s)),
                times + 1,
            ),
            TokenV::Number(s) => spec_parse_elements(
                ts,
                after,
                acc.push(Json::Number(s)),
                times + 1,
            ),
            TokenV::Boolean(b) => spec_parse_elements(
                ts,
                after,
                acc.push(Json::Boolean(b)),
                times + 1,
            ),
            TokenV::Null => spec_parse_elements(ts, after, acc.push(Json::Null), times + 1),
            TokenV::OpenBrace => match spec_parse_members(ts, after, Seq::empty(), 0) {
                Err(e) => Err(e),
                Ok((ms, k)) => {
                    if k <= i || k > ts.len() {
                        // unreachable: a parsed object always advances the cursor
                        Err(ParseErrV::UnClosedToken)
                    } else {
                        spec_parse_elements(ts, k, acc.push(Json::Object(ms)), times + 1)
                    }
                },
            },
            TokenV::OpenBracket => match spec_parse_elements(ts, after, Seq::empty(), 0) {
                Err(e) => Err(e),
                Ok((items, k)) => {
                    if k <= i || k > ts.len() {
                        // unreachable: a parsed array always advances the cursor
                        Err(ParseErrV::UnClosedToken)
                    } else {
                        spec_parse_elements(ts, k, acc.push(Json::Array(items)), times + 1)
                    }
                },
            },
            _ => Err(
                ParseErrV::UnexpectedToken("found an unexpected token while parsing the array"@),
            ),
        }
    }
}

/// Parses a whole document from `i`: no grammar token at all is
/// `NotFoundToken`; otherwise exactly one value must span the remaining
/// grammar tokens, and any further grammar token is an error.
pub open spec fn spec_parse(ts: Seq<TokenV>, i: int) -> Result<Json, ParseErrV> {
    if spec_next_grammar(ts, i) is None {
        Err(ParseErrV::NotFoundToken)
    } else {
        match spec_parse_value(ts, i) {
            Err(e) => Err(e),
            Ok((v, j)) => {
                if spec_next_grammar(ts, j) is Some {
                    Err(ParseErrV::UnexpectedToken("contains multiple values"@))
                } else {
                    Ok(v)
                }
            },
        }
    }
}

/// Whether the token is one the grammar cursor skips.
fn token_is_trivia(t: &Token) -> (r: bool)
    ensures
        r == is_trivia(t@),
{
    matches!(
        t,
        Token::BreakLine | Token::WhiteSpaces(_) | Token::CommentLine(_) | Token::CommentBlock(_)
    )
}

/// The parser: a cursor over the token sequence with grammar-skip, driving
/// one recursion frame per nonterminal.
pub struct Parser {
    /// The token sequence being consumed.
    pub tokens: Vec<Token>,
    /// The offset of the next token to read.
    pub pos: usize,
}

impl Parser {
    /// A parser positioned at the start of `tokens`.
    pub fn new(tokens: &Vec<Token>) -> (r: Parser)
        ensures
            r.tokens.deep_view() == tokens.deep_view(),
            r.pos == 0,
    {
        let mut owned: Vec<Token> = Vec::new();
        let n = tokens.len();
        let mut i: usize = 0;
        while i < n
            invariant
                i <= n,
                n == tokens@.len(),
                owned@.len() == i,
                forall|j: int| 0 <= j < i ==> #[trigger] owned@[j]@ == tokens@[j]@,
            decreases n - i,
        {
            owned.push(tokens[i].clone());
            i += 1;
        }
        proof {
            assert(owned.deep_view() =~= tokens.deep_view());
        }
        Parser { tokens: owned, pos: 0 }
    }

    /// Advances to the next grammar token, skipping whitespace, line breaks
    /// and comments, and consumes it; `None` when only trivia remains.
    #[verifier::loop_isolation(false)]
    fn next_grammar(&mut self) -> (r: Option<Token>)
        requires
            old(self).pos <= old(self).tokens@.len(),
        ensures
            final(self).tokens@ == old(self).tokens@,
            final(self).pos <= final(self).tokens@.len(),
            old(self).pos <= final(self).pos,
            match spec_next_grammar(old(self).tokens.deep_view(), old(self).pos as int) {
                Some(p) => r matches Some(t) && t@ == p.0 && final(self).pos as int == p.1
                    && old(self).pos < final(self).pos,
                None => r is None && final(self).pos == final(self).tokens@.len(),
            },
    {
        let ghost tv = self.tokens.deep_view();
        let ghost i0 = self.pos as int;
        loop
            invariant
                self.tokens@ == old(self).tokens@,
                self.tokens.deep_view() == tv,
                i0 <= self.pos as int,
                self.pos <= self.tokens@.len(),
                spec_next_grammar(tv, i0) == spec_next_grammar(tv, self.pos as int),
            decreases self.tokens@.len() - self.pos,
        {
            if self.pos >= self.tokens.len() {
                return None;
            }
            let trivia = token_is_trivia(&self.tokens[self.pos]);
            if trivia {
                self.pos += 1;
            } else {
                let t = self.tokens[self.pos].clone();
                self.pos += 1;
                return Some(t);
            }
        }
    }

    /// Parses one value at the cursor, as [`spec_parse_value`] gives it: a
    /// scalar token maps directly to its value, `{` opens an object, `[` an
    /// array; anything else, or an exhausted stream, is an error.
    pub fn parse_value(&mut self) -> (r: Result<Node, ParseError>)
        requires
            old(self).pos <= old(self).tokens@.len(),
        ensures
            final(self).tokens@ == old(self).tokens@,
            final(self).pos <= final(self).tokens@.len(),
            match spec_parse_value(old(self).tokens.deep_view(), old(self).pos as int) {
                Ok(p) => r matches Ok(n) && node_view(n) == p.0 && final(self).pos as int == p.1
                    && old(self).pos < final(self).pos,
                Err(e) => r matches Err(e2) && e2@ == e,
            },
        decreases self.tokens@.len() - self.pos,
    {
        let t = match self.next_grammar() {
            None => {
                return Err(ParseError::UnexpectedConsumedUpToken);
            },
            Some(t) => t,
        };
        match t {
            Token::StringValue(v) => Ok(Node::StringValue(v)),
            Token::Number(v) => Ok(Node::Number(v)),
            Token::Boolean(v) => Ok(Node::Boolean(v)),
            Token::Null => Ok(Node::Null),
            Token::OpenBrace => self.parse_object(),
            Token::OpenBracket => self.parse_array(),
            _ => Err(ParseError::UnexpectedToken("contains a token other than the value".to_owned())),
        }
    }

    /// Parses the members of an object whose `{` has been consumed, as
    /// [`spec_parse_members`] gives them: `}` ends the object, a comma
    /// separates members (tolerated directly before `}`), keys are string
    /// literals, and each member's value is bound with last write winning.
    #[verifier::loop_isolation(false)]
    pub fn parse_object(&mut self) -> (r: Result<Node, ParseError>)
        requires
            old(self).pos <= old(self).tokens@.len(),
        ensures
            final(self).tokens@ == old(self).tokens@,
            final(self).pos <= final(self).tokens@.len(),
            match spec_parse_members(
                old(self).tokens.deep_view(),
                old(self).pos as int,
                Seq::empty(),
                0,
            ) {
                Ok(p) => r matches Ok(n) && node_view(n) == Json::Object(p.0)
                    && final(self).pos as int == p.1 && old(self).pos < final(self).pos,
                Err(e) => r matches Err(e2) && e2@ == e,
            },
        decreases self.tokens@.len() - self.pos,
    {
        let ghost tv = self.tokens.deep_view();
        let ghost i0 = self.pos as int;
        let mut times: usize = 0;
        let mut member: Vec<(String, Node)> = Vec::new();
        loop
            invariant
                self.tokens@ == old(self).tokens@,
                self.tokens.deep_view() == tv,
                i0 <= self.pos as int,
                self.pos <= self.tokens@.len(),
                times as int <= self.pos as int - i0,
                spec_parse_members(tv, i0, Seq::empty(), 0) == spec_parse_members(
                    tv,
                    self.pos as int,
                    member_views(member@),
                    times as int,
                ),
            decreases self.tokens@.len() - self.pos,
        {
            let ghost p0 = self.pos as int;
            let ghost mv0 = member_views(member@);
            let ghost t0 = times as int;
            let first = match self.next_grammar() {
                None => {
                    return Err(ParseError::UnClosedToken);
                },
                Some(t) => t,
            };
            if matches!(first, Token::CloseBrace) {
                return Ok(Node::Object(member));
            }
            let key: String;
            if times == 0 {
                match first {
                    Token::Comma => {
                        return Err(
                            ParseError::UnexpectedToken("first comma is not allowed".to_owned()),
                        );
                    },
                    Token::StringValue(k) => {
                        key = k;
                    },
                    _ => {
                        return Err(
                            ParseError::UnexpectedToken(
                                "found a Token that cannot be a key".to_owned(),
                            ),
                        );
                    },
                }
            } else {
                match first {
                    Token::Comma => {
                        let second = match self.next_grammar() {
                            None => {
                                return Err(ParseError::UnClosedToken);
                            },
                            Some(t) => t,
                        };
                        if matches!(second, Token::CloseBrace) {
                            return Ok(Node::Object(member));
                        }
                        match second {
                            Token::StringValue(k) => {
                                key = k;
                            },
                            _ => {
                                return Err(
                                    ParseError::UnexpectedToken(
                                        "found a Token that cannot be a key".to_owned(),
                                    ),
                                );
                            },
                        }
                    },
                    _ => {
                        return Err(
                            ParseError::UnexpectedToken(
                                "expected a comma between the members".to_owned(),
                            ),
                        );
                    },
                }
            }
            let ghost rest_i = self.pos as int;
            proof {
                assert(spec_parse_members(tv, p0, mv0, t0) == spec_parse_member_rest(
                    tv,
                    rest_i,
                    mv0,
                    t0,
                    key@,
                ));
            }
            let colon = self.next_grammar();
            let value = match self.parse_value() {
                Ok(v) => v,
                Err(e) => {
                    return Err(e);
                },
            };
            if !matches!(colon, Some(Token::Colon)) {
                return Err(ParseError::UnexpectedConsumedUpToken);
            }
            insert_member(&mut member, key, value);
            times += 1;
        }
    }

    /// Parses the elements of an array whose `[` has been consumed, as
    /// [`spec_parse_elements`] gives them: `]` ends the array, a comma
    /// separates elements (tolerated directly before `]`), and each element
    /// is a scalar token or a nested object or array.
    #[verifier::loop_isolation(false)]
    pub fn parse_array(&mut self) -> (r: Result<Node, ParseError>)
        requires
            old(self).pos <= old(self).tokens@.len(),
        ensures
            final(self).tokens@ == old(self).tokens@,
            final(self).pos <= final(self).tokens@.len(),
            match spec_parse_elements(
                old(self).tokens.deep_view(),
                old(self).pos as int,
                Seq::empty(),
                0,
            ) {
                Ok(p) => r matches Ok(n) && node_view(n) == Json::Array(p.0)
                    && final(self).pos as int == p.1 && old(self).pos < final(self).pos,
                Err(e) => r matches Err(e2) && e2@ == e,
            },
        decreases self.tokens@.len() - self.pos,
    {
        let ghost tv = self.tokens.deep_view();
        let ghost i0 = self.pos as int;
        let mut times: usize = 0;
        let mut result: Vec<Node> = Vec::new();
        loop
            invariant
                self.tokens@ == old(self).tokens@,
                self.tokens.deep_view() == tv,
                i0 <= self.pos as int,
                self.pos <= self.tokens@.len(),
                times as int <= self.pos as int - i0,
                spec_parse_elements(tv, i0, Seq::empty(), 0) == spec_parse_elements(
                    tv,
                    self.pos as int,
                    item_views(result@),
                    times as int,
                ),
            decreases self.tokens@.len() - self.pos,
        {
            let ghost p0 = self.pos as int;
            let ghost mv0 = item_views(result@);
            let ghost t0 = times as int;
            let first = match self.next_grammar() {
                None => {
                    return Err(ParseError::UnClosedToken);
                },
                Some(t) => t,
            };
            if matches!(first, Token::CloseBracket) {
                return Ok(Node::Array(result));
            }
            let value_tok: Token;
            if times == 0 {
                if matches!(first, Token::Comma) {
                    return Err(
                        ParseError::UnexpectedToken("first comma is not allowed".to_owned()),
                    );
                }
                value_tok = first;
            } else {
                match first {
                    Token::Comma => {
                        let second = match self.next_grammar() {
                            None => {
                                return Err(ParseError::UnClosedToken);
                            },
                            Some(t) => t,
                        };
                        if matches!(second, Token::CloseBracket) {
                            return Ok(Node::Array(result));
                        }
                        value_tok = second;
                    },
                    _ => {
                        return Err(
                            ParseError::UnexpectedToken(
                                "found an unexpected token while parsing the array".to_owned(),
                            ),
                        );
                    },
                }
            }
            proof {
                assert(spec_parse_elements(tv, p0, mv0, t0) == spec_parse_element_value(
                    tv,
                    p0,
                    mv0,
                    t0,
                    value_tok@,
                    self.pos as int,
                ));
            }
            let pushed: Node = match value_tok {
                Token::StringValue(s) => Node::StringValue(s),
                Token::Number(s) => Node::Number(s),
                Token::Boolean(b) => Node::Boolean(b),
                Token::Null => Node::Null,
                Token::OpenBrace => {
                    match self.parse_object() {
                        Ok(n) => n,
                        Err(e) => {
                            return Err(e);
                        },
                    }
                },
                Token::OpenBracket => {
                    match self.parse_array() {
                        Ok(n) => n,
                        Err(e) => {
                            return Err(e);
                        },
                    }
                },
                _ => {
                    return Err(
                        ParseError::UnexpectedToken(
                            "found an unexpected token while parsing the array".to_owned(),
                        ),
                    );
                },
            };
            proof {
                lemma_item_views_push(result@, pushed);
            }
            result.push(pushed);
            times += 1;
        }
    }

    /// Parses the whole document, as [`spec_parse`] gives it: the single
    /// value the token sequence holds, or the first parse error. No grammar
    /// token at all is `NotFoundToken`; a grammar token after the value
    /// means the document holds more than one value.
    pub fn parse(&mut self) -> (r: Result<Node, ParseError>)
        requires
            old(self).pos <= old(self).tokens@.len(),
        ensures
            final(self).tokens@ == old(self).tokens@,
            match spec_parse(old(self).tokens.deep_view(), old(self).pos as int) {
                Ok(v) => r matches Ok(n) && node_view(n) == v,
                Err(e) => r matches Err(e2) && e2@ == e,
            },
    {
        let start = self.pos;
        match self.next_grammar() {
            None => {
                return Err(ParseError::NotFoundToken);
            },
            Some(_) => {},
        }
        self.pos = start;
        let result = match self.parse_value() {
            Ok(v) => v,
            Err(e) => {
                return Err(e);
            },
        };
        match self.next_grammar() {
            None => Ok(result),
            Some(_) => Err(ParseError::UnexpectedToken("contains multiple values".to_owned())),
        }
    }
}

} // verus!
