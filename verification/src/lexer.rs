//! The lexer: a single forward pass over the character stream producing an
//! ordered token sequence, or a lexical error.
//!
//! The whole pass is specified by [`spec_lex`], a recursive function over the
//! character sequence; each scanner has a matching `spec_scan_*` function.
//! Offsets count Unicode scalar values. A scan error aborts the entire
//! tokenize call: no partial token sequence is ever returned.
use crate::token::{LexErrV, LexerError, Location, Token, TokenV};
use crate::utils::{is_number_token_char, spec_is_number_token_char};
use vstd::prelude::*;

verus! {

/// Whether `c` may follow a backslash as a one-character escape. The escape
/// is stored unresolved, as the two-character sequence.
pub open spec fn is_simple_escape_char(c: char) -> bool {
    c == '"' || c == '\\' || c == '/' || c == 'b' || c == 'f' || c == 'n' || c == 'r' || c == 't'
}

/// The offset reached after taking up to `n` characters starting at `i`:
/// the take stops early at the end of the input.
pub open spec fn spec_take_end(s: Seq<char>, i: int, n: int) -> int {
    if i + n <= s.len() {
        i + n
    } else {
        s.len() as int
    }
}

/// The end offset recorded in an error location: `index + take`, saturating
/// at the largest representable offset.
pub open spec fn spec_loc_end(index: int, take: int) -> int {
    if index + take <= usize::MAX as int {
        index + take
    } else {
        usize::MAX as int
    }
}

/// Scans the body of a string literal. `i` is the offset of the next unread
/// character (just past the opening quote at the first call) and `acc` is the
/// text gathered so far. Escapes are stored unresolved: a recognized
/// one-character escape as its two-character sequence, and `\u` together with
/// the four characters that follow it, verbatim. On success, returns the
/// stored text and the offset just past the closing quote.
pub open spec fn spec_scan_string(s: Seq<char>, i: int, acc: Seq<char>) -> Result<
    (Seq<char>, int),
    LexErrV,
>
    decreases s.len() - i,
{
    if i < 0 || i >= s.len() {
        Err(LexErrV::NotExistTerminalSymbol)
    } else if s[i] == '"' {
        Ok((acc, i + 1))
    } else if s[i] == '\\' {
        if i + 1 >= s.len() {
            Err(LexErrV::NotExistTerminalSymbol)
        } else if s[i + 1] == 'u' {
            if i + 6 <= s.len() {
                spec_scan_string(s, i + 6, acc + seq!['\\', 'u'] + s.subrange(i + 2, i + 6))
            } else {
                Err(LexErrV::NotExistTerminalSymbol)
            }
        } else if is_simple_escape_char(s[i + 1]) {
            spec_scan_string(s, i + 2, acc + seq!['\\', s[i + 1]])
        } else {
            Err(LexErrV::NotEscapeString)
        }
    } else {
        spec_scan_string(s, i + 1, acc.push(s[i]))
    }
}

/// A successful string scan ends strictly past where it started and within
/// the input.
pub proof fn lemma_spec_scan_string_bounds(s: Seq<char>, i: int, acc: Seq<char>)
    ensures
        spec_scan_string(s, i, acc) matches Ok(p) ==> i < p.1 <= s.len(),
    decreases s.len() - i,
{
    if 0 <= i < s.len() {
        if s[i] == '"' {
        } else if s[i] == '\\' {
            if i + 1 < s.len() {
                if s[i + 1] == 'u' {
                    if i + 6 <= s.len() {
                        lemma_spec_scan_string_bounds(
                            s,
                            i + 6,
                            acc + seq!['\\', 'u'] + s.subrange(i + 2, i + 6),
                        );
                    }
                } else if is_simple_escape_char(s[i + 1]) {
                    lemma_spec_scan_string_bounds(s, i + 2, acc + seq!['\\', s[i + 1]]);
                }
            }
        } else {
            lemma_spec_scan_string_bounds(s, i + 1, acc.push(s[i]));
        }
    }
}

/// Scans the continuation of a number literal: characters of the number
/// class are consumed greedily, and the scan stops at the first character
/// outside the class without consuming it. Reaching the end of the input
/// mid-scan is an error.
pub open spec fn spec_scan_number(s: Seq<char>, i: int, acc: Seq<char>) -> Result<
    (Seq<char>, int),
    LexErrV,
>
    decreases s.len() - i,
{
    if i < 0 || i >= s.len() {
        Err(LexErrV::NotExistTerminalSymbol)
    } else if spec_is_number_token_char(s[i]) {
        spec_scan_number(s, i + 1, acc.push(s[i]))
    } else {
        Ok((acc, i))
    }
}

/// A successful number scan ends at or past where it started, within the
/// input.
pub proof fn lemma_spec_scan_number_bounds(s: Seq<char>, i: int, acc: Seq<char>)
    ensures
        spec_scan_number(s, i, acc) matches Ok(p) ==> i <= p.1 <= s.len(),
    decreases s.len() - i,
{
    if 0 <= i < s.len() && spec_is_number_token_char(s[i]) {
        lemma_spec_scan_number_bounds(s, i + 1, acc.push(s[i]));
    }
}

/// Scans a `true` or `false` literal whose first character (chosen by
/// `expect_bool`) has already been consumed at offset `index`; `i` is the
/// offset after it. Exactly three (for `true`) or four (for `false`) further
/// characters are taken; any other spelling is an error located at
/// `(index, index + take)`.
pub open spec fn spec_scan_bool(s: Seq<char>, i: int, expect_bool: bool, index: int) -> Result<
    (TokenV, int),
    LexErrV,
> {
    let take = if expect_bool {
        3int
    } else {
        4int
    };
    let end = spec_take_end(s, i, take);
    let word = (if expect_bool {
        "t"@
    } else {
        "f"@
    }) + s.subrange(i, end);
    if word == "true"@ {
        Ok((TokenV::Boolean(true), end))
    } else if word == "false"@ {
        Ok((TokenV::Boolean(false), end))
    } else {
        Err(LexErrV::InvalidChars(word, index, spec_loc_end(index, take)))
    }
}

/// Scans a `null` literal whose `n` has already been consumed at offset
/// `index`; `i` is the offset after it. Exactly three further characters are
/// taken; any other spelling is an error located at `(index, index + 3)`.
pub open spec fn spec_scan_null(s: Seq<char>, i: int, index: int) -> Result<
    (TokenV, int),
    LexErrV,
> {
    let end = spec_take_end(s, i, 3);
    let word = "n"@ + s.subrange(i, end);
    if word == "null"@ {
        Ok((TokenV::Null, end))
    } else {
        Err(LexErrV::InvalidChars(word, index, spec_loc_end(index, 3)))
    }
}

/// Scans a run of spaces, `count` of which have been consumed already. The
/// scan stops at the first non-space without consuming it; reaching the end
/// of the input mid-run is an error.
pub open spec fn spec_scan_ws(s: Seq<char>, i: int, count: int) -> Result<(TokenV, int), LexErrV>
    decreases s.len() - i,
{
    if i < 0 || i >= s.len() {
        Err(LexErrV::NotExistTerminalSymbol)
    } else if s[i] == ' ' {
        spec_scan_ws(s, i + 1, count + 1)
    } else {
        Ok((TokenV::WhiteSpaces(count), i))
    }
}

/// A successful whitespace scan ends at or past where it started, within the
/// input.
pub proof fn lemma_spec_scan_ws_bounds(s: Seq<char>, i: int, count: int)
    ensures
        spec_scan_ws(s, i, count) matches Ok(p) ==> i <= p.1 <= s.len(),
    decreases s.len() - i,
{
    if 0 <= i < s.len() && s[i] == ' ' {
        lemma_spec_scan_ws_bounds(s, i + 1, count + 1);
    }
}

/// Scans the body of a line comment: everything up to, and not including,
/// the next line break. Reaching the end of the input first is an error.
pub open spec fn spec_scan_line(s: Seq<char>, i: int, acc: Seq<char>) -> Result<
    (Seq<char>, int),
    LexErrV,
>
    decreases s.len() - i,
{
    if i < 0 || i >= s.len() {
        Err(LexErrV::NotExistTerminalSymbol)
    } else if s[i] == '\n' {
        Ok((acc, i))
    } else {
        spec_scan_line(s, i + 1, acc.push(s[i]))
    }
}

/// A successful line-comment scan ends at or past where it started, within
/// the input.
pub proof fn lemma_spec_scan_line_bounds(s: Seq<char>, i: int, acc: Seq<char>)
    ensures
        spec_scan_line(s, i, acc) matches Ok(p) ==> i <= p.1 <= s.len(),
    decreases s.len() - i,
{
    if 0 <= i < s.len() && s[i] != '\n' {
        lemma_spec_scan_line_bounds(s, i + 1, acc.push(s[i]));
    }
}

/// Scans the body of a block comment. `value` is the body gathered so far,
/// `buf` holds a pending run of asterisks, and `prev` records whether the
/// previous character was an asterisk. A `/` right after an asterisk closes
/// the comment; the pending run that closed it is not part of the body, while
/// asterisk runs followed by anything else are flushed into the body. A `/`
/// not preceded by an asterisk is dropped. Reaching the end of the input
/// before the terminator is an error.
pub open spec fn spec_scan_block(
    s: Seq<char>,
    i: int,
    value: Seq<char>,
    buf: Seq<char>,
    prev: bool,
) -> Result<(Seq<char>, int), LexErrV>
    decreases s.len() - i,
{
    if i < 0 || i >= s.len() {
        Err(LexErrV::NotExistTerminalSymbol)
    } else if s[i] == '*' {
        spec_scan_block(s, i + 1, value, buf.push('*'), true)
    } else if s[i] == '/' {
        if prev {
            Ok((value, i + 1))
        } else {
            spec_scan_block(s, i + 1, value, buf, prev)
        }
    } else {
        spec_scan_block(
            s,
            i + 1,
            (if prev {
                value + buf
            } else {
                value
            }).push(s[i]),
            if prev {
                Seq::empty()
            } else {
                buf
            },
            false,
        )
    }
}

/// A successful block-comment scan ends strictly past where it started,
/// within the input.
pub proof fn lemma_spec_scan_block_bounds(
    s: Seq<char>,
    i: int,
    value: Seq<char>,
    buf: Seq<char>,
    prev: bool,
)
    ensures
        spec_scan_block(s, i, value, buf, prev) matches Ok(p) ==> i < p.1 <= s.len(),
    decreases s.len() - i,
{
    if 0 <= i < s.len() {
        if s[i] == '*' {
            lemma_spec_scan_block_bounds(s, i + 1, value, buf.push('*'), true);
        } else if s[i] == '/' {
            if !prev {
                lemma_spec_scan_block_bounds(s, i + 1, value, buf, prev);
            }
        } else {
            lemma_spec_scan_block_bounds(
                s,
                i + 1,
                (if prev {
                    value + buf
                } else {
                    value
                }).push(s[i]),
                if prev {
                    Seq::empty()
                } else {
                    buf
                },
                false,
            );
        }
    }
}

/// Scans a comment whose opening `/` has already been consumed; `i` is the
/// offset of the character after it. `//` starts a line comment, `/*` a
/// block comment; any other follower is an error located at `(i, i + 1)`,
/// and a missing follower means the input ended too early.
pub open spec fn spec_scan_comment(s: Seq<char>, i: int) -> Result<(TokenV, int), LexErrV> {
    if i < 0 || i >= s.len() {
        Err(LexErrV::NotExistTerminalSymbol)
    } else if s[i] == '/' {
        match spec_scan_line(s, i + 1, Seq::empty()) {
            Ok(p) => Ok((TokenV::CommentLine(p.0), p.1)),
            Err(e) => Err(e),
        }
    } else if s[i] == '*' {
        match spec_scan_block(s, i + 1, Seq::empty(), Seq::empty(), false) {
            Ok(p) => Ok((TokenV::CommentBlock(p.0), p.1)),
            Err(e) => Err(e),
        }
    } else {
        Err(LexErrV::InvalidChars(seq!['/', s[i]], i, i + 1))
    }
}

/// A successful comment scan ends strictly past where it started, within the
/// input.
pub proof fn lemma_spec_scan_comment_bounds(s: Seq<char>, i: int)
    ensures
        spec_scan_comment(s, i) matches Ok(p) ==> i < p.1 <= s.len(),
{
    if 0 <= i < s.len() {
        if s[i] == '/' {
            lemma_spec_scan_line_bounds(s, i + 1, Seq::empty());
        } else if s[i] == '*' {
            lemma_spec_scan_block_bounds(s, i + 1, Seq::empty(), Seq::empty(), false);
        }
    }
}

/// Prepends a token to the outcome of lexing the rest of the input; an error
/// in the rest is the error of the whole.
pub open spec fn lex_cons(t: TokenV, rest: Result<Seq<TokenV>, LexErrV>) -> Result<
    Seq<TokenV>,
    LexErrV,
> {
    match rest {
        Ok(ts) => Ok(seq![t] + ts),
        Err(e) => Err(e),
    }
}

/// Prepends the already-produced tokens to the outcome of lexing the rest of
/// the input; an error in the rest is the error of the whole.
pub open spec fn lex_app(done: Seq<TokenV>, rest: Result<Seq<TokenV>, LexErrV>) -> Result<
    Seq<TokenV>,
    LexErrV,
> {
    match rest {
        Ok(ts) => Ok(done + ts),
        Err(e) => Err(e),
    }
}

/// The token sequence produced from `s` starting at offset `i`, or the first
/// lexical error. One character dispatches each step: structural characters
/// become one-character tokens, `"` starts a string scan, a number-class
/// character starts a number scan, `t`/`f`/`n` start literal scans, `/` a
/// comment scan, a space a whitespace run, `\n` a line-break token, and any
/// other character is dropped silently.
pub open spec fn spec_lex(s: Seq<char>, i: int) -> Result<Seq<TokenV>, LexErrV>
    decreases s.len() - i,
    via spec_lex_decreases
{
    if i < 0 || i >= s.len() {
        Ok(Seq::empty())
    } else {
        let c = s[i];
        if c == '{' {
            lex_cons(TokenV::OpenBrace, spec_lex(s, i + 1))
        } else if c == '}' {
            lex_cons(TokenV::CloseBrace, spec_lex(s, i + 1))
        } else if c == '[' {
            lex_cons(TokenV::OpenBracket, spec_lex(s, i + 1))
        } else if c == ']' {
            lex_cons(TokenV::CloseBracket, spec_lex(s, i + 1))
        } else if c == '"' {
            match spec_scan_string(s, i + 1, Seq::empty()) {
                Ok(p) => lex_cons(TokenV::StringValue(p.0), spec_lex(s, p.1)),
                Err(e) => Err(e),
            }
        } else if spec_is_number_token_char(c) {
            match spec_scan_number(s, i + 1, seq![c]) {
                Ok(p) => lex_cons(TokenV::Number(p.0), spec_lex(s, p.1)),
                Err(e) => Err(e),
            }
        } else if c == 't' {
            match spec_scan_bool(s, i + 1, true, i) {
                Ok(p) => lex_cons(p.0, spec_lex(s, p.1)),
                Err(e) => Err(e),
            }
        } else if c == 'f' {
            match spec_scan_bool(s, i + 1, false, i) {
                Ok(p) => lex_cons(p.0, spec_lex(s, p.1)),
                Err(e) => Err(e),
            }
        } else if c == 'n' {
            match spec_scan_null(s, i + 1, i) {
                Ok(p) => lex_cons(p.0, spec_lex(s, p.1)),
                Err(e) => Err(e),
            }
        } else if c == ':' {
            lex_cons(TokenV::Colon, spec_lex(s, i + 1))
        } else if c == ',' {
            lex_cons(TokenV::Comma, spec_lex(s, i + 1))
        } else if c == '/' {
            match spec_scan_comment(s, i + 1) {
                Ok(p) => lex_cons(p.0, spec_lex(s, p.1)),
                Err(e) => Err(e),
            }
        } else if c == ' ' {
            match spec_scan_ws(s, i + 1, 1) {
                Ok(p) => lex_cons(p.0, spec_lex(s, p.1)),
                Err(e) => Err(e),
            }
        } else if c == '\n' {
            lex_cons(TokenV::BreakLine, spec_lex(s, i + 1))
        } else {
            spec_lex(s, i + 1)
        }
    }
}

#[via_fn]
proof fn spec_lex_decreases(s: Seq<char>, i: int) {
    if 0 <= i < s.len() {
        lemma_spec_scan_string_bounds(s, i + 1, Seq::empty());
        lemma_spec_scan_number_bounds(s, i + 1, seq![s[i]]);
        lemma_spec_scan_ws_bounds(s, i + 1, 1);
        lemma_spec_scan_comment_bounds(s, i + 1);
    }
}

/// Appending one produced token to the done side of [`lex_app`] commutes
/// with [`lex_cons`] on the pending side.
pub proof fn lemma_lex_app_push(done: Seq<TokenV>, t: TokenV, rest: Result<Seq<TokenV>, LexErrV>)
    ensures
        lex_app(done, lex_cons(t, rest)) == lex_app(done.push(t), rest),
{
    match rest {
        Ok(ts) => {
            assert(done + (seq![t] + ts) =~= done.push(t) + ts);
        },
        Err(_) => {},
    }
}

/// Relies on `String: FromIterator<char>` (`collect`): the string built from
/// a sequence of characters consists of exactly those characters, in order.
#[verifier::external_body]
fn chars_to_string(chars: &Vec<char>) -> (r: String)
    ensures
        r@ == chars@,
{
    chars.iter().collect()
}

/// The end offset recorded in an error location, saturating instead of
/// overflowing.
fn loc_end(index: usize, take: usize) -> (r: usize)
    ensures
        r as int == spec_loc_end(index as int, take as int),
{
    if index <= usize::MAX - take {
        index + take
    } else {
        usize::MAX
    }
}

/// The lexer: an explicit cursor over the input characters with one
/// character of lookahead and no backtracking.
pub struct Lexer {
    /// The input text as a sequence of Unicode scalar values.
    pub input: Vec<char>,
    /// The offset of the next character to read.
    pub pos: usize,
}

impl Lexer {
    /// A lexer positioned at the start of `input`.
    pub fn new(input: &str) -> (r: Lexer)
        ensures
            r.input@ == input@,
            r.pos == 0,
    {
        let n = input.unicode_len();
        let mut chars: Vec<char> = Vec::new();
        let mut i: usize = 0;
        while i < n
            invariant
                n == input@.len(),
                i <= n,
                chars@ == input@.subrange(0, i as int),
            decreases n - i,
        {
            chars.push(input.get_char(i));
            i += 1;
            proof {
                assert(chars@ =~= input@.subrange(0, i as int));
            }
        }
        proof {
            assert(chars@ =~= input@);
        }
        Lexer { input: chars, pos: 0 }
    }

    /// Takes up to `times` characters starting at the cursor, advancing past
    /// them; fewer are taken when the input ends first.
    pub fn take_chars_with(&mut self, times: usize) -> (r: String)
        requires
            old(self).pos <= old(self).input@.len(),
        ensures
            final(self).input@ == old(self).input@,
            final(self).pos as int == spec_take_end(
                old(self).input@,
                old(self).pos as int,
                times as int,
            ),
            r@ == old(self).input@.subrange(old(self).pos as int, final(self).pos as int),
    {
        let ghost s = self.input@;
        let ghost i0 = self.pos as int;
        let mut chars: Vec<char> = Vec::new();
        let mut taken: usize = 0;
        while taken < times && self.pos < self.input.len()
            invariant
                s == old(self).input@,
                i0 == old(self).pos as int,
                self.input@ == s,
                self.pos <= s.len(),
                taken <= times,
                self.pos as int == i0 + taken,
                chars@ == s.subrange(i0, self.pos as int),
            decreases times - taken,
        {
            chars.push(self.input[self.pos]);
            self.pos += 1;
            taken += 1;
            proof {
                assert(chars@ =~= s.subrange(i0, self.pos as int));
            }
        }
        chars_to_string(&chars)
    }

    /// Scans a string literal after its opening quote has been consumed.
    /// Behaves as [`spec_scan_string`] from the cursor: on success the token
    /// holds the stored text (escapes kept unresolved) and the cursor rests
    /// just past the closing quote.
    pub fn scan_string_token(&mut self) -> (r: Result<Token, LexerError>)
        requires
            old(self).pos <= old(self).input@.len(),
        ensures
            final(self).input@ == old(self).input@,
            old(self).pos <= final(self).pos <= final(self).input@.len(),
            match spec_scan_string(old(self).input@, old(self).pos as int, Seq::empty()) {
                Ok(p) => r matches Ok(t) && t@ == TokenV::StringValue(p.0)
                    && final(self).pos as int == p.1,
                Err(e) => r matches Err(e2) && e2@ == e,
            },
            r matches Err(e) ==> (e@ is NotExistTerminalSymbol
                ==> final(self).pos == final(self).input@.len()),
    {
        let ghost s = self.input@;
        let ghost i0 = self.pos as int;
        let mut acc: Vec<char> = Vec::new();
        loop
            invariant
                s == old(self).input@,
                i0 == old(self).pos as int,
                self.input@ == s,
                i0 <= self.pos as int,
                self.pos <= s.len(),
                spec_scan_string(s, i0, Seq::empty()) == spec_scan_string(
                    s,
                    self.pos as int,
                    acc@,
                ),
            decreases s.len() - self.pos,
        {
            if self.pos >= self.input.len() {
                return Err(LexerError::NotExistTerminalSymbol);
            }
            let ghost p = self.pos as int;
            let c = self.input[self.pos];
            self.pos += 1;
            if c == '"' {
                return Ok(Token::StringValue(chars_to_string(&acc)));
            } else if c == '\\' {
                if self.pos >= self.input.len() {
                    return Err(LexerError::NotExistTerminalSymbol);
                }
                let c2 = self.input[self.pos];
                self.pos += 1;
                if c2 == 'u' {
                    if self.input.len() - self.pos >= 4 {
                        let ghost acc0 = acc@;
                        acc.push('\\');
                        acc.push('u');
                        acc.push(self.input[self.pos]);
                        acc.push(self.input[self.pos + 1]);
                        acc.push(self.input[self.pos + 2]);
                        acc.push(self.input[self.pos + 3]);
                        self.pos += 4;
                        proof {
                            assert(acc@ =~= acc0 + seq!['\\', 'u'] + s.subrange(p + 2, p + 6));
                        }
                    } else {
                        // the input ends inside the escape: the take of four
                        // characters consumes whatever is left
                        self.pos = self.input.len();
                        return Err(LexerError::NotExistTerminalSymbol);
                    }
                } else if c2 == '"' || c2 == '\\' || c2 == '/' || c2 == 'b' || c2 == 'f' || c2
                    == 'n' || c2 == 'r' || c2 == 't' {
                    let ghost acc0 = acc@;
                    acc.push('\\');
                    acc.push(c2);
                    proof {
                        assert(acc@ =~= acc0 + seq!['\\', c2]);
                    }
                } else {
                    return Err(LexerError::NotEscapeString);
                }
            } else {
                acc.push(c);
            }
        }
    }

    /// Scans the continuation of a number literal whose first character
    /// `first` has already been consumed. Behaves as [`spec_scan_number`]
    /// from the cursor: the literal's verbatim text is kept, and the
    /// character that ends it is not consumed.
    pub fn scan_number_token(&mut self, first: char) -> (r: Result<Token, LexerError>)
        requires
            old(self).pos <= old(self).input@.len(),
        ensures
            final(self).input@ == old(self).input@,
            old(self).pos <= final(self).pos <= final(self).input@.len(),
            match spec_scan_number(old(self).input@, old(self).pos as int, seq![first]) {
                Ok(p) => r matches Ok(t) && t@ == TokenV::Number(p.0) && final(self).pos as int
                    == p.1,
                Err(e) => r matches Err(e2) && e2@ == e,
            },
            r is Err ==> final(self).pos == final(self).input@.len(),
    {
        let ghost s = self.input@;
        let ghost i0 = self.pos as int;
        let mut acc: Vec<char> = Vec::new();
        acc.push(first);
        proof {
            assert(acc@ =~= seq![first]);
        }
        loop
            invariant
                s == old(self).input@,
                i0 == old(self).pos as int,
                self.input@ == s,
                i0 <= self.pos as int,
                self.pos <= s.len(),
                spec_scan_number(s, i0, seq![first]) == spec_scan_number(
                    s,
                    self.pos as int,
                    acc@,
                ),
            decreases s.len() - self.pos,
        {
            if self.pos >= self.input.len() {
                return Err(LexerError::NotExistTerminalSymbol);
            }
            let c = self.input[self.pos];
            if is_number_token_char(c) {
                self.pos += 1;
                acc.push(c);
            } else {
                return Ok(Token::Number(chars_to_string(&acc)));
            }
        }
    }

    /// Scans a `true` or `false` literal whose first character sits at
    /// offset `index` and has already been consumed. Behaves as
    /// [`spec_scan_bool`] from the cursor.
    pub fn scan_bool_token(&mut self, expect_bool: bool, index: usize) -> (r: Result<
        Token,
        LexerError,
    >)
        requires
            old(self).pos <= old(self).input@.len(),
        ensures
            final(self).input@ == old(self).input@,
            final(self).pos as int == spec_take_end(
                old(self).input@,
                old(self).pos as int,
                if expect_bool {
                    3int
                } else {
                    4int
                },
            ),
            match spec_scan_bool(
                old(self).input@,
                old(self).pos as int,
                expect_bool,
                index as int,
            ) {
                Ok(p) => r matches Ok(t) && t@ == p.0 && final(self).pos as int == p.1,
                Err(e) => r matches Err(e2) && e2@ == e,
            },
    {
        let take: usize = if expect_bool {
            3
        } else {
            4
        };
        let mut word = if expect_bool {
            "t".to_owned()
        } else {
            "f".to_owned()
        };
        let rest = self.take_chars_with(take);
        word.append(rest.as_str());
        if word == "true".to_owned() {
            Ok(Token::Boolean(true))
        } else if word == "false".to_owned() {
            Ok(Token::Boolean(false))
        } else {
            let end = loc_end(index, take);
            Err(LexerError::InvalidChars(word, Location(index, end)))
        }
    }

    /// Scans a `null` literal whose `n` sits at offset `index` and has
    /// already been consumed. Behaves as [`spec_scan_null`] from the cursor.
    pub fn scan_null_token(&mut self, index: usize) -> (r: Result<Token, LexerError>)
        requires
            old(self).pos <= old(self).input@.len(),
        ensures
            final(self).input@ == old(self).input@,
            final(self).pos as int == spec_take_end(old(self).input@, old(self).pos as int, 3),
            match spec_scan_null(old(self).input@, old(self).pos as int, index as int) {
                Ok(p) => r matches Ok(t) && t@ == p.0 && final(self).pos as int == p.1,
                Err(e) => r matches Err(e2) && e2@ == e,
            },
    {
        let mut word = "n".to_owned();
        let rest = self.take_chars_with(3);
        word.append(rest.as_str());
        if word == "null".to_owned() {
            Ok(Token::Null)
        } else {
            let end = loc_end(index, 3);
            Err(LexerError::InvalidChars(word, Location(index, end)))
        }
    }

    /// Scans a comment after its opening `/` has been consumed. Behaves as
    /// [`spec_scan_comment`] from the cursor: `//` gathers a line comment up
    /// to (not including) the next line break, `/*` gathers a block comment
    /// up to the first `*/`.
    pub fn scan_comment_token(&mut self) -> (r: Result<Token, LexerError>)
        requires
            old(self).pos <= old(self).input@.len(),
        ensures
            final(self).input@ == old(self).input@,
            old(self).pos <= final(self).pos <= final(self).input@.len(),
            match spec_scan_comment(old(self).input@, old(self).pos as int) {
                Ok(p) => r matches Ok(t) && t@ == p.0 && final(self).pos as int == p.1,
                Err(e) => r matches Err(e2) && e2@ == e,
            },
            r matches Err(e) ==> match e@ {
                LexErrV::NotExistTerminalSymbol => final(self).pos == final(self).input@.len(),
                LexErrV::InvalidChars(_, _, _) => final(self).pos as int == old(self).pos as int
                    + 1,
                _ => true,
            },
    {
        let ghost s = self.input@;
        if self.pos >= self.input.len() {
            return Err(LexerError::NotExistTerminalSymbol);
        }
        let second_slash = self.pos;
        let next_char = self.input[self.pos];
        self.pos += 1;
        if next_char == '/' {
            let ghost i1 = self.pos as int;
            let mut acc: Vec<char> = Vec::new();
            loop
                invariant
                    s == old(self).input@,
                    i1 == old(self).pos as int + 1,
                    old(self).pos < s.len(),
                    s[old(self).pos as int] == '/',
                    self.input@ == s,
                    i1 <= self.pos as int,
                    self.pos <= s.len(),
                    spec_scan_line(s, i1, Seq::empty()) == spec_scan_line(
                        s,
                        self.pos as int,
                        acc@,
                    ),
                decreases s.len() - self.pos,
            {
                if self.pos >= self.input.len() {
                    return Err(LexerError::NotExistTerminalSymbol);
                }
                let c = self.input[self.pos];
                if c == '\n' {
                    return Ok(Token::CommentLine(chars_to_string(&acc)));
                }
                self.pos += 1;
                acc.push(c);
            }
        } else if next_char == '*' {
            let ghost i1 = self.pos as int;
            let mut value: Vec<char> = Vec::new();
            let mut buf: Vec<char> = Vec::new();
            let mut prev: bool = false;
            loop
                invariant
                    s == old(self).input@,
                    i1 == old(self).pos as int + 1,
                    old(self).pos < s.len(),
                    s[old(self).pos as int] == '*',
                    self.input@ == s,
                    i1 <= self.pos as int,
                    self.pos <= s.len(),
                    spec_scan_block(s, i1, Seq::empty(), Seq::empty(), false) == spec_scan_block(
                        s,
                        self.pos as int,
                        value@,
                        buf@,
                        prev,
                    ),
                decreases s.len() - self.pos,
            {
                if self.pos >= self.input.len() {
                    return Err(LexerError::NotExistTerminalSymbol);
                }
                let c = self.input[self.pos];
                self.pos += 1;
                if c == '*' {
                    buf.push('*');
                    prev = true;
                } else if c == '/' {
                    if prev {
                        return Ok(Token::CommentBlock(chars_to_string(&value)));
                    }
                } else {
                    if prev {
                        value.append(&mut buf);
                    }
                    value.push(c);
                    prev = false;
                }
            }
        } else {
            let mut text: Vec<char> = Vec::new();
            text.push('/');
            text.push(next_char);
            proof {
                assert(text@ =~= seq!['/', next_char]);
            }
            Err(
                LexerError::InvalidChars(
                    chars_to_string(&text),
                    Location(second_slash, second_slash + 1),
                ),
            )
        }
    }

    /// Scans a run of spaces, one of which (just before the cursor) has
    /// already been consumed. Behaves as [`spec_scan_ws`] from the cursor:
    /// the character that ends the run is not consumed.
    pub fn scan_whitespaces(&mut self) -> (r: Result<Token, LexerError>)
        requires
            1 <= old(self).pos <= old(self).input@.len(),
        ensures
            final(self).input@ == old(self).input@,
            old(self).pos <= final(self).pos <= final(self).input@.len(),
            match spec_scan_ws(old(self).input@, old(self).pos as int, 1) {
                Ok(p) => r matches Ok(t) && t@ == p.0 && final(self).pos as int == p.1,
                Err(e) => r matches Err(e2) && e2@ == e,
            },
            r is Err ==> final(self).pos == final(self).input@.len(),
    {
        let ghost s = self.input@;
        let ghost i0 = self.pos as int;
        let mut length: usize = 1;
        loop
            invariant
                s == old(self).input@,
                i0 == old(self).pos as int,
                1 <= i0,
                self.input@ == s,
                self.pos <= s.len(),
                i0 <= self.pos as int,
                length as int == 1 + self.pos as int - i0,
                spec_scan_ws(s, i0, 1) == spec_scan_ws(s, self.pos as int, length as int),
            decreases s.len() - self.pos,
        {
            if self.pos >= self.input.len() {
                return Err(LexerError::NotExistTerminalSymbol);
            }
            let c = self.input[self.pos];
            if c == ' ' {
                self.pos += 1;
                length += 1;
            } else {
                return Ok(Token::WhiteSpaces(length));
            }
        }
    }

    /// Runs the whole pass from the cursor: the token sequence of the
    /// remaining input, as given by [`spec_lex`], or the first lexical
    /// error. No partial token sequence is returned on failure.
    pub fn tokenize(&mut self) -> (r: Result<Vec<Token>, LexerError>)
        ensures
            final(self).input@ == old(self).input@,
            match spec_lex(old(self).input@, old(self).pos as int) {
                Ok(ts) => r matches Ok(v) && v.deep_view() == ts,
                Err(e) => r matches Err(e2) && e2@ == e,
            },
    {
        let ghost s = self.input@;
        let ghost i0 = self.pos as int;
        let mut tokens: Vec<Token> = Vec::new();
        loop
            invariant
                s == old(self).input@,
                i0 == old(self).pos as int,
                self.input@ == s,
                lex_app(tokens.deep_view(), spec_lex(s, self.pos as int)) == spec_lex(s, i0),
            decreases s.len() - self.pos,
        {
            if self.pos >= self.input.len() {
                proof {
                    assert(tokens.deep_view() + Seq::<TokenV>::empty() =~= tokens.deep_view());
                }
                return Ok(tokens);
            }
            let ghost d0 = tokens.deep_view();
            let index = self.pos;
            let ghost p = index as int;
            let c = self.input[index];
            self.pos = index + 1;
            if c == '{' {
                tokens.push(Token::OpenBrace);
                proof {
                    lemma_lex_app_push(d0, TokenV::OpenBrace, spec_lex(s, p + 1));
                    assert(tokens.deep_view() =~= d0.push(TokenV::OpenBrace));
                }
            } else if c == '}' {
                tokens.push(Token::CloseBrace);
                proof {
                    lemma_lex_app_push(d0, TokenV::CloseBrace, spec_lex(s, p + 1));
                    assert(tokens.deep_view() =~= d0.push(TokenV::CloseBrace));
                }
            } else if c == '[' {
                tokens.push(Token::OpenBracket);
                proof {
                    lemma_lex_app_push(d0, TokenV::OpenBracket, spec_lex(s, p + 1));
                    assert(tokens.deep_view() =~= d0.push(TokenV::OpenBracket));
                }
            } else if c == ']' {
                tokens.push(Token::CloseBracket);
                proof {
                    lemma_lex_app_push(d0, TokenV::CloseBracket, spec_lex(s, p + 1));
                    assert(tokens.deep_view() =~= d0.push(TokenV::CloseBracket));
                }
            } else if c == '"' {
                match self.scan_string_token() {
                    Ok(tok) => {
                        tokens.push(tok);
                        proof {
                            lemma_spec_scan_string_bounds(s, p + 1, Seq::empty());
                            lemma_lex_app_push(d0, tok@, spec_lex(s, self.pos as int));
                            assert(tokens.deep_view() =~= d0.push(tok@));
                        }
                    },
                    Err(e) => {
                        return Err(e);
                    },
                }
            } else if is_number_token_char(c) {
                match self.scan_number_token(c) {
                    Ok(tok) => {
                        tokens.push(tok);
                        proof {
                            lemma_spec_scan_number_bounds(s, p + 1, seq![c]);
                            lemma_lex_app_push(d0, tok@, spec_lex(s, self.pos as int));
                            assert(tokens.deep_view() =~= d0.push(tok@));
                        }
                    },
                    Err(e) => {
                        return Err(e);
                    },
                }
            } else if c == 't' {
                match self.scan_bool_token(true, index) {
                    Ok(tok) => {
                        tokens.push(tok);
                        proof {
                            lemma_lex_app_push(d0, tok@, spec_lex(s, self.pos as int));
                            assert(tokens.deep_view() =~= d0.push(tok@));
                        }
                    },
                    Err(e) => {
                        return Err(e);
                    },
                }
            } else if c == 'f' {
                match self.scan_bool_token(false, index) {
                    Ok(tok) => {
                        tokens.push(tok);
                        proof {
                            lemma_lex_app_push(d0, tok@, spec_lex(s, self.pos as int));
                            assert(tokens.deep_view() =~= d0.push(tok@));
                        }
                    },
                    Err(e) => {
                        return Err(e);
                    },
                }
            } else if c == 'n' {
                match self.scan_null_token(index) {
                    Ok(tok) => {
                        tokens.push(tok);
                        proof {
                            lemma_lex_app_push(d0, tok@, spec_lex(s, self.pos as int));
                            assert(tokens.deep_view() =~= d0.push(tok@));
                        }
                    },
                    Err(e) => {
                        return Err(e);
                    },
                }
            } else if c == ':' {
                tokens.push(Token::Colon);
                proof {
                    lemma_lex_app_push(d0, TokenV::Colon, spec_lex(s, p + 1));
                    assert(tokens.deep_view() =~= d0.push(TokenV::Colon));
                }
            } else if c == ',' {
                tokens.push(Token::Comma);
                proof {
                    lemma_lex_app_push(d0, TokenV::Comma, spec_lex(s, p + 1));
                    assert(tokens.deep_view() =~= d0.push(TokenV::Comma));
                }
            } else if c == '/' {
                match self.scan_comment_token() {
                    Ok(tok) => {
                        tokens.push(tok);
                        proof {
                            lemma_spec_scan_comment_bounds(s, p + 1);
                            lemma_lex_app_push(d0, tok@, spec_lex(s, self.pos as int));
                            assert(tokens.deep_view() =~= d0.push(tok@));
                        }
                    },
                    Err(e) => {
                        return Err(e);
                    },
                }
            } else if c == ' ' {
                match self.scan_whitespaces() {
                    Ok(tok) => {
                        tokens.push(tok);
                        proof {
                            lemma_spec_scan_ws_bounds(s, p + 1, 1);
                            lemma_lex_app_push(d0, tok@, spec_lex(s, self.pos as int));
                            assert(tokens.deep_view() =~= d0.push(tok@));
                        }
                    },
                    Err(e) => {
                        return Err(e);
                    },
                }
            } else if c == '\n' {
                tokens.push(Token::BreakLine);
                proof {
                    lemma_lex_app_push(d0, TokenV::BreakLine, spec_lex(s, p + 1));
                    assert(tokens.deep_view() =~= d0.push(TokenV::BreakLine));
                }
            } else {
                // the character is dropped silently; no token is produced
            }
        }
    }
}

} // verus!
