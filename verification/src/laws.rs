//! Proved properties relating the lexer, the parser and the serializer.
use crate::lexer::{
    is_simple_escape_char, lemma_spec_scan_comment_bounds, lemma_spec_scan_number_bounds,
    lemma_spec_scan_string_bounds, lemma_spec_scan_ws_bounds, lex_app, lex_cons, spec_lex,
    spec_scan_number, spec_scan_string, spec_scan_ws,
};
use crate::node::{
    members_sorted, spec_insert_member, spec_join_members, spec_join_values, spec_to_json, Json,
};
use crate::parser::{
    is_trivia, lemma_spec_next_grammar_bounds, spec_next_grammar, spec_parse, spec_parse_elements,
    spec_parse_element_value, spec_parse_member_rest, spec_parse_members, spec_parse_value,
    ParseErrV,
};
use crate::token::{LexErrV, TokenV};
use crate::spec_to_json_string;
use crate::utils::{
    lemma_seq_lt_transitive, lemma_seq_lt_trichotomy, seq_lt, spec_is_number_token_char,
};
use vstd::prelude::*;

verus! {

/// Whether the token is one scalar literal: a string, number, boolean or
/// null token.
pub open spec fn is_scalar_token(t: TokenV) -> bool {
    t is StringValue || t is Number || t is Boolean || t is Null
}

/// The value a scalar token parses to. Meaningful for scalar tokens only.
pub open spec fn scalar_value(t: TokenV) -> Json {
    match t {
        TokenV::StringValue(s) => Json::StringValue(s),
        TokenV::Number(s) => Json::Number(s),
        TokenV::Boolean(b) => Json::Boolean(b),
        _ => Json::Null,
    }
}

/// A document whose grammar tokens are exactly one scalar literal parses to
/// that scalar value, whatever whitespace, line-break or comment tokens
/// surround it: the grammar cursor skips them all.
pub proof fn lemma_single_scalar_parses(ts: Seq<TokenV>, i: int, t: TokenV, j: int)
    requires
        spec_next_grammar(ts, i) == Some((t, j)),
        spec_next_grammar(ts, j) is None,
        is_scalar_token(t),
    ensures
        spec_parse(ts, i) == Ok::<Json, ParseErrV>(scalar_value(t)),
{
}

/// In an object that already holds at least one member, a single comma
/// directly before the closing brace is tolerated: the object ends with
/// exactly the members it would end with were the comma not there at all.
pub proof fn lemma_object_trailing_comma(
    ts: Seq<TokenV>,
    i: int,
    acc: Seq<(Seq<char>, Json)>,
    times: int,
    j: int,
    k: int,
)
    requires
        times >= 1,
        spec_next_grammar(ts, i) == Some((TokenV::Comma, j)),
        spec_next_grammar(ts, j) == Some((TokenV::CloseBrace, k)),
    ensures
        spec_parse_members(ts, i, acc, times) == Ok::<(Seq<(Seq<char>, Json)>, int), ParseErrV>(
            (acc, k),
        ),
        spec_parse_members(ts, j, acc, times) == Ok::<(Seq<(Seq<char>, Json)>, int), ParseErrV>(
            (acc, k),
        ),
{
}

/// In an array that already holds at least one element, a single comma
/// directly before the closing bracket is tolerated: the array ends with
/// exactly the elements it would end with were the comma not there at all.
pub proof fn lemma_array_trailing_comma(
    ts: Seq<TokenV>,
    i: int,
    acc: Seq<Json>,
    times: int,
    j: int,
    k: int,
)
    requires
        times >= 1,
        spec_next_grammar(ts, i) == Some((TokenV::Comma, j)),
        spec_next_grammar(ts, j) == Some((TokenV::CloseBracket, k)),
    ensures
        spec_parse_elements(ts, i, acc, times) == Ok::<(Seq<Json>, int), ParseErrV>((acc, k)),
        spec_parse_elements(ts, j, acc, times) == Ok::<(Seq<Json>, int), ParseErrV>((acc, k)),
{
}

/// Inside a string literal, `\u` and the four characters after it are
/// stored verbatim, undecoded, exactly as written in the source; surrogate
/// pairs are not merged.
pub proof fn lemma_unicode_escape_verbatim(s: Seq<char>, i: int, acc: Seq<char>)
    requires
        0 <= i,
        i + 6 <= s.len(),
        s[i] == '\\',
        s[i + 1] == 'u',
    ensures
        spec_scan_string(s, i, acc) == spec_scan_string(s, i + 6, acc + s.subrange(i, i + 6)),
{
    assert(acc + seq!['\\', 'u'] + s.subrange(i + 2, i + 6) =~= acc + s.subrange(i, i + 6));
}

/// A string value serializes to exactly its stored text wrapped in double
/// quotes: the text, escape sequences included, is reproduced identically,
/// with no re-escaping.
pub proof fn lemma_string_serialized_verbatim(c: Seq<char>)
    ensures
        spec_to_json(Json::StringValue(c)) == seq!['"'] + c + seq!['"'],
        spec_to_json(Json::StringValue(c)).subrange(1, 1 + c.len() as int) == c,
{
    assert((seq!['"'] + c + seq!['"']).subrange(1, 1 + c.len() as int) =~= c);
}

/// A number scan stores exactly the characters it consumed: the literal's
/// verbatim source text, never a converted numeric value. The scan is
/// maximal: every consumed character is of the number class and the
/// character that ends the scan is not.
pub proof fn lemma_scan_number_verbatim(
    s: Seq<char>,
    i: int,
    acc: Seq<char>,
    text: Seq<char>,
    j: int,
)
    requires
        0 <= i <= s.len(),
        spec_scan_number(s, i, acc) == Ok::<(Seq<char>, int), LexErrV>((text, j)),
    ensures
        i <= j <= s.len(),
        text == acc + s.subrange(i, j),
        forall|k: int| i <= k < j ==> spec_is_number_token_char(s[k]),
        j < s.len() && !spec_is_number_token_char(s[j]),
    decreases s.len() - i,
{
    if i < s.len() && spec_is_number_token_char(s[i]) {
        lemma_scan_number_verbatim(s, i + 1, acc.push(s[i]), text, j);
        assert(acc.push(s[i]) + s.subrange(i + 1, j) =~= acc + s.subrange(i, j));
    } else if i < s.len() {
        assert(acc + s.subrange(i, i) =~= acc);
    }
}

/// A number value serializes to exactly its stored verbatim text,
/// byte-for-byte: trailing zeros and the literal's exact spelling survive.
pub proof fn lemma_number_serialized_verbatim(t: Seq<char>)
    ensures
        spec_to_json(Json::Number(t)) == t,
{
}

/// Whether string-token text re-scans as itself: it decomposes into plain
/// characters (no raw quote, no stray backslash) and complete stored
/// escapes. The lexer only ever produces such text.
pub open spec fn lex_clean(c: Seq<char>) -> bool
    decreases c.len(),
{
    if c.len() == 0 {
        true
    } else if c[0] == '"' {
        false
    } else if c[0] == '\\' {
        if c.len() >= 6 && c[1] == 'u' {
            lex_clean(c.skip(6))
        } else if c.len() >= 2 && is_simple_escape_char(c[1]) {
            lex_clean(c.skip(2))
        } else {
            false
        }
    } else {
        lex_clean(c.skip(1))
    }
}

/// Whether number-token text re-scans as itself: nonempty, with every
/// character in the number class.
pub open spec fn number_wf(t: Seq<char>) -> bool {
    t.len() > 0 && forall|k: int| 0 <= k < t.len() ==> spec_is_number_token_char(t[k])
}

/// Whether a value is in the form the parser itself produces: string
/// contents and object keys re-scan as themselves, number texts are
/// nonempty runs of the number class, and object members are strictly
/// sorted by key.
pub open spec fn json_wf(v: Json) -> bool
    decreases v, 1int,
{
    match v {
        Json::StringValue(c) => lex_clean(c),
        Json::Number(t) => number_wf(t),
        Json::Boolean(_) => true,
        Json::Null => true,
        Json::Object(ms) => members_sorted(ms) && members_wf(ms),
        Json::Array(items) => items_wf(items),
    }
}

/// Whether every element of an array is well-formed.
pub open spec fn items_wf(items: Seq<Json>) -> bool
    decreases items, 0int,
{
    if items.len() == 0 {
        true
    } else {
        json_wf(items[0]) && items_wf(items.drop_first())
    }
}

/// Whether every member of an object has a well-formed key and value.
pub open spec fn members_wf(ms: Seq<(Seq<char>, Json)>) -> bool
    decreases ms, 0int,
    via members_wf_decreases
{
    if ms.len() == 0 {
        true
    } else {
        lex_clean(ms[0].0) && json_wf(ms[0].1) && members_wf(ms.drop_first())
    }
}

#[via_fn]
proof fn members_wf_decreases(ms: Seq<(Seq<char>, Json)>) {
    if ms.len() > 0 {
        assert(decreases_to!(ms => ms[0]));
        assert(decreases_to!(ms[0] => ms[0].1));
    }
}

/// The text a string scan accumulates splits off the accumulator: scanning
/// with `acc` already gathered returns `acc` followed by whatever a fresh
/// scan from the same offset returns.
pub proof fn lemma_scan_string_acc(s: Seq<char>, i: int, acc: Seq<char>)
    ensures
        spec_scan_string(s, i, acc) == match spec_scan_string(s, i, Seq::empty()) {
            Ok(p) => Ok::<(Seq<char>, int), LexErrV>((acc + p.0, p.1)),
            Err(e) => Err(e),
        },
    decreases s.len() - i,
{
    if 0 <= i < s.len() {
        if s[i] == '"' {
            assert(acc + Seq::<char>::empty() =~= acc);
        } else if s[i] == '\\' {
            if i + 1 < s.len() {
                if s[i + 1] == 'u' {
                    if i + 6 <= s.len() {
                        lemma_scan_string_acc(
                            s,
                            i + 6,
                            acc + seq!['\\', 'u'] + s.subrange(i + 2, i + 6),
                        );
                        lemma_scan_string_acc(
                            s,
                            i + 6,
                            Seq::empty() + seq!['\\', 'u'] + s.subrange(i + 2, i + 6),
                        );
                        match spec_scan_string(s, i + 6, Seq::empty()) {
                            Ok(p) => {
                                assert((acc + seq!['\\', 'u'] + s.subrange(i + 2, i + 6)) + p.0
                                    =~= acc + ((Seq::empty() + seq!['\\', 'u'] + s.subrange(
                                    i + 2,
                                    i + 6,
                                )) + p.0));
                            },
                            Err(_) => {},
                        }
                    }
                } else if is_simple_escape_char(s[i + 1]) {
                    lemma_scan_string_acc(s, i + 2, acc + seq!['\\', s[i + 1]]);
                    lemma_scan_string_acc(s, i + 2, Seq::empty() + seq!['\\', s[i + 1]]);
                    match spec_scan_string(s, i + 2, Seq::empty()) {
                        Ok(p) => {
                            assert((acc + seq!['\\', s[i + 1]]) + p.0 =~= acc + ((Seq::empty()
                                + seq!['\\', s[i + 1]]) + p.0));
                        },
                        Err(_) => {},
                    }
                }
            }
        } else {
            lemma_scan_string_acc(s, i + 1, acc.push(s[i]));
            lemma_scan_string_acc(s, i + 1, Seq::empty().push(s[i]));
            match spec_scan_string(s, i + 1, Seq::empty()) {
                Ok(p) => {
                    assert(acc.push(s[i]) + p.0 =~= acc + (Seq::empty().push(s[i]) + p.0));
                },
                Err(_) => {},
            }
        }
    }
}

/// The stored text of a scanned string token is lex-clean: every escape in
/// it is complete and no raw quote or stray backslash leaks through.
pub proof fn lemma_scan_string_clean(s: Seq<char>, i: int)
    ensures
        spec_scan_string(s, i, Seq::empty()) matches Ok(p) ==> lex_clean(p.0),
    decreases s.len() - i,
{
    if 0 <= i < s.len() {
        if s[i] == '"' {
        } else if s[i] == '\\' {
            if i + 1 < s.len() {
                if s[i + 1] == 'u' {
                    if i + 6 <= s.len() {
                        lemma_scan_string_clean(s, i + 6);
                        lemma_scan_string_acc(
                            s,
                            i + 6,
                            Seq::empty() + seq!['\\', 'u'] + s.subrange(i + 2, i + 6),
                        );
                        if let Ok(q) = spec_scan_string(s, i + 6, Seq::empty()) {
                            let whole = (Seq::empty() + seq!['\\', 'u'] + s.subrange(i + 2, i + 6))
                                + q.0;
                            assert(whole.len() >= 6);
                            assert(whole[0] == '\\');
                            assert(whole[1] == 'u');
                            assert(whole.skip(6) =~= q.0);
                        }
                    }
                } else if is_simple_escape_char(s[i + 1]) {
                    lemma_scan_string_clean(s, i + 2);
                    lemma_scan_string_acc(s, i + 2, Seq::empty() + seq!['\\', s[i + 1]]);
                    if let Ok(q) = spec_scan_string(s, i + 2, Seq::empty()) {
                        let whole = (Seq::empty() + seq!['\\', s[i + 1]]) + q.0;
                        assert(whole.len() >= 2);
                        assert(whole[0] == '\\');
                        assert(whole[1] == s[i + 1]);
                        assert(whole.skip(2) =~= q.0);
                    }
                }
            }
        } else {
            lemma_scan_string_clean(s, i + 1);
            lemma_scan_string_acc(s, i + 1, Seq::empty().push(s[i]));
            if let Ok(q) = spec_scan_string(s, i + 1, Seq::empty()) {
                let whole = Seq::empty().push(s[i]) + q.0;
                assert(whole[0] == s[i]);
                assert(whole.skip(1) =~= q.0);
            }
        }
    }
}

/// Text that is lex-clean, followed in the source by a closing quote, scans
/// back to exactly that text.
pub proof fn lemma_clean_rescans(s: Seq<char>, i: int, c: Seq<char>, acc: Seq<char>)
    requires
        0 <= i,
        i + c.len() < s.len(),
        s.subrange(i, i + c.len() as int) == c,
        s[i + c.len()] == '"',
        lex_clean(c),
    ensures
        spec_scan_string(s, i, acc) == Ok::<(Seq<char>, int), LexErrV>((
            acc + c,
            i + c.len() + 1,
        )),
    decreases c.len(),
{
    if c.len() == 0 {
        assert(acc + c =~= acc);
    } else {
        assert(s[i] == c[0]);
        if c[0] == '\\' {
            assert(s[i + 1] == c[1]);
            if c[1] == 'u' {
                assert(s.subrange(i + 6, i + c.len() as int) =~= c.skip(6));
                assert(s.subrange(i + 2, i + 6) =~= c.subrange(2, 6));
                lemma_clean_rescans(s, i + 6, c.skip(6), acc + seq!['\\', 'u'] + s.subrange(
                    i + 2,
                    i + 6,
                ));
                assert((acc + seq!['\\', 'u'] + s.subrange(i + 2, i + 6)) + c.skip(6) =~= acc + c);
            } else {
                assert(s.subrange(i + 2, i + c.len() as int) =~= c.skip(2));
                lemma_clean_rescans(s, i + 2, c.skip(2), acc + seq!['\\', s[i + 1]]);
                assert((acc + seq!['\\', s[i + 1]]) + c.skip(2) =~= acc + c);
            }
        } else {
            assert(s.subrange(i + 1, i + c.len() as int) =~= c.skip(1));
            lemma_clean_rescans(s, i + 1, c.skip(1), acc.push(s[i]));
            assert(acc.push(s[i]) + c.skip(1) =~= acc + c);
        }
    }
}

/// The token sequence the compact rendering of a value lexes back to.
pub open spec fn spec_tokens_of(v: Json) -> Seq<TokenV>
    decreases v, 1int,
{
    match v {
        Json::StringValue(c) => seq![TokenV::StringValue(c)],
        Json::Number(t) => seq![TokenV::Number(t)],
        Json::Boolean(b) => seq![TokenV::Boolean(b)],
        Json::Null => seq![TokenV::Null],
        Json::Array(items) => seq![TokenV::OpenBracket] + item_tokens(items, true),
        Json::Object(ms) => seq![TokenV::OpenBrace] + member_tokens(ms, true),
    }
}

/// The tokens of an array's remaining elements, with their separating
/// commas and the closing bracket; `first` says that no element came
/// before, so no comma precedes the next one.
pub open spec fn item_tokens(items: Seq<Json>, first: bool) -> Seq<TokenV>
    decreases items, 0int,
{
    if items.len() == 0 {
        seq![TokenV::CloseBracket]
    } else {
        (if first {
            Seq::empty()
        } else {
            seq![TokenV::Comma]
        }) + spec_tokens_of(items[0]) + item_tokens(items.drop_first(), false)
    }
}

/// The tokens of an object's remaining members, with their separating
/// commas and the closing brace; each member is its key, a colon, and its
/// value's tokens.
pub open spec fn member_tokens(ms: Seq<(Seq<char>, Json)>, first: bool) -> Seq<TokenV>
    decreases ms, 0int,
    via member_tokens_decreases
{
    if ms.len() == 0 {
        seq![TokenV::CloseBrace]
    } else {
        (if first {
            Seq::empty()
        } else {
            seq![TokenV::Comma]
        }) + seq![TokenV::StringValue(ms[0].0), TokenV::Colon] + spec_tokens_of(ms[0].1)
            + member_tokens(ms.drop_first(), false)
    }
}

#[via_fn]
proof fn member_tokens_decreases(ms: Seq<(Seq<char>, Json)>, first: bool) {
    if ms.len() > 0 {
        assert(decreases_to!(ms => ms[0]));
        assert(decreases_to!(ms[0] => ms[0].1));
    }
}

/// The rendering of an array's remaining elements, with their separating
/// commas and the closing bracket.
pub open spec fn render_items(items: Seq<Json>, first: bool) -> Seq<char>
    decreases items, 0int,
{
    if items.len() == 0 {
        seq![']']
    } else {
        (if first {
            Seq::empty()
        } else {
            seq![',']
        }) + spec_to_json(items[0]) + render_items(items.drop_first(), false)
    }
}

/// The rendering of an object's remaining members, with their separating
/// commas and the closing brace.
pub open spec fn render_members(ms: Seq<(Seq<char>, Json)>, first: bool) -> Seq<char>
    decreases ms, 0int,
    via render_members_decreases
{
    if ms.len() == 0 {
        seq!['}']
    } else {
        (if first {
            Seq::empty()
        } else {
            seq![',']
        }) + seq!['"'] + ms[0].0 + seq!['"', ':'] + spec_to_json(ms[0].1) + render_members(
            ms.drop_first(),
            false,
        )
    }
}

#[via_fn]
proof fn render_members_decreases(ms: Seq<(Seq<char>, Json)>, first: bool) {
    if ms.len() > 0 {
        assert(decreases_to!(ms => ms[0]));
        assert(decreases_to!(ms[0] => ms[0].1));
    }
}

/// The serializer's comma-joined form of the remaining elements equals the
/// separator-in-front form.
proof fn lemma_join_values_render(items: Seq<Json>, i: int)
    requires
        0 <= i < items.len(),
    ensures
        spec_join_values(items, i) + seq![']'] == spec_to_json(items[i]) + render_items(
            items.skip(i + 1),
            false,
        ),
    decreases items.len() - i,
{
    if i == items.len() - 1 {
        assert(items.skip(i + 1).len() == 0);
        assert(spec_to_json(items[i]) + seq![']'] =~= spec_to_json(items[i]) + render_items(
            items.skip(i + 1),
            false,
        ));
    } else {
        lemma_join_values_render(items, i + 1);
        assert(items.skip(i + 1)[0] == items[i + 1]);
        assert(items.skip(i + 1).drop_first() =~= items.skip(i + 2));
        let tail = spec_join_values(items, i + 1) + seq![']'];
        assert((spec_to_json(items[i]) + seq![','] + spec_join_values(items, i + 1)) + seq![']']
            =~= spec_to_json(items[i]) + (seq![','] + tail));
        assert((seq![','] + spec_to_json(items[i + 1])) + render_items(items.skip(i + 2), false)
            =~= seq![','] + (spec_to_json(items[i + 1]) + render_items(items.skip(i + 2), false)));
    }
}

/// The rendering of a whole array is its opening bracket followed by the
/// separator-in-front rendering of its elements.
pub proof fn lemma_render_array(items: Seq<Json>)
    ensures
        spec_to_json(Json::Array(items)) == seq!['['] + render_items(items, true),
{
    if items.len() == 0 {
        assert(seq!['['] + spec_join_values(items, 0) + seq![']'] =~= seq!['['] + render_items(
            items,
            true,
        ));
    } else {
        lemma_join_values_render(items, 0);
        assert(items.skip(1) =~= items.drop_first());
        assert(seq!['['] + spec_join_values(items, 0) + seq![']'] =~= seq!['['] + (Seq::empty()
            + spec_to_json(items[0]) + render_items(items.drop_first(), false)));
    }
}

/// The serializer's comma-joined form of the remaining members equals the
/// separator-in-front form.
proof fn lemma_join_members_render(ms: Seq<(Seq<char>, Json)>, i: int)
    requires
        0 <= i < ms.len(),
    ensures
        spec_join_members(ms, i) + seq!['}'] == seq!['"'] + ms[i].0 + seq!['"', ':']
            + spec_to_json(ms[i].1) + render_members(ms.skip(i + 1), false),
    decreases ms.len() - i,
{
    if i == ms.len() - 1 {
        assert(ms.skip(i + 1).len() == 0);
        assert((seq!['"'] + ms[i].0 + seq!['"', ':'] + spec_to_json(ms[i].1)) + seq!['}'] =~= seq![
            '"',
        ] + ms[i].0 + seq!['"', ':'] + spec_to_json(ms[i].1) + render_members(
            ms.skip(i + 1),
            false,
        ));
    } else {
        lemma_join_members_render(ms, i + 1);
        assert(ms.skip(i + 1)[0] == ms[i + 1]);
        assert(ms.skip(i + 1).drop_first() =~= ms.skip(i + 2));
        let tail = spec_join_members(ms, i + 1) + seq!['}'];
        assert(((seq!['"'] + ms[i].0 + seq!['"', ':'] + spec_to_json(ms[i].1)) + seq![',']
            + spec_join_members(ms, i + 1)) + seq!['}'] =~= (seq!['"'] + ms[i].0 + seq!['"', ':']
            + spec_to_json(ms[i].1)) + (seq![','] + tail));
        assert((seq![','] + seq!['"'] + ms[i + 1].0 + seq!['"', ':'] + spec_to_json(ms[i + 1].1))
            + render_members(ms.skip(i + 2), false) =~= seq![','] + ((seq!['"'] + ms[i + 1].0
            + seq!['"', ':'] + spec_to_json(ms[i + 1].1)) + render_members(
            ms.skip(i + 2),
            false,
        )));
        assert(seq!['"'] + ms[i].0 + seq!['"', ':'] + spec_to_json(ms[i].1) + render_members(
            ms.skip(i + 1),
            false,
        ) =~= (seq!['"'] + ms[i].0 + seq!['"', ':'] + spec_to_json(ms[i].1)) + render_members(
            ms.skip(i + 1),
            false,
        ));
    }
}

/// The rendering of a whole object is its opening brace followed by the
/// separator-in-front rendering of its members.
pub proof fn lemma_render_object(ms: Seq<(Seq<char>, Json)>)
    ensures
        spec_to_json(Json::Object(ms)) == seq!['{'] + render_members(ms, true),
{
    if ms.len() == 0 {
        assert(seq!['{'] + spec_join_members(ms, 0) + seq!['}'] =~= seq!['{'] + render_members(
            ms,
            true,
        ));
    } else {
        lemma_join_members_render(ms, 0);
        assert(ms.skip(1) =~= ms.drop_first());
        assert(seq!['{'] + spec_join_members(ms, 0) + seq!['}'] =~= seq!['{'] + (Seq::empty()
            + seq!['"'] + ms[0].0 + seq!['"', ':'] + spec_to_json(ms[0].1) + render_members(
            ms.drop_first(),
            false,
        )));
    }
}

/// Prepending one token is prepending the one-token sequence.
pub proof fn lemma_lex_cons_app(t: TokenV, r: Result<Seq<TokenV>, LexErrV>)
    ensures
        lex_cons(t, r) == lex_app(seq![t], r),
{
}

/// Prepending tokens to a lexing outcome twice is prepending their
/// concatenation once.
pub proof fn lemma_lex_app_assoc(a: Seq<TokenV>, b: Seq<TokenV>, r: Result<Seq<TokenV>, LexErrV>)
    ensures
        lex_app(a, lex_app(b, r)) == lex_app(a + b, r),
{
    match r {
        Ok(ts) => {
            assert(a + (b + ts) =~= (a + b) + ts);
        },
        Err(_) => {},
    }
}

/// A chunk equal to a concatenation splits into its two parts.
proof fn lemma_split_chunk<A>(s: Seq<A>, i: int, a: Seq<A>, b: Seq<A>)
    requires
        0 <= i,
        i + a.len() + b.len() <= s.len(),
        s.subrange(i, i + a.len() + b.len()) == a + b,
    ensures
        s.subrange(i, i + a.len() as int) == a,
        s.subrange(i + a.len(), i + a.len() + b.len()) == b,
{
    assert forall|m: int| 0 <= m < a.len() implies s.subrange(i, i + a.len() as int)[m] == a[m] by {
        assert(s.subrange(i, i + a.len() + b.len())[m] == (a + b)[m]);
    }
    assert(s.subrange(i, i + a.len() as int) =~= a);
    assert forall|m: int|
        0 <= m < b.len() implies s.subrange(i + a.len(), i + a.len() + b.len())[m] == b[m] by {
        assert(s.subrange(i, i + a.len() + b.len())[a.len() + m] == s[i + a.len() + m]);
        assert(s.subrange(i + a.len(), i + a.len() + b.len())[m] == s[i + a.len() + m]);
        assert(s.subrange(i, i + a.len() + b.len())[a.len() + m] == (a + b)[a.len() + m]);
        assert((a + b)[a.len() + m] == b[m]);
    }
    assert(s.subrange(i + a.len(), i + a.len() + b.len()) =~= b);
}

/// A one-element chunk pins down the element under it.
proof fn lemma_char_at<A>(s: Seq<A>, j: int, ch: A)
    requires
        0 <= j,
        j + 1 <= s.len(),
        s.subrange(j, j + 1) == seq![ch],
    ensures
        s[j] == ch,
{
    assert(s.subrange(j, j + 1)[0] == s[j]);
}

/// The rendering of remaining elements is never empty: it at least closes
/// the array.
proof fn lemma_render_items_len(items: Seq<Json>, first: bool)
    ensures
        render_items(items, first).len() >= 1,
    decreases items,
{
    if items.len() > 0 {
        lemma_render_items_len(items.drop_first(), false);
    }
}

/// The rendering of remaining members is never empty: it at least closes
/// the object.
proof fn lemma_render_members_len(ms: Seq<(Seq<char>, Json)>, first: bool)
    ensures
        render_members(ms, first).len() >= 1,
    decreases ms,
{
    if ms.len() > 0 {
        lemma_render_members_len(ms.drop_first(), false);
    }
}

/// A nonempty run of number-class characters, ended in the source by a
/// character outside the class, scans back to exactly that run.
pub proof fn lemma_number_rescans(s: Seq<char>, i: int, t: Seq<char>, acc: Seq<char>)
    requires
        0 <= i,
        i + t.len() < s.len(),
        s.subrange(i, i + t.len() as int) == t,
        forall|k: int| 0 <= k < t.len() ==> spec_is_number_token_char(t[k]),
        !spec_is_number_token_char(s[i + t.len()]),
    ensures
        spec_scan_number(s, i, acc) == Ok::<(Seq<char>, int), LexErrV>((acc + t, i + t.len())),
    decreases t.len(),
{
    if t.len() == 0 {
        assert(acc + t =~= acc);
    } else {
        assert(s[i] == t[0]);
        assert(s.subrange(i + 1, i + t.len() as int) =~= t.skip(1));
        lemma_number_rescans(s, i + 1, t.skip(1), acc.push(s[i]));
        assert(acc.push(s[i]) + t.skip(1) =~= acc + t);
    }
}


/// The compact rendering of a well-formed value, embedded in source text,
/// lexes back to exactly the value's tokens and hands the rest of the text
/// on. A number rendering additionally needs a following character outside
/// the number class, since a number scan only ends at its terminator.
#[verifier::rlimit(100)]
pub proof fn lemma_value_lex(s: Seq<char>, i: int, v: Json)
    requires
        json_wf(v),
        0 <= i,
        i + spec_to_json(v).len() <= s.len(),
        s.subrange(i, i + spec_to_json(v).len() as int) == spec_to_json(v),
        v is Number ==> i + spec_to_json(v).len() < s.len() && !spec_is_number_token_char(
            s[i + spec_to_json(v).len()],
        ),
    ensures
        spec_lex(s, i) == lex_app(spec_tokens_of(v), spec_lex(s, i + spec_to_json(v).len())),
    decreases v, 1int,
{
    let r = spec_to_json(v);
    match v {
        Json::StringValue(c) => {
            lemma_split_chunk(s, i, seq!['"'] + c, seq!['"']);
            lemma_split_chunk(s, i, seq!['"'], c);
            lemma_char_at(s, i, '"');
            lemma_char_at(s, i + 1 + c.len(), '"');
            lemma_clean_rescans(s, i + 1, c, Seq::empty());
            assert(Seq::empty() + c =~= c);
        },
        Json::Number(t) => {
            assert(t =~= seq![t[0]] + t.skip(1));
            lemma_split_chunk(s, i, seq![t[0]], t.skip(1));
            lemma_char_at(s, i, t[0]);
            lemma_number_rescans(s, i + 1, t.skip(1), seq![s[i]]);
            assert(seq![s[i]] + t.skip(1) =~= t);
        },
        Json::Boolean(b) => {
            reveal_strlit("t");
            reveal_strlit("f");
            reveal_strlit("true");
            reveal_strlit("false");
            if b {
                assert("true"@ =~= seq!['t'] + seq!['r', 'u', 'e']);
                lemma_split_chunk(s, i, seq!['t'], seq!['r', 'u', 'e']);
                lemma_char_at(s, i, 't');
                assert("t"@ + s.subrange(i + 1, i + 4) =~= "true"@);
            } else {
                assert("false"@ =~= seq!['f'] + seq!['a', 'l', 's', 'e']);
                lemma_split_chunk(s, i, seq!['f'], seq!['a', 'l', 's', 'e']);
                lemma_char_at(s, i, 'f');
                assert("f"@ + s.subrange(i + 1, i + 5) =~= "false"@);
                assert(("f"@ + s.subrange(i + 1, i + 5)).len() == 5);
            }
        },
        Json::Null => {
            reveal_strlit("n");
            reveal_strlit("null");
            assert("null"@ =~= seq!['n'] + seq!['u', 'l', 'l']);
            lemma_split_chunk(s, i, seq!['n'], seq!['u', 'l', 'l']);
            lemma_char_at(s, i, 'n');
            assert("n"@ + s.subrange(i + 1, i + 4) =~= "null"@);
        },
        Json::Array(items) => {
            lemma_render_array(items);
            lemma_split_chunk(s, i, seq!['['], render_items(items, true));
            lemma_char_at(s, i, '[');
            lemma_items_lex(s, i + 1, items, true);
            lemma_lex_app_assoc(
                seq![TokenV::OpenBracket],
                item_tokens(items, true),
                spec_lex(s, i + r.len()),
            );
        },
        Json::Object(ms) => {
            lemma_render_object(ms);
            lemma_split_chunk(s, i, seq!['{'], render_members(ms, true));
            lemma_char_at(s, i, '{');
            lemma_members_lex(s, i + 1, ms, true);
            lemma_lex_app_assoc(
                seq![TokenV::OpenBrace],
                member_tokens(ms, true),
                spec_lex(s, i + r.len()),
            );
        },
    }
}

/// The rendering of an array's remaining elements lexes back to exactly
/// their tokens, separating commas and closing bracket included.
#[verifier::rlimit(100)]
pub proof fn lemma_items_lex(s: Seq<char>, i: int, items: Seq<Json>, first: bool)
    requires
        items_wf(items),
        0 <= i,
        i + render_items(items, first).len() <= s.len(),
        s.subrange(i, i + render_items(items, first).len() as int) == render_items(items, first),
    ensures
        spec_lex(s, i) == lex_app(
            item_tokens(items, first),
            spec_lex(s, i + render_items(items, first).len()),
        ),
    decreases items, 0int,
{
    let r = render_items(items, first);
    if items.len() == 0 {
        lemma_char_at(s, i, ']');
    } else {
        let ghost sep: Seq<char> = if first {
            Seq::empty()
        } else {
            seq![',']
        };
        let r0 = spec_to_json(items[0]);
        let rest = render_items(items.drop_first(), false);
        lemma_render_items_len(items.drop_first(), false);
        let p = i + sep.len();
        lemma_split_chunk(s, i, sep + r0, rest);
        lemma_split_chunk(s, i, sep, r0);
        if !first {
            lemma_char_at(s, i, ',');
        }
        if items[0] is Number {
            if items.drop_first().len() == 0 {
                assert(rest =~= seq![']']);
                lemma_char_at(s, p + r0.len(), ']');
            } else {
                assert(rest[0] == ',');
                assert(rest =~= seq![','] + rest.skip(1));
                lemma_split_chunk(s, p + r0.len(), seq![','], rest.skip(1));
                lemma_char_at(s, p + r0.len(), ',');
            }
            assert(!spec_is_number_token_char(s[p + r0.len()]));
        }
        lemma_value_lex(s, p, items[0]);
        lemma_items_lex(s, p + r0.len(), items.drop_first(), false);
        lemma_lex_app_assoc(
            spec_tokens_of(items[0]),
            item_tokens(items.drop_first(), false),
            spec_lex(s, i + r.len()),
        );
        if !first {
            lemma_lex_app_assoc(
                seq![TokenV::Comma],
                spec_tokens_of(items[0]) + item_tokens(items.drop_first(), false),
                spec_lex(s, i + r.len()),
            );
            assert(seq![TokenV::Comma] + (spec_tokens_of(items[0]) + item_tokens(
                items.drop_first(),
                false,
            )) =~= item_tokens(items, first));
        } else {
            assert(spec_tokens_of(items[0]) + item_tokens(items.drop_first(), false)
                =~= item_tokens(items, first));
        }
    }
}

/// The rendering of an object's remaining members lexes back to exactly
/// their tokens, separating commas and closing brace included.
#[verifier::rlimit(100)]
pub proof fn lemma_members_lex(s: Seq<char>, i: int, ms: Seq<(Seq<char>, Json)>, first: bool)
    requires
        members_wf(ms),
        0 <= i,
        i + render_members(ms, first).len() <= s.len(),
        s.subrange(i, i + render_members(ms, first).len() as int) == render_members(ms, first),
    ensures
        spec_lex(s, i) == lex_app(
            member_tokens(ms, first),
            spec_lex(s, i + render_members(ms, first).len()),
        ),
    decreases ms, 0int,
{
    let r = render_members(ms, first);
    if ms.len() == 0 {
        lemma_char_at(s, i, '}');
    } else {
        let ghost sep: Seq<char> = if first {
            Seq::empty()
        } else {
            seq![',']
        };
        let key = ms[0].0;
        let r0 = spec_to_json(ms[0].1);
        let rest = render_members(ms.drop_first(), false);
        lemma_render_members_len(ms.drop_first(), false);
        let p = i + sep.len();
        let pv = p + 2 + key.len();
        lemma_split_chunk(s, i, (((sep + seq!['"']) + key) + seq!['"', ':']) + r0, rest);
        lemma_split_chunk(s, i, ((sep + seq!['"']) + key) + seq!['"', ':'], r0);
        lemma_split_chunk(s, i, (sep + seq!['"']) + key, seq!['"', ':']);
        lemma_split_chunk(s, i, sep + seq!['"'], key);
        lemma_split_chunk(s, i, sep, seq!['"']);
        if !first {
            lemma_char_at(s, i, ',');
        }
        lemma_char_at(s, p, '"');
        assert(seq!['"', ':'] =~= seq!['"'] + seq![':']);
        lemma_split_chunk(s, p + 1 + key.len(), seq!['"'], seq![':']);
        lemma_char_at(s, p + 1 + key.len(), '"');
        lemma_char_at(s, p + 2 + key.len(), ':');
        lemma_clean_rescans(s, p + 1, key, Seq::empty());
        assert(Seq::empty() + key =~= key);
        if ms[0].1 is Number {
            if ms.drop_first().len() == 0 {
                assert(rest =~= seq!['}']);
                lemma_char_at(s, pv + 1 + r0.len(), '}');
            } else {
                assert(rest[0] == ',');
                assert(rest =~= seq![','] + rest.skip(1));
                lemma_split_chunk(s, pv + 1 + r0.len(), seq![','], rest.skip(1));
                lemma_char_at(s, pv + 1 + r0.len(), ',');
            }
            assert(!spec_is_number_token_char(s[pv + 1 + r0.len()]));
        }
        assert(decreases_to!(ms => ms[0]));
        assert(decreases_to!(ms[0] => ms[0].1));
        lemma_value_lex(s, pv + 1, ms[0].1);
        lemma_members_lex(s, pv + 1 + r0.len(), ms.drop_first(), false);
        assert(pv + 1 + r0.len() + rest.len() == i + r.len());
        assert(spec_lex(s, pv) == lex_cons(TokenV::Colon, spec_lex(s, pv + 1)));
        assert(spec_lex(s, p) == lex_cons(TokenV::StringValue(key), spec_lex(s, pv)));
        if !first {
            assert(spec_lex(s, i) == lex_cons(TokenV::Comma, spec_lex(s, p)));
        }
        lemma_lex_cons_app(TokenV::Colon, spec_lex(s, pv + 1));
        lemma_lex_cons_app(TokenV::StringValue(key), spec_lex(s, pv));
        if !first {
            lemma_lex_cons_app(TokenV::Comma, spec_lex(s, p));
        }
        lemma_lex_app_assoc(
            spec_tokens_of(ms[0].1),
            member_tokens(ms.drop_first(), false),
            spec_lex(s, i + r.len()),
        );
        lemma_lex_app_assoc(
            seq![TokenV::Colon],
            spec_tokens_of(ms[0].1) + member_tokens(ms.drop_first(), false),
            spec_lex(s, i + r.len()),
        );
        lemma_lex_app_assoc(
            seq![TokenV::StringValue(key)],
            seq![TokenV::Colon] + (spec_tokens_of(ms[0].1) + member_tokens(
                ms.drop_first(),
                false,
            )),
            spec_lex(s, i + r.len()),
        );
        if !first {
            lemma_lex_app_assoc(
                seq![TokenV::Comma],
                seq![TokenV::StringValue(key)] + (seq![TokenV::Colon] + (spec_tokens_of(ms[0].1)
                    + member_tokens(ms.drop_first(), false))),
                spec_lex(s, i + r.len()),
            );
            assert(seq![TokenV::Comma] + (seq![TokenV::StringValue(key)] + (seq![TokenV::Colon]
                + (spec_tokens_of(ms[0].1) + member_tokens(ms.drop_first(), false))))
                =~= member_tokens(ms, first));
        } else {
            assert(seq![TokenV::StringValue(key)] + (seq![TokenV::Colon] + (spec_tokens_of(
                ms[0].1,
            ) + member_tokens(ms.drop_first(), false))) =~= member_tokens(ms, first));
        }
    }
}


/// A value's token sequence is never empty and opens with a token the
/// grammar cursor does not skip.
proof fn lemma_tokens_of_len(v: Json)
    ensures
        spec_tokens_of(v).len() >= 1,
        !crate::parser::is_trivia(spec_tokens_of(v)[0]),
{
    match v {
        Json::StringValue(_) => {},
        Json::Number(_) => {},
        Json::Boolean(_) => {},
        Json::Null => {},
        Json::Array(_) => {},
        Json::Object(_) => {},
    }
}

/// The token form of remaining elements is never empty: it at least closes
/// the array.
proof fn lemma_item_tokens_len(items: Seq<Json>, first: bool)
    ensures
        item_tokens(items, first).len() >= 1,
{
    if items.len() > 0 {
        lemma_tokens_of_len(items[0]);
    }
}

/// The token form of remaining members is never empty: it at least closes
/// the object.
proof fn lemma_member_tokens_len(ms: Seq<(Seq<char>, Json)>, first: bool)
    ensures
        member_tokens(ms, first).len() >= 1,
{
}

/// Binding a key that orders after every key already present appends the
/// member at the end.
pub proof fn lemma_insert_member_append(acc: Seq<(Seq<char>, Json)>, key: Seq<char>, v: Json)
    requires
        forall|j: int| 0 <= j < acc.len() ==> seq_lt(#[trigger] acc[j].0, key),
    ensures
        spec_insert_member(acc, key, v) == acc.push((key, v)),
    decreases acc.len(),
{
    if acc.len() == 0 {
        assert(seq![(key, v)] =~= acc.push((key, v)));
    } else {
        lemma_seq_lt_trichotomy(key, acc[0].0);
        assert(forall|j: int| 0 <= j < acc.drop_first().len() ==> seq_lt(
            #[trigger] acc.drop_first()[j].0,
            key,
        ));
        lemma_insert_member_append(acc.drop_first(), key, v);
        assert(seq![acc[0]] + acc.drop_first().push((key, v)) =~= acc.push((key, v)));
    }
}

/// A well-formed value's own token sequence parses back to exactly that
/// value, consuming exactly those tokens.
#[verifier::rlimit(100)]
pub proof fn lemma_tokens_parse_value(ts: Seq<TokenV>, i: int, v: Json)
    requires
        json_wf(v),
        0 <= i,
        i + spec_tokens_of(v).len() <= ts.len(),
        ts.subrange(i, i + spec_tokens_of(v).len() as int) == spec_tokens_of(v),
    ensures
        spec_parse_value(ts, i) == Ok::<(Json, int), ParseErrV>((v, i + spec_tokens_of(v).len())),
    decreases v, 1int,
{
    match v {
        Json::StringValue(c) => {
            lemma_char_at(ts, i, TokenV::StringValue(c));
        },
        Json::Number(t) => {
            lemma_char_at(ts, i, TokenV::Number(t));
        },
        Json::Boolean(b) => {
            lemma_char_at(ts, i, TokenV::Boolean(b));
        },
        Json::Null => {
            lemma_char_at(ts, i, TokenV::Null);
        },
        Json::Array(items) => {
            lemma_split_chunk(ts, i, seq![TokenV::OpenBracket], item_tokens(items, true));
            lemma_char_at(ts, i, TokenV::OpenBracket);
            lemma_tokens_parse_elements(ts, i + 1, Seq::empty(), 0, items, true);
            assert(Seq::empty() + items =~= items);
        },
        Json::Object(ms) => {
            lemma_split_chunk(ts, i, seq![TokenV::OpenBrace], member_tokens(ms, true));
            lemma_char_at(ts, i, TokenV::OpenBrace);
            lemma_tokens_parse_members(ts, i + 1, Seq::empty(), 0, ms, true);
            assert(Seq::empty() + ms =~= ms);
        },
    }
}

/// The token form of an object's remaining members parses back to the
/// members gathered so far followed by those members, in order: each key
/// orders after everything gathered, so binding appends.
#[verifier::rlimit(100)]
pub proof fn lemma_tokens_parse_members(
    ts: Seq<TokenV>,
    i: int,
    acc: Seq<(Seq<char>, Json)>,
    times: int,
    ms: Seq<(Seq<char>, Json)>,
    first: bool,
)
    requires
        members_wf(ms),
        members_sorted(ms),
        forall|a: int, b: int|
            0 <= a < acc.len() && 0 <= b < ms.len() ==> seq_lt(
                #[trigger] acc[a].0,
                #[trigger] ms[b].0,
            ),
        times >= 0,
        first <==> times == 0,
        0 <= i,
        i + member_tokens(ms, first).len() <= ts.len(),
        ts.subrange(i, i + member_tokens(ms, first).len() as int) == member_tokens(ms, first),
    ensures
        spec_parse_members(ts, i, acc, times) == Ok::<(Seq<(Seq<char>, Json)>, int), ParseErrV>(
            (acc + ms, i + member_tokens(ms, first).len()),
        ),
    decreases ms, 0int,
{
    if ms.len() == 0 {
        lemma_char_at(ts, i, TokenV::CloseBrace);
        assert(acc + ms =~= acc);
    } else {
        let ghost sep: Seq<TokenV> = if first {
            Seq::empty()
        } else {
            seq![TokenV::Comma]
        };
        let key = ms[0].0;
        let t0 = spec_tokens_of(ms[0].1);
        let rest = member_tokens(ms.drop_first(), false);
        let p = i + sep.len();
        lemma_member_tokens_len(ms.drop_first(), false);
        lemma_split_chunk(
            ts,
            i,
            (sep + seq![TokenV::StringValue(key), TokenV::Colon]) + t0,
            rest,
        );
        lemma_split_chunk(ts, i, sep + seq![TokenV::StringValue(key), TokenV::Colon], t0);
        lemma_split_chunk(ts, i, sep, seq![TokenV::StringValue(key), TokenV::Colon]);
        if !first {
            lemma_char_at(ts, i, TokenV::Comma);
        }
        assert(seq![TokenV::StringValue(key), TokenV::Colon] =~= seq![TokenV::StringValue(key)]
            + seq![TokenV::Colon]);
        lemma_split_chunk(ts, p, seq![TokenV::StringValue(key)], seq![TokenV::Colon]);
        lemma_char_at(ts, p, TokenV::StringValue(key));
        lemma_char_at(ts, p + 1, TokenV::Colon);
        assert(decreases_to!(ms => ms[0]));
        assert(decreases_to!(ms[0] => ms[0].1));
        lemma_tokens_parse_value(ts, p + 2, ms[0].1);
        lemma_insert_member_append(acc, key, ms[0].1);
        assert(members_sorted(ms.drop_first())) by {
            assert(forall|j: int, k: int|
                0 <= j < k < ms.drop_first().len() ==> seq_lt(
                    #[trigger] ms.drop_first()[j].0,
                    #[trigger] ms.drop_first()[k].0,
                ));
        }
        let acc2 = acc.push((key, ms[0].1));
        assert(forall|a: int, b: int|
            0 <= a < acc2.len() && 0 <= b < ms.drop_first().len() ==> seq_lt(
                #[trigger] acc2[a].0,
                #[trigger] ms.drop_first()[b].0,
            ));
        lemma_tokens_parse_members(ts, p + 2 + t0.len(), acc2, times + 1, ms.drop_first(), false);
        assert(acc2 + ms.drop_first() =~= acc + ms);
    }
}

/// The token form of an array's remaining elements parses back to the
/// elements gathered so far followed by those elements, in order.
#[verifier::rlimit(100)]
pub proof fn lemma_tokens_parse_elements(
    ts: Seq<TokenV>,
    i: int,
    acc: Seq<Json>,
    times: int,
    items: Seq<Json>,
    first: bool,
)
    requires
        items_wf(items),
        times >= 0,
        first <==> times == 0,
        0 <= i,
        i + item_tokens(items, first).len() <= ts.len(),
        ts.subrange(i, i + item_tokens(items, first).len() as int) == item_tokens(items, first),
    ensures
        spec_parse_elements(ts, i, acc, times) == Ok::<(Seq<Json>, int), ParseErrV>((
            acc + items,
            i + item_tokens(items, first).len(),
        )),
    decreases items, 0int,
{
    if items.len() == 0 {
        lemma_char_at(ts, i, TokenV::CloseBracket);
        assert(acc + items =~= acc);
    } else {
        let ghost sep: Seq<TokenV> = if first {
            Seq::empty()
        } else {
            seq![TokenV::Comma]
        };
        let t0 = spec_tokens_of(items[0]);
        let rest = item_tokens(items.drop_first(), false);
        let p = i + sep.len();
        lemma_item_tokens_len(items.drop_first(), false);
        lemma_tokens_of_len(items[0]);
        lemma_split_chunk(ts, i, sep + t0, rest);
        lemma_split_chunk(ts, i, sep, t0);
        if !first {
            lemma_char_at(ts, i, TokenV::Comma);
        }
        assert(t0 =~= seq![t0[0]] + t0.skip(1));
        lemma_split_chunk(ts, p, seq![t0[0]], t0.skip(1));
        lemma_char_at(ts, p, t0[0]);
        assert(json_wf(items[0]));
        match items[0] {
            Json::Object(ms0) => {
                lemma_split_chunk(ts, p, seq![TokenV::OpenBrace], member_tokens(ms0, true));
                assert(decreases_to!(items => items[0]));
                assert(members_wf(ms0) && members_sorted(ms0));
                lemma_tokens_parse_members(ts, p + 1, Seq::empty(), 0, ms0, true);
                assert(Seq::empty() + ms0 =~= ms0);
            },
            Json::Array(items0) => {
                lemma_split_chunk(ts, p, seq![TokenV::OpenBracket], item_tokens(items0, true));
                assert(decreases_to!(items => items[0]));
                assert(items_wf(items0));
                lemma_tokens_parse_elements(ts, p + 1, Seq::empty(), 0, items0, true);
                assert(Seq::empty() + items0 =~= items0);
            },
            _ => {},
        }
        lemma_tokens_parse_elements(
            ts,
            p + t0.len(),
            acc.push(items[0]),
            times + 1,
            items.drop_first(),
            false,
        );
        assert(acc.push(items[0]) + items.drop_first() =~= acc + items);
    }
}


/// Feeding the serializer's output back through tokenize, parse and
/// serialize returns it unchanged: on a well-formed value the whole
/// pipeline is a fixed point of the compact rendering. A document that is
/// one bare number stays out: its rendering ends while the number scan
/// still runs, which the lexer rejects.
pub proof fn lemma_pipeline_fixed_point(v: Json)
    requires
        json_wf(v),
        !(v is Number),
    ensures
        spec_to_json_string(spec_to_json(v)) == Ok::<Seq<char>, Seq<char>>(spec_to_json(v)),
{
    let r = spec_to_json(v);
    let tokens = spec_tokens_of(v);
    assert(r.subrange(0, r.len() as int) =~= r);
    lemma_value_lex(r, 0, v);
    assert(spec_lex(r, r.len() as int) == Ok::<Seq<TokenV>, LexErrV>(Seq::empty()));
    assert(tokens + Seq::<TokenV>::empty() =~= tokens);
    assert(spec_lex(r, 0) == Ok::<Seq<TokenV>, LexErrV>(tokens));
    lemma_tokens_of_len(v);
    assert(tokens.subrange(0, tokens.len() as int) =~= tokens);
    lemma_tokens_parse_value(tokens, 0, v);
    assert(spec_next_grammar(tokens, 0) == Some((tokens[0], 1int)));
    assert(spec_next_grammar(tokens, tokens.len() as int) is None);
    assert(spec_parse(tokens, 0) == Ok::<Json, ParseErrV>(v));
}


/// Whether a token's stored text is in the form the lexer itself produces:
/// string text re-scans as itself and number text is a nonempty run of the
/// number class.
pub open spec fn token_wf(t: TokenV) -> bool {
    match t {
        TokenV::StringValue(c) => lex_clean(c),
        TokenV::Number(x) => number_wf(x),
        _ => true,
    }
}

/// Whether every token of the sequence is well-formed.
pub open spec fn tokens_wf(ts: Seq<TokenV>) -> bool {
    forall|k: int| 0 <= k < ts.len() ==> token_wf(#[trigger] ts[k])
}

/// Prepending a well-formed token keeps the token sequence well-formed.
proof fn lemma_cons_wf(t: TokenV, rest: Result<Seq<TokenV>, LexErrV>)
    requires
        token_wf(t),
        rest matches Ok(ts0) ==> tokens_wf(ts0),
    ensures
        lex_cons(t, rest) matches Ok(ts) ==> tokens_wf(ts),
{
    if let Ok(ts0) = rest {
        assert forall|k: int| 0 <= k < (seq![t] + ts0).len() implies token_wf(
            (seq![t] + ts0)[k],
        ) by {
            if k > 0 {
                assert(token_wf(ts0[k - 1]));
            }
        }
    }
}

/// A whitespace scan only ever produces a whitespace token.
proof fn lemma_scan_ws_shape(s: Seq<char>, i: int, count: int)
    ensures
        spec_scan_ws(s, i, count) matches Ok(p) ==> p.0 is WhiteSpaces,
    decreases s.len() - i,
{
    if 0 <= i < s.len() && s[i] == ' ' {
        lemma_scan_ws_shape(s, i + 1, count + 1);
    }
}

/// Every token the lexer produces is well-formed: string text re-scans as
/// itself and number text is a nonempty run of the number class.
pub proof fn lemma_lex_tokens_wf(s: Seq<char>, i: int)
    ensures
        spec_lex(s, i) matches Ok(ts) ==> tokens_wf(ts),
    decreases s.len() - i,
{
    if 0 <= i < s.len() {
        let c = s[i];
        if c == '{' || c == '}' || c == '[' || c == ']' || c == ':' || c == ',' || c == '\n' {
            lemma_lex_tokens_wf(s, i + 1);
        } else if c == '"' {
            lemma_spec_scan_string_bounds(s, i + 1, Seq::empty());
            lemma_scan_string_clean(s, i + 1);
            if let Ok(p) = spec_scan_string(s, i + 1, Seq::empty()) {
                lemma_lex_tokens_wf(s, p.1);
                lemma_cons_wf(TokenV::StringValue(p.0), spec_lex(s, p.1));
            }
        } else if spec_is_number_token_char(c) {
            lemma_spec_scan_number_bounds(s, i + 1, seq![c]);
            if let Ok(p) = spec_scan_number(s, i + 1, seq![c]) {
                lemma_scan_number_verbatim(s, i + 1, seq![c], p.0, p.1);
                assert forall|k: int| 0 <= k < p.0.len() implies spec_is_number_token_char(
                    p.0[k],
                ) by {
                    if k > 0 {
                        assert(p.0[k] == s.subrange(i + 1, p.1)[k - 1]);
                    }
                }
                lemma_lex_tokens_wf(s, p.1);
                lemma_cons_wf(TokenV::Number(p.0), spec_lex(s, p.1));
            }
        } else if c == 't' || c == 'f' || c == 'n' {
            let scanned = if c == 'n' {
                crate::lexer::spec_scan_null(s, i + 1, i)
            } else {
                crate::lexer::spec_scan_bool(s, i + 1, c == 't', i)
            };
            if let Ok(p) = scanned {
                lemma_lex_tokens_wf(s, p.1);
                lemma_cons_wf(p.0, spec_lex(s, p.1));
            }
        } else if c == '/' {
            lemma_spec_scan_comment_bounds(s, i + 1);
            if let Ok(p) = crate::lexer::spec_scan_comment(s, i + 1) {
                lemma_lex_tokens_wf(s, p.1);
                lemma_cons_wf(p.0, spec_lex(s, p.1));
            }
        } else if c == ' ' {
            lemma_spec_scan_ws_bounds(s, i + 1, 1);
            lemma_scan_ws_shape(s, i + 1, 1);
            if let Ok(p) = spec_scan_ws(s, i + 1, 1) {
                lemma_lex_tokens_wf(s, p.1);
                lemma_cons_wf(p.0, spec_lex(s, p.1));
            }
        } else {
            lemma_lex_tokens_wf(s, i + 1);
        }
    }
}

/// Binding a clean key to a well-formed value keeps the member list sorted
/// and well-formed; each key of the new list was already a key or is the
/// bound one.
proof fn lemma_insert_member_sorted_wf(ms: Seq<(Seq<char>, Json)>, key: Seq<char>, v: Json)
    requires
        members_sorted(ms),
        members_wf(ms),
        lex_clean(key),
        json_wf(v),
    ensures
        members_sorted(spec_insert_member(ms, key, v)),
        members_wf(spec_insert_member(ms, key, v)),
        forall|j: int|
            0 <= j < spec_insert_member(ms, key, v).len() ==> (#[trigger] spec_insert_member(
                ms,
                key,
                v,
            )[j].0 == key || exists|m: int|
                0 <= m < ms.len() && spec_insert_member(ms, key, v)[j].0 == ms[m].0),
    decreases ms.len(),
{
    let res = spec_insert_member(ms, key, v);
    if ms.len() == 0 {
        assert(members_wf(res)) by {
            assert(res[0] == (key, v));
            assert(res.drop_first() =~= Seq::<(Seq<char>, Json)>::empty());
            assert(members_wf(Seq::<(Seq<char>, Json)>::empty()));
        }
    } else {
        lemma_seq_lt_trichotomy(key, ms[0].0);
        if seq_lt(key, ms[0].0) {
            // res == [new] + ms
            assert(members_sorted(res)) by {
                assert forall|a: int, b: int| 0 <= a < b < res.len() implies seq_lt(
                    res[a].0,
                    res[b].0,
                ) by {
                    if a == 0 {
                        if b > 1 {
                            lemma_seq_lt_transitive(key, ms[0].0, ms[b - 1].0);
                        }
                    }
                }
            }
            assert(members_wf(res)) by {
                assert(res.drop_first() =~= ms);
            }
        } else if key == ms[0].0 {
            // res == [new] + ms.drop_first()
            assert(members_sorted(res)) by {
                assert forall|a: int, b: int| 0 <= a < b < res.len() implies seq_lt(
                    res[a].0,
                    res[b].0,
                ) by {
                    if a == 0 {
                        assert(seq_lt(ms[0].0, ms[b].0));
                    } else {
                        assert(seq_lt(ms[a].0, ms[b].0));
                    }
                }
            }
            assert(members_wf(res)) by {
                assert(res.drop_first() =~= ms.drop_first());
                assert(members_wf(ms.drop_first()));
            }
        } else {
            // res == [ms[0]] + insert(ms.drop_first())
            let dropped = ms.drop_first();
            assert(members_sorted(dropped)) by {
                assert forall|a: int, b: int| 0 <= a < b < dropped.len() implies seq_lt(
                    dropped[a].0,
                    dropped[b].0,
                ) by {
                    assert(seq_lt(ms[a + 1].0, ms[b + 1].0));
                }
            }
            lemma_insert_member_sorted_wf(dropped, key, v);
            let inner = spec_insert_member(dropped, key, v);
            assert(members_sorted(res)) by {
                assert forall|a: int, b: int| 0 <= a < b < res.len() implies seq_lt(
                    res[a].0,
                    res[b].0,
                ) by {
                    if a == 0 {
                        assert(inner[b - 1].0 == key || exists|m: int|
                            0 <= m < dropped.len() && inner[b - 1].0 == dropped[m].0);
                        if inner[b - 1].0 == key {
                            assert(seq_lt(ms[0].0, key));
                        } else {
                            let m = choose|m: int|
                                0 <= m < dropped.len() && inner[b - 1].0 == dropped[m].0;
                            assert(seq_lt(ms[0].0, ms[m + 1].0));
                        }
                    }
                }
            }
            assert(members_wf(res)) by {
                assert(res.drop_first() =~= inner);
            }
            assert forall|j: int| 0 <= j < res.len() implies (res[j].0 == key || exists|m: int|
                0 <= m < ms.len() && res[j].0 == ms[m].0) by {
                if j == 0 {
                    assert(res[0].0 == ms[0].0);
                } else if inner[j - 1].0 != key {
                    let m = choose|m: int|
                        0 <= m < dropped.len() && inner[j - 1].0 == dropped[m].0;
                    assert(res[j].0 == ms[m + 1].0);
                }
            }
        }
    }
}


/// Appending a well-formed element keeps the element list well-formed.
proof fn lemma_items_wf_push(items: Seq<Json>, x: Json)
    requires
        items_wf(items),
        json_wf(x),
    ensures
        items_wf(items.push(x)),
    decreases items.len(),
{
    if items.len() == 0 {
        assert(items.push(x)[0] == x);
        assert(items.push(x).drop_first() =~= Seq::<Json>::empty());
        assert(items_wf(Seq::<Json>::empty()));
    } else {
        assert(items.push(x)[0] == items[0]);
        assert(items.push(x).drop_first() =~= items.drop_first().push(x));
        lemma_items_wf_push(items.drop_first(), x);
    }
}

/// The grammar token the cursor finds is an element of the sequence.
proof fn lemma_next_grammar_elem(ts: Seq<TokenV>, i: int)
    ensures
        spec_next_grammar(ts, i) matches Some(p) ==> 0 <= p.1 - 1 < ts.len() && p.0 == ts[p.1
            - 1],
    decreases ts.len() - i,
{
    if 0 <= i < ts.len() && is_trivia(ts[i]) {
        lemma_next_grammar_elem(ts, i + 1);
    }
}

/// A value parsed from well-formed tokens is well-formed.
#[verifier::rlimit(100)]
pub proof fn lemma_parse_value_wf(ts: Seq<TokenV>, i: int)
    requires
        tokens_wf(ts),
    ensures
        spec_parse_value(ts, i) matches Ok(p) ==> json_wf(p.0),
    decreases ts.len() - i, 0int,
{
    lemma_next_grammar_elem(ts, i);
    lemma_spec_next_grammar_bounds(ts, i);
    if let Some((t, j)) = spec_next_grammar(ts, i) {
        assert(token_wf(t));
        match t {
            TokenV::OpenBrace => {
                assert(members_wf(Seq::<(Seq<char>, Json)>::empty()));
                lemma_parse_members_wf(ts, j, Seq::empty(), 0);
            },
            TokenV::OpenBracket => {
                assert(items_wf(Seq::<Json>::empty()));
                lemma_parse_elements_wf(ts, j, Seq::empty(), 0);
            },
            _ => {},
        }
    }
}

/// The members parsed from well-formed tokens, starting from a sorted and
/// well-formed gathering, are sorted and well-formed.
#[verifier::rlimit(100)]
pub proof fn lemma_parse_members_wf(ts: Seq<TokenV>, i: int, acc: Seq<(Seq<char>, Json)>, times: int)
    requires
        tokens_wf(ts),
        members_sorted(acc),
        members_wf(acc),
    ensures
        spec_parse_members(ts, i, acc, times) matches Ok(p) ==> members_sorted(p.0)
            && members_wf(p.0),
    decreases ts.len() - i, 2int,
{
    lemma_next_grammar_elem(ts, i);
    lemma_spec_next_grammar_bounds(ts, i);
    if let Some((first, j)) = spec_next_grammar(ts, i) {
        assert(token_wf(first));
        if first is CloseBrace {
        } else if times == 0 {
            if let TokenV::StringValue(key) = first {
                lemma_parse_member_rest_wf(ts, j, acc, times, key);
            }
        } else {
            if first is Comma {
                lemma_next_grammar_elem(ts, j);
                lemma_spec_next_grammar_bounds(ts, j);
                if let Some((second, k)) = spec_next_grammar(ts, j) {
                    assert(token_wf(second));
                    if let TokenV::StringValue(key) = second {
                        lemma_parse_member_rest_wf(ts, k, acc, times, key);
                    }
                }
            }
        }
    }
}

/// The rest of one member parsed from well-formed tokens keeps the
/// gathering sorted and well-formed.
#[verifier::rlimit(100)]
pub proof fn lemma_parse_member_rest_wf(
    ts: Seq<TokenV>,
    i: int,
    acc: Seq<(Seq<char>, Json)>,
    times: int,
    key: Seq<char>,
)
    requires
        tokens_wf(ts),
        members_sorted(acc),
        members_wf(acc),
        lex_clean(key),
    ensures
        spec_parse_member_rest(ts, i, acc, times, key) matches Ok(p) ==> members_sorted(p.0)
            && members_wf(p.0),
    decreases ts.len() - i, 1int,
{
    lemma_spec_next_grammar_bounds(ts, i);
    let colon_opt = spec_next_grammar(ts, i);
    let after_colon = match colon_opt {
        None => i,
        Some((_, j)) => j,
    };
    lemma_parse_value_wf(ts, after_colon);
    if let Ok((v, k)) = spec_parse_value(ts, after_colon) {
        if colon_opt matches Some((TokenV::Colon, _)) {
            if k <= i || k > ts.len() {
            } else {
                lemma_insert_member_sorted_wf(acc, key, v);
                lemma_parse_members_wf(ts, k, spec_insert_member(acc, key, v), times + 1);
            }
        }
    }
}

/// The elements parsed from well-formed tokens, starting from a well-formed
/// gathering, are well-formed.
#[verifier::rlimit(100)]
pub proof fn lemma_parse_elements_wf(ts: Seq<TokenV>, i: int, acc: Seq<Json>, times: int)
    requires
        tokens_wf(ts),
        items_wf(acc),
    ensures
        spec_parse_elements(ts, i, acc, times) matches Ok(p) ==> items_wf(p.0),
    decreases ts.len() - i, 2int,
{
    lemma_next_grammar_elem(ts, i);
    lemma_spec_next_grammar_bounds(ts, i);
    if let Some((first, j)) = spec_next_grammar(ts, i) {
        assert(token_wf(first));
        if first is CloseBracket {
        } else if times == 0 {
            if !(first is Comma) {
                lemma_parse_element_value_wf(ts, i, acc, times, first, j);
            }
        } else {
            if first is Comma {
                lemma_next_grammar_elem(ts, j);
                lemma_spec_next_grammar_bounds(ts, j);
                if let Some((second, k)) = spec_next_grammar(ts, j) {
                    assert(token_wf(second));
                    if !(second is CloseBracket) {
                        lemma_parse_element_value_wf(ts, i, acc, times, second, k);
                    }
                }
            }
        }
    }
}

/// One element taken from a well-formed token, followed by the remaining
/// elements, keeps the gathering well-formed.
#[verifier::rlimit(100)]
pub proof fn lemma_parse_element_value_wf(
    ts: Seq<TokenV>,
    i: int,
    acc: Seq<Json>,
    times: int,
    tok: TokenV,
    after: int,
)
    requires
        tokens_wf(ts),
        items_wf(acc),
        token_wf(tok),
    ensures
        spec_parse_element_value(ts, i, acc, times, tok, after) matches Ok(p) ==> items_wf(p.0),
    decreases ts.len() - i, 1int,
{
    if after <= i || after > ts.len() {
    } else {
        match tok {
            TokenV::StringValue(c) => {
                lemma_items_wf_push(acc, Json::StringValue(c));
                lemma_parse_elements_wf(ts, after, acc.push(Json::StringValue(c)), times + 1);
            },
            TokenV::Number(x) => {
                lemma_items_wf_push(acc, Json::Number(x));
                lemma_parse_elements_wf(ts, after, acc.push(Json::Number(x)), times + 1);
            },
            TokenV::Boolean(b) => {
                lemma_items_wf_push(acc, Json::Boolean(b));
                lemma_parse_elements_wf(ts, after, acc.push(Json::Boolean(b)), times + 1);
            },
            TokenV::Null => {
                lemma_items_wf_push(acc, Json::Null);
                lemma_parse_elements_wf(ts, after, acc.push(Json::Null), times + 1);
            },
            TokenV::OpenBrace => {
                assert(members_wf(Seq::<(Seq<char>, Json)>::empty()));
                lemma_parse_members_wf(ts, after, Seq::empty(), 0);
                if let Ok((ms2, k)) = spec_parse_members(ts, after, Seq::empty(), 0) {
                    if k <= i || k > ts.len() {
                    } else {
                        lemma_items_wf_push(acc, Json::Object(ms2));
                        lemma_parse_elements_wf(ts, k, acc.push(Json::Object(ms2)), times + 1);
                    }
                }
            },
            TokenV::OpenBracket => {
                assert(items_wf(Seq::<Json>::empty()));
                lemma_parse_elements_wf(ts, after, Seq::empty(), 0);
                if let Ok((items2, k)) = spec_parse_elements(ts, after, Seq::empty(), 0) {
                    if k <= i || k > ts.len() {
                    } else {
                        lemma_items_wf_push(acc, Json::Array(items2));
                        lemma_parse_elements_wf(ts, k, acc.push(Json::Array(items2)), times + 1);
                    }
                }
            },
            _ => {},
        }
    }
}

/// Idempotence of the pipeline: on any input whose document value is not
/// one bare number, the pipeline's own output is a fixed point — feeding
/// the serializer's output back through tokenize, parse and serialize
/// returns it unchanged.
pub proof fn lemma_pipeline_idempotent(text: Seq<char>, ts: Seq<TokenV>, v: Json)
    requires
        spec_lex(text, 0) == Ok::<Seq<TokenV>, LexErrV>(ts),
        spec_parse(ts, 0) == Ok::<Json, ParseErrV>(v),
        !(v is Number),
    ensures
        spec_to_json_string(text) == Ok::<Seq<char>, Seq<char>>(spec_to_json(v)),
        spec_to_json_string(spec_to_json(v)) == Ok::<Seq<char>, Seq<char>>(spec_to_json(v)),
{
    lemma_lex_tokens_wf(text, 0);
    lemma_parse_value_wf(ts, 0);
    assert(json_wf(v)) by {
        if let Ok(p) = spec_parse_value(ts, 0) {
            assert(v == p.0);
        }
    }
    lemma_pipeline_fixed_point(v);
}

} // verus!
