//! A tokenizer and recursive-descent parser for a JSON-with-comments text
//! format, together with a canonical compact re-serializer.
//!
//! The pipeline is: text -> [`lexer::Lexer`] -> token sequence ->
//! [`parser::Parser`] -> [`node::Node`] value tree -> compact JSON text.
#![allow(unused_imports)]
use vstd::prelude::*;

pub mod laws;
pub mod lexer;
pub mod node;
pub mod parser;
pub mod token;
pub mod utils;

use crate::lexer::{spec_lex, Lexer};
use crate::node::spec_to_json;
use crate::parser::{parse_error_text, spec_parse, Parser};
use crate::token::lex_error_text;

verus! {

/// The outcome of the whole pipeline on `text`: the compact rendering of
/// the single document value the text holds, or the first error's
/// descriptive message.
pub open spec fn spec_to_json_string(text: Seq<char>) -> Result<Seq<char>, Seq<char>> {
    match spec_lex(text, 0) {
        Err(e) => Err(lex_error_text(e)),
        Ok(ts) => match spec_parse(ts, 0) {
            Err(e) => Err(parse_error_text(e)),
            Ok(v) => Ok(spec_to_json(v)),
        },
    }
}

/// Runs `data` through the whole pipeline: tokenize, parse, serialize. The
/// result is the canonical compact JSON text of the single document value,
/// or a descriptive error message for the first error met.
pub fn to_json_string(data: String) -> (r: Result<String, String>)
    ensures
        match spec_to_json_string(data@) {
            Ok(s) => r matches Ok(out) && out@ == s,
            Err(m) => r matches Err(out) && out@ == m,
        },
{
    let mut lexer = Lexer::new(data.as_str());
    let token = match lexer.tokenize() {
        Ok(t) => t,
        Err(e) => {
            return Err(e.message());
        },
    };
    let mut parser = Parser::new(&token);
    let res = match parser.parse() {
        Ok(n) => n,
        Err(e) => {
            return Err(e.message());
        },
    };
    Ok(res.to_json_string())
}

} // verus!
