//! A small regular-expression engine: a tokenizer, a recursive-descent
//! parser and a position-set matcher, each with a contract over a
//! mathematical model of patterns.

use vstd::prelude::*;

pub mod cli;
pub mod laws;
pub mod lexer;
pub mod matcher;
pub mod parser;

use lexer::lex;
use matcher::search;
use parser::{AstNode, ParseError, Parser, Regex, nodes_view, parse_pattern};

verus! {

/// What a pattern compiles to: its nodes, or why it has none.
pub open spec fn compiled(p: Seq<char>) -> Result<Seq<Regex>, ParseError> {
    parse_pattern(lex(p))
}

/// Whether pattern `p` matches somewhere in `t`, or why `p` is no pattern.
pub open spec fn pattern_matches(p: Seq<char>, t: Seq<char>) -> Result<bool, ParseError> {
    match compiled(p) {
        Ok(rs) => Ok(search(rs, t)),
        Err(e) => Err(e),
    }
}

/// Compiles a pattern into the nodes that the matcher walks.
pub fn compile(pattern: &str) -> (r: Result<Vec<AstNode>, ParseError>)
    ensures
        match r {
            Ok(v) => compiled(pattern@) == Ok::<Seq<Regex>, ParseError>(nodes_view(v@)),
            Err(e) => compiled(pattern@) == Err::<Seq<Regex>, ParseError>(e),
        },
{
    let tokens = lexer::tokenize(pattern);
    let mut parser = Parser::new(tokens);
    parser.parse()
}

/// Compiles `pattern` and matches it against `text`.
pub fn is_match(pattern: &str, text: &str) -> (r: Result<bool, ParseError>)
    requires
        text@.len() < usize::MAX,
    ensures
        r == pattern_matches(pattern@, text@),
{
    match compile(pattern) {
        Ok(ast) => Ok(matcher::match_pattern(&ast, text)),
        Err(e) => Err(e),
    }
}

} // verus!
