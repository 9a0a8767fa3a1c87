//! Rustuck: a construction kit for custom lexers and tag-rewriting parsers.
//!
//! Lexing is modelled as a small instruction-interpreted virtual machine that
//! sweeps over a mutable token sequence, and parsing as a fixpoint-iterated
//! set of tag-pattern rules that fold a flat token sequence into a tree.

use vstd::prelude::*;

pub mod lexer;
pub mod parse_token;
pub mod parser;
pub mod token;

pub use lexer::Instruction;
pub use lexer::LexError;
pub use lexer::Lexer;
pub use lexer::Routine;
pub use parse_token::ParseToken;
pub use parse_token::to_parse_tokens;
pub use parser::ParseError;
pub use parser::Parser;
pub use parser::Rule;
pub use token::Token;
pub use token::to_tokens;

use crate::lexer::lex_err_model;
use crate::lexer::lex_run;
use crate::parse_token::lift_models;
use crate::parse_token::pts_model;
use crate::parser::PARSE_DEPTH_LIMIT;
use crate::parser::parse_fix;
use crate::parser::rules_model;
use crate::token::tokens_spec;

verus! {

/// A fatal condition of the whole pipeline: a defective routine in the lexer
/// or a non-terminating rule set in the parser.
#[derive(Debug, PartialEq, Eq)]
pub enum RunError {
    Lex(LexError),
    Parse(ParseError),
}

/// Lexes and parses `code` in one sweep: the text is tokenized under the file
/// label "input", the lexer's routines run over the tokens in order, the
/// tokens are lifted to leaf nodes, and the parser's rules run to fixpoint.
pub fn lex_and_parse(lexer: &Lexer, parser: &Parser, code: &str, verbose: bool) -> (r: Result<
    Vec<ParseToken>,
    RunError,
>)
    ensures
        match lex_run(lexer.rules@, tokens_spec(code@, "input"@)) {
            Err(e) => r matches Err(RunError::Lex(le)) && lex_err_model(le) == e,
            Ok(toks) => {
                let fix = parse_fix(
                    rules_model(parser.rules@),
                    lift_models(toks),
                    PARSE_DEPTH_LIMIT as nat,
                );
                if fix.1 {
                    r matches Ok(nodes) && pts_model(nodes@) == fix.0
                } else {
                    r matches Err(RunError::Parse(ParseError::DepthLimitExceeded))
                }
            },
        },
{
    let mut toks = to_tokens(code, "input");
    match lexer.lex(&mut toks, verbose) {
        Err(e) => {
            return Err(RunError::Lex(e));
        },
        Ok(()) => {},
    }
    let mut nodes = to_parse_tokens(toks);
    match parser.parse(&mut nodes, verbose) {
        Err(e) => {
            return Err(RunError::Parse(e));
        },
        Ok(()) => {},
    }
    Ok(nodes)
}

} // verus!
