//! A small compiler and virtual machine for arithmetic expressions.
//!
//! Source text over integers, `+ - * /` and parentheses is lexed into
//! tokens, validated against the expression grammar, turned into a
//! binary abstract syntax tree, and compiled to a line-oriented
//! stack-machine instruction text, which a separate interpreter
//! executes to a single `i64` result. `laws` proves the pipeline
//! round trip and the agreement of the two parser formulations.

pub mod decimal;
pub mod interpreter;
pub mod laws;
pub mod parser;
pub mod tokenizer;
pub mod transformer;

use vstd::prelude::*;

use crate::tokenizer::{spec_lex, tokenizer, LexError};
use crate::parser::{parse_ast, spec_parse};
use crate::transformer::{spec_transform, transform};

verus! {

/// Why compilation failed.
#[derive(Clone, Copy, Debug, PartialEq, Eq, Structural)]
pub enum CompileError {
    /// The source text does not lex.
    Lex(LexError),
    /// The token sequence does not match the expression grammar.
    Syntax,
}

/// Compile source text to stack-machine instruction text: `Ok` exactly
/// when the text lexes and matches the expression grammar, and then
/// the instruction text of its tree; otherwise the first error.
pub fn compile(src: &str) -> (r: Result<String, CompileError>)
    ensures
        match spec_lex(src@) {
            Err(e) => r == Err::<String, CompileError>(CompileError::Lex(e)),
            Ok(toks) => match spec_parse(toks) {
                None => r == Err::<String, CompileError>(CompileError::Syntax),
                Some(a) => r matches Ok(text) && text@ == spec_transform(a),
            },
        },
{
    match tokenizer(src) {
        Err(e) => Err(CompileError::Lex(e)),
        Ok(toks) => match parse_ast(toks) {
            None => Err(CompileError::Syntax),
            Some(ast) => Ok(transform(ast)),
        },
    }
}

} // verus!
