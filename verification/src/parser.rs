use vstd::prelude::*;
use crate::error::SyntaxError;
use crate::instruction::Instruction;
use crate::parser::symbolparser::{parse_program, parse_symbols, parsed_block};
use crate::parser::textparser::{lex, parse_text, placed};

pub mod roundtrip;
pub mod symbolparser;
pub mod textparser;

verus! {

/// Parses a source text into its instructions: the text is read into its
/// token tree, and the token tree into the program. The first error met,
/// in reading or in parsing, is the result.
pub fn parse(code: &str) -> (r: Result<Vec<Instruction>, SyntaxError>)
    requires
        code@.len() < usize::MAX,
    ensures
        parsed_block(r) == (match lex(placed(code@)) {
            Ok(tokens) => parse_program(tokens),
            Err(e) => Err(e),
        }),
{
    match parse_text(code) {
        Ok(symbols) => parse_symbols(symbols.as_slice()),
        Err(e) => Err(e),
    }
}

} // verus!
