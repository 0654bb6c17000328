//! The whole front end in one call: from an input string to a checked postfix
//! token sequence.

use crate::expr_parser::{postfix_of, to_rpn, MismatchedParenError};
use crate::lexing::{lemma_lexed_in_grammar, lex_all, LexError, LexState};
use crate::robuffer::{ascii_bytes, ROBuffer};
use crate::sema::{check_infix, check_rpn, infix_verdict, rpn_verdict, InfixError, RpnError};
use crate::tokeniser::{outcome, Token, TokenView, Tokeniser};
use vstd::prelude::*;
use vstd::utf8::is_ascii_chars;

verus! {

/// Why an input string does not compile: the stage that rejected it and what
/// that stage reports.
#[derive(Debug, PartialEq, Eq, Clone, Copy)]
pub enum CompileError {
    /// The input holds a character outside 7-bit ASCII.
    Encoding,
    /// The input holds a byte that begins no token.
    Lex(LexError),
    /// The infix check rejected the tokens.
    Infix(InfixError),
    /// The reduction met a right parenthesis that closes nothing.
    MismatchedParen(MismatchedParenError),
    /// The postfix check rejected what the reduction gave.
    Rpn(RpnError),
}

/// What compiling `input` gives. The stages run in a fixed order: tokenising,
/// the infix check, the reduction, the postfix check. The first that fails
/// decides the error, and nothing after it runs.
pub open spec fn compiled(input: Seq<char>) -> Result<Seq<TokenView>, CompileError> {
    if !is_ascii_chars(input) {
        Err(CompileError::Encoding)
    } else {
        match lex_all(LexState::start(ascii_bytes(input))) {
            Err(e) => Err(CompileError::Lex(e)),
            Ok(tokens) => match infix_verdict(tokens) {
                Err(e) => Err(CompileError::Infix(e)),
                Ok(_) => match postfix_of(tokens) {
                    Err(e) => Err(CompileError::MismatchedParen(e)),
                    Ok(postfix) => match rpn_verdict(postfix) {
                        Err(e) => Err(CompileError::Rpn(e)),
                        Ok(_) => Ok(postfix),
                    },
                },
            },
        }
    }
}

/// Compiles an input string to a checked postfix token sequence.
pub fn compile_to_rpn(input: String) -> (r: Result<Vec<Token>, CompileError>)
    requires
        input@.len() < u32::MAX,
    ensures
        outcome(r) == compiled(input@),
{
    let buf = match ROBuffer::new(input) {
        Ok(buf) => buf,
        Err(_) => {
            return Err(CompileError::Encoding);
        },
    };
    let mut tokeniser = Tokeniser::from_buffer(buf);
    let tokens = match tokeniser.collect() {
        Ok(tokens) => tokens,
        Err(e) => {
            return Err(CompileError::Lex(e));
        },
    };
    proof {
        lemma_lexed_in_grammar(LexState::start(ascii_bytes(input@)));
    }
    if let Err(e) = check_infix(&tokens) {
        return Err(CompileError::Infix(e));
    }
    let postfix = match to_rpn(tokens) {
        Ok(postfix) => postfix,
        Err(e) => {
            return Err(CompileError::MismatchedParen(e));
        },
    };
    if let Err(e) = check_rpn(&postfix) {
        return Err(CompileError::Rpn(e));
    }
    Ok(postfix)
}

} // verus!
