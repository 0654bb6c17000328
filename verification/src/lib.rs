//! Front end of a small arithmetic-expression compiler: a position-tracking
//! tokeniser, an infix-to-postfix reducer and two semantic checks, each with a
//! machine-checked contract.

pub mod expr_parser;
pub mod lexing;
pub mod pipeline;
pub mod robuffer;
pub mod sema;
pub mod text;
pub mod theorems;
pub mod tokeniser;
pub mod utils;
