//! A small interpreter for a subset of the J array language: integer
//! matrices, a handful of verbs and adverbs, and named variables.
mod error;
mod mat;
mod array;
mod ast;
mod display;
mod verbs;
mod adverbs;
mod symbol;
mod lex;
mod parse;
mod eval;
pub mod laws;

pub use error::{JError, R};
pub use mat::Mat;
pub use array::{A, MI, MU, MX};
pub use ast::{D, M, Yd, Ym};
pub use symbol::{SY, ST};
pub use ast::N;
pub use eval::eval;
pub use lex::{T, lex};
pub use parse::parse;
