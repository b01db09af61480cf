//! Front end of a small functional language: a lexer, a recursive-descent
//! parser for kinds, types and expressions, and a name-resolution pass that
//! turns surface identifiers into context-relative indices.

pub mod syntax;
pub mod internal;
pub mod names;
pub mod to_internal;
pub mod lex;
pub mod parse;
pub mod laws;

pub use parse::{expr, ident, kind, type_};
pub use to_internal::convert_expr;
