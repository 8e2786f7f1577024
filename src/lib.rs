//! Shell-style brace expansion: `{a,b}c` becomes `ac` and `bc`.
//!
//! Braces mark a list of alternatives, commas separate them, and lists may be
//! nested or follow one another. A backslash makes the next character literal.
//! The result is a collection of separate strings, in the order a shell would
//! print them.

pub mod expand;
pub mod laws;
pub mod token;

pub use expand::{
    brace_expand, convert_to_string, expand_one_level, Expansion, Step,
};
pub use token::{Token, TokenIter};
