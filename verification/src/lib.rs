//! A reader for a small declarative configuration language.
//!
//! A document is a list of tags. Each tag has a name, an ordered list of
//! literal values, a set of named attributes, and either a `;` or a
//! brace-delimited block of child tags:
//!
//! ```text
//! author "Kirill Vasiltsov" active=true;
//! server { host "localhost"; size 8080; }
//! ```
//!
//! [`scanner::Scanner`] turns the source text into tokens, one per call, and
//! [`parser::Parser`] builds the tag tree from them; [`report::render`]
//! writes the report of a syntax error. What each of them returns is
//! stated against the description of the language as mathematical
//! functions: [`lexis`] leads from the bytes of a source to its tokens,
//! [`grammar`] from the tokens to the tags.
//!
//! [`notation`] describes how values and tags are written. [`laws`] and
//! [`round_trip`] hold what is proved of reading and writing as a whole:
//! among other things, that reading is a function of the source, that
//! whatever is written as the notation describes reads back as what was
//! written, and that every tag that is read from a source, written again
//! with its values and attributes, reads back as itself. [`written`] holds
//! the steps of these proofs that concern single tokens.

pub mod text;
pub mod number;
pub mod lexis;
pub mod scanner;
pub mod grammar;
pub mod parser;
pub mod report;
pub mod notation;
pub mod laws;
pub mod written;
pub mod round_trip;
