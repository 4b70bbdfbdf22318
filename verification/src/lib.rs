//! A front end for a small language of pattern-matched functions, which it
//! lowers to Lua source text.
//!
//! The stages, in order: [`lexer`] turns text into tokens with the matchers
//! of [`matcher`] over the cursor of [`tokenizer`]; [`parser`] turns tokens
//! into the syntax tree of [`ast`], as [`grammar`] says; [`checker`] makes
//! sure that every name is bound where it is used, with the scopes of
//! [`symtab`]; [`transpiler`] writes the tree out as Lua. [`compile`] runs
//! them in a row.
//!
//! [`scoping`], [`finished`] and [`positions`] hold what is proved of the
//! stages together: what the checker decides, that the end-of-input mark
//! stays out of the tree, and that every position handed out lies in the
//! text.

pub mod token;
pub mod text;
pub mod error;
pub mod tokenizer;
pub mod matcher;
pub mod lexer;
pub mod ast;
pub mod traveler;
pub mod grammar;
pub mod parser;
pub mod symtab;
pub mod checker;
pub mod transpiler;
pub mod compile;
pub mod scoping;
pub mod finished;
pub mod positions;
