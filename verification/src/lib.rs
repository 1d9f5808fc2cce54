//! A small textual scripting format ("directive file"): named blocks of
//! commands run by a stack-based interpreter with variables, conditionals,
//! loops, named-block invocation with cycle-safe dependency checking, and
//! host-mediated side effects. Source text goes through the tokenizer and the
//! block parser into a block mapping; the resolver checks every `call` target
//! reachable from the entry directive before the engine runs anything. The
//! engine itself is pure: side effects are handed to the caller as requests,
//! and the run is replayed deterministically from the list of answers.

pub mod token;
pub mod lexer;
pub mod parser;
pub mod resolve;
pub mod value;
pub mod engine;
