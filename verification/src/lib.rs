//! A verified lexical analyzer for a small C-like scripting language: it
//! turns a source text into a stream of classified tokens, one per call,
//! ending in a repeating end-of-file token.

pub mod lexer;
