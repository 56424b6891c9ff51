//! Lexical-analysis front end for a small dynamically-typed scripting
//! language: it turns raw source text into an ordered sequence of classified
//! tokens plus an ordered list of diagnostics, ready for a parser.

pub mod char_class;
pub mod helper;
pub mod laws;
pub mod scan_spec;
pub mod scanner;
pub mod token;
