//! Lexical analysis for CPTML: a bounded-lookahead UTF-8 reader, a lossless
//! tokenizer and a one-level tag assembler.

pub mod basic_parser;
pub mod chars;
pub mod delimited;
pub mod errors;
pub mod inline_text;
pub mod names;
pub mod number;
pub mod peek_reader;
pub mod pos;
pub mod raw_tokenizer;
pub mod text;
pub mod token;
pub mod values;
