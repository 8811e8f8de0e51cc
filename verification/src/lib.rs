//! A parser for CSV text in the style of RFC 4180: bytes in, records out.
//!
//! The input is decoded as UTF-8 one character at a time, with one character
//! of lookahead, and scanned into records of fields. Every record has as
//! many fields as the first.

pub mod decode;
pub mod error;
pub mod grammar;
pub mod laws;
pub mod parser;
pub mod render;
pub mod text;
pub mod token;

pub use error::CsvError;
pub use parser::CsvParser;
pub use token::{Token, TokenType};
