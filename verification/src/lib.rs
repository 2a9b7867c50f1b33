//! A reader and printer for a small Lisp: text is split into tokens, tokens
//! are assembled into a tree of values, and values are rendered back to text.
//!
//! Every function states what it computes over sequences of characters and
//! the mathematical views of the data types. The module `roundtrip` holds
//! the laws that connect printing with reading.

pub mod chars;
pub mod numeral;
pub mod parser;
pub mod printer;
pub mod reader;
pub mod roundtrip;
pub mod types;
