//! A byte-level lexical scanner.
//!
//! The scanner turns a stream of bytes into classified tokens: identifiers,
//! numeric literals, quoted string and character literals, invalid-byte
//! markers and an end-of-input marker. `token` holds the token data model,
//! `scanner` the buffered byte source, cursor and literal readers, `lexer`
//! the consumer-facing token queue, `laws` the proved properties of the
//! token stream, and `helps` a small text-building helper.

pub mod helps;
pub mod laws;
pub mod lexer;
pub mod scanner;
pub mod token;
