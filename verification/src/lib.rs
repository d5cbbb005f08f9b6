//! Lexical scanner for a small dynamically-typed scripting language.
//!
//! The scanner turns raw source text into an ordered sequence of classified
//! tokens together with a sequence of non-fatal lexical errors.  Its whole
//! behaviour is captured by the specification function
//! [`scan::scan_from`], and `Lexer::scan_tokens` is proved to return exactly
//! what that function describes.

pub mod error;
pub mod lexer;
pub mod scan;
pub mod token;
pub mod token_type;
