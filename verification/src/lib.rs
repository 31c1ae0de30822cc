//! Lexical analysis for a small programming language.
//!
//! The scanner turns raw source text into a flat, ordered sequence of
//! [`token::Token`] values in one forward pass with one character of
//! lookahead. Its behaviour is specified by a mathematical model of the
//! scan ([`scan::spec_tokenize`]) over the source text's character
//! sequence, and [`token::Token::tokenize`] is proved to return exactly
//! what the model says: a complete token sequence, or the first fatal
//! error the scan runs into.

pub mod laws;
pub mod scan;
pub mod token;
