//! Verified core of a GraphQL minifier: block string handling, template
//! literal spacing, description cleaning and a UTF-8 byte buffer.

pub mod text;
pub mod block_string;
pub mod lexer;
pub mod vec_str;
pub mod minimizer;
pub mod description;
pub mod roundtrip;
