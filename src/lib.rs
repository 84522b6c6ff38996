//! A bag of words: text reduced to its distinct words, each with the number
//! of times it occurs.
//!
//! Words are separated by whitespace and consist of one or more letters with
//! no internal punctuation; leading and trailing non-letters are trimmed
//! away. A word holding an uppercase letter is stored in lowercase.

pub mod bag;
pub mod laws;
pub mod order;
pub mod text;

pub use bag::Bbow;
