//! Narrowing a pool of candidate passwords by positional closeness to
//! previously tried words.
//!
//! Every line of the input is a word of the pool. Some of the words were
//! tried before, and come with the number of positions at which they matched
//! the sought word. What is left to try are the words of the pool that every
//! such number allows.
//!
//! - [`password`]: the records of the pool, candidates and witnesses.
//! - [`closeness`]: how close two words are, and what holds of closeness.
//! - [`parse`]: the format of a line.
//! - [`input`]: from the lines of the input to the pool.
//! - [`wordset`]: sets of words.
//! - [`filter`]: from the pool to the words that are left.

pub mod closeness;
pub mod filter;
pub mod input;
pub mod parse;
pub mod password;
pub mod wordset;
