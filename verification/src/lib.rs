//! A small collection of word- and number-play utilities around a verified
//! symbolic differentiation engine: tokenizing and parsing flat arithmetic
//! formulas, taking derivatives with identity simplification, anagram and
//! letter-removal helpers, Anglossic Qabbala gematria, English number names,
//! triangular numbers, a five-month calendar, and the state of a small
//! terminal prompt.

pub mod ana;
pub mod aq;
pub mod config;
pub mod deriv;
pub mod engine;
pub mod expr;
pub mod gram;
pub mod parser;
pub mod prim;
pub mod roundtrip;
pub mod pentazygon;
pub mod tetractys;
pub mod text;
pub mod tokens;
pub mod tui;
