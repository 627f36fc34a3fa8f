//! Symbolic differentiation of single-variable arithmetic expressions.
//!
//! Input text is lexed and parsed into an expression tree, normalised by a
//! pattern-driven rewrite engine, differentiated with respect to `x` by a
//! second rule set, and rendered back as fully parenthesised text.
//!
//! Literals are exact rationals (`num::Num`): an `i64` numerator over a
//! positive `i64` denominator, in lowest terms. This changes a few results
//! against binary floating point:
//! - a fold whose exact result is no such number is left undone, so
//!   `1 / 0` stays a division (there is no non-finite literal), `2 ^ 0.5`
//!   stays a power (only integer exponents fold), and so does a result out
//!   of the `i64` range;
//! - arithmetic is exact, so `0.1 + 0.2` folds to `0.3`;
//! - a value without a finite decimal expansion prints as the quotient of
//!   its parts, `(1 / 3)`, which reads back as a division node rather than
//!   a literal;
//! - a numeral whose digits exceed `i64`, or with more than 18 digits after
//!   the point, lexes as an error token.

pub mod num;
pub mod lexer;
pub mod parser;
pub mod rule;
pub mod transformations;
pub mod pipeline;
pub mod numeral;
pub mod roundtrip;
