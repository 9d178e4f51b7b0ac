//! Scoring and candidate filtering for a fixed-length word-guessing game.
//!
//! The `wordle` module classifies each letter of a guess against a secret
//! word, with multiplicity bookkeeping for repeated letters; the `utility`
//! module narrows a dictionary to the candidates still consistent with a
//! scored guess.

pub mod utility;
pub mod wordle;
