//! A second-order Markov model over sequences of symbols.
//!
//! A [`Markov`] table records, for every pair of adjacent symbols seen in the
//! sequences it was given, how often each symbol came next. A walk through
//! the table starts at one of the recorded pairs and repeatedly draws a
//! successor with probability proportional to its count.

pub mod laws;
pub mod markov;
pub mod observe;
pub mod sampling;
pub mod symbol;
pub mod tally;

pub use markov::Markov;
