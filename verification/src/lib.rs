//! An order-9 Markov-chain text generator.
//!
//! The generator learns byte-level transition statistics from training text
//! and later produces new text, either unconditioned ([`MarkovGenerator::speak`])
//! or seeded by the tail of an input message ([`MarkovGenerator::reply`]).
//! The model maps each fixed-length context window ([`MarkovKey`]) to a
//! frequency distribution over observed successor symbols ([`MarkovValue`]),
//! which generation samples proportionally to frequency.

use vstd::prelude::*;

pub mod chain;
pub mod dist;
pub mod key;
pub mod pairs;
pub mod rand;

pub use chain::MarkovGenerator;
pub use dist::MarkovValue;
pub use key::MarkovKey;
pub use pairs::markov_pairs;
pub use rand::Rand;

verus! {

/// Number of symbols in a context window.
pub const MARKOV_ORDER: usize = 9;

/// Reserved symbol: it pads the initial context and, when sampled, marks the
/// natural end of a generated phrase.
pub const SENTINEL: u8 = 0;

/// Training samples shorter than this many symbols are rejected as noise.
pub const MIN_LEARN_LEN: usize = 20;

/// How many generation attempts a retry loop makes before reporting failure.
pub const RETRY_ATTEMPTS: usize = 12;

/// Hard cap on the number of symbols one generation attempt emits, so that a
/// cyclic chain cannot keep an attempt running forever.
pub const MAX_GENERATED: usize = 65536;

} // verus!
