//! Range-style Asymmetric Numeral Systems (rANS) entropy coding over
//! integer-valued discrete probability distributions.
//!
//! The crate provides a stack-like coder ([`AnsCoder`]) with a 64-bit state
//! register and an overflow buffer of 32-bit words, together with two
//! distribution adapters that expose a common fixed-point probability
//! interface: a leaky quantizer for continuous distributions and a
//! categorical distribution built from arbitrary non-negative weights.

use vstd::prelude::*;

mod categorical;
mod coder;
mod distribution;
mod error;
mod pmf;
mod quantizer;

pub use categorical::{
    categorical_matches, count_marked, params_of, prob_prefix_sum, prob_with_bonus, Categorical,
    CategoricalParams,
};
pub use coder::{
    coder_wf, decoding_complete, finish_words, initial_model, lemma_fresh_coder_decodes,
    lemma_num_bits_monotone, lemma_push_pop_inverse, lemma_round_trip,
    lemma_serialization_round_trip, load_model, num_bits_model, pop_all, pop_mid_state, pop_model,
    pop_symbol_model, pop_underflows, push_all, push_buf, push_model, push_state, renorm_needed,
    AnsCoder, CoderModel, RENORM_FACTOR, WORD_BASE,
};
pub use distribution::lemma_quantile_at_left_cumulative;
pub use distribution::lemma_quantile_consistency;
pub use distribution::lemma_total_mass_from_contiguity;
pub use distribution::probability_sum;
pub use distribution::DiscreteDistribution;
pub use error::CoderError;
pub use quantizer::LeakyQuantizedDistribution;
pub use quantizer::LeakyQuantizer;

verus! {

/// Number of fractional bits in the fixed-point probability representation.
pub const FREQUENCY_BITS: u32 = 24;

/// Total probability mass shared by every distribution: `2^FREQUENCY_BITS`.
pub const TOTAL: u32 = 16777216;

} // verus!
