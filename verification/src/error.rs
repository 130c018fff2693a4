use vstd::prelude::*;

verus! {

/// Everything that can go wrong while building a distribution or while
/// encoding or decoding a symbol stream.
#[derive(Clone, Copy, Debug, PartialEq, Eq, Structural)]
pub enum CoderError {
    /// A symbol outside the distribution's support was handed to the encoder.
    UnsupportedSymbol,
    /// The decoder needed to refill its state register but the word buffer
    /// was already empty: the stream is truncated or mismatched.
    Underflow,
    /// Decoding finished with residual data left in the coder.
    NotFullyConsumed,
    /// Distribution construction arguments violate the adapter's
    /// preconditions, such as an empty support or one wider than the
    /// total probability mass.
    InvalidDistribution,
}

} // verus!
