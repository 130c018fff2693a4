use vstd::prelude::*;

use crate::error::CoderError;
use crate::TOTAL;

verus! {

/// The capability the coder needs from a discrete distribution: a forward
/// lookup from a symbol to `(left_cumulative, probability)` and an inverse
/// lookup from a quantile in `[0, TOTAL)` back to the unique symbol whose
/// cumulative interval contains it.
///
/// The spec functions form the mathematical model: `left_cumulative` and
/// `probability` describe the fixed-point PMF, and `symbol_at` is the
/// quantile function. The proof obligations tie them together: every
/// quantile lands in the interval of the symbol it maps to, and that symbol
/// is unique.
pub trait DiscreteDistribution<S>: Sized {
    /// The distribution's internal invariant.
    spec fn wf(&self) -> bool;

    /// Whether `symbol` lies in the distribution's support.
    spec fn supported(&self, symbol: S) -> bool;

    /// Mass of all symbols strictly below `symbol`: the start of its
    /// interval in `[0, TOTAL)`.
    spec fn left_cumulative(&self, symbol: S) -> int;

    /// Fixed-point probability of `symbol`, in `[1, TOTAL]` on the support.
    spec fn probability(&self, symbol: S) -> int;

    /// The unique symbol whose interval `[left_cumulative, left_cumulative
    /// + probability)` contains `quantile`.
    spec fn symbol_at(&self, quantile: int) -> S;

    /// On the support, probabilities are at least one unit of mass and
    /// intervals stay inside `[0, TOTAL)`.
    proof fn lemma_supported_valid(&self, symbol: S)
        requires
            self.wf(),
            self.supported(symbol),
        ensures
            1 <= self.probability(symbol),
            0 <= self.left_cumulative(symbol),
            self.left_cumulative(symbol) + self.probability(symbol) <= TOTAL as int,
    ;

    /// Every quantile in `[0, TOTAL)` lands inside the interval of the
    /// symbol it maps to.
    proof fn lemma_symbol_at_interval(&self, quantile: int)
        requires
            self.wf(),
            0 <= quantile < TOTAL as int,
        ensures
            self.supported(self.symbol_at(quantile)),
            self.left_cumulative(self.symbol_at(quantile)) <= quantile,
            quantile < self.left_cumulative(self.symbol_at(quantile)) + self.probability(
                self.symbol_at(quantile),
            ),
    ;

    /// A quantile inside a supported symbol's interval maps back to exactly
    /// that symbol.
    proof fn lemma_symbol_at_unique(&self, symbol: S, quantile: int)
        requires
            self.wf(),
            self.supported(symbol),
            self.left_cumulative(symbol) <= quantile,
            quantile < self.left_cumulative(symbol) + self.probability(symbol),
        ensures
            self.symbol_at(quantile) == symbol,
    ;

    /// Forward lookup: the symbol's interval, or `UnsupportedSymbol` when it
    /// lies outside the support.
    fn left_cumulative_and_probability(&self, symbol: S) -> (r: Result<(u32, u32), CoderError>)
        requires
            self.wf(),
        ensures
            match r {
                Ok(cp) => self.supported(symbol) && cp.0 == self.left_cumulative(symbol)
                    && cp.1 == self.probability(symbol),
                Err(e) => !self.supported(symbol) && e == CoderError::UnsupportedSymbol,
            },
    ;

    /// Inverse lookup: the symbol whose interval contains `quantile`,
    /// together with that interval. Total on `[0, TOTAL)`.
    fn quantile_function(&self, quantile: u32) -> (r: (S, u32, u32))
        requires
            self.wf(),
            quantile < TOTAL,
        ensures
            r.0 == self.symbol_at(quantile as int),
            r.1 == self.left_cumulative(r.0),
            r.2 == self.probability(r.0),
    ;
}

/// Looking up the quantile at a supported symbol's left cumulative returns
/// that very symbol together with its interval.
pub proof fn lemma_quantile_at_left_cumulative<S, D: DiscreteDistribution<S>>(d: &D, symbol: S)
    requires
        d.wf(),
        d.supported(symbol),
    ensures
        d.symbol_at(d.left_cumulative(symbol)) == symbol,
{
    d.lemma_supported_valid(symbol);
    d.lemma_symbol_at_unique(symbol, d.left_cumulative(symbol));
}

/// For every quantile `q` in `[0, TOTAL)`, the symbol the inverse lookup
/// yields is supported and its interval contains `q`; the forward lookup on
/// that symbol returns the same interval by definition.
pub proof fn lemma_quantile_consistency<S, D: DiscreteDistribution<S>>(d: &D, quantile: int)
    requires
        d.wf(),
        0 <= quantile < TOTAL as int,
    ensures
        d.supported(d.symbol_at(quantile)),
        d.left_cumulative(d.symbol_at(quantile)) <= quantile,
        quantile < d.left_cumulative(d.symbol_at(quantile)) + d.probability(d.symbol_at(quantile)),
{
    d.lemma_symbol_at_interval(quantile);
}

/// Sum of the probabilities of the symbols `lo <= s < hi` (as `i32` values).
pub open spec fn probability_sum<D: DiscreteDistribution<i32>>(d: &D, lo: int, hi: int) -> int
    decreases hi - lo,
{
    if lo >= hi {
        0
    } else {
        probability_sum(d, lo, hi - 1) + d.probability((hi - 1) as i32)
    }
}

/// A distribution whose cumulative table starts at zero, is contiguous, and
/// ends at `TOTAL` has probabilities that sum to exactly `TOTAL` over its
/// support.
pub proof fn lemma_total_mass_from_contiguity<D: DiscreteDistribution<i32>>(
    d: &D,
    min: i32,
    max: i32,
)
    requires
        d.wf(),
        min <= max,
        d.left_cumulative(min) == 0,
        d.left_cumulative(max) + d.probability(max) == TOTAL as int,
        forall|s: i32|
            min <= s < max ==> d.left_cumulative(#[trigger] ((s + 1) as i32)) == d.left_cumulative(
                s,
            ) + d.probability(s),
    ensures
        probability_sum(d, min as int, max as int + 1) == TOTAL as int,
{
    lemma_partial_sums_are_cumulatives(d, min, max, max);
}

/// Partial sums of the probabilities reproduce the cumulative table: the sum
/// over `[min, upto]` equals `left_cumulative(upto) + probability(upto)`.
proof fn lemma_partial_sums_are_cumulatives<D: DiscreteDistribution<i32>>(
    d: &D,
    min: i32,
    max: i32,
    upto: i32,
)
    requires
        d.wf(),
        min <= upto <= max,
        d.left_cumulative(min) == 0,
        forall|s: i32|
            min <= s < max ==> d.left_cumulative(#[trigger] ((s + 1) as i32)) == d.left_cumulative(
                s,
            ) + d.probability(s),
    ensures
        probability_sum(d, min as int, upto as int + 1) == d.left_cumulative(upto) + d.probability(
            upto,
        ),
    decreases upto - min,
{
    if upto == min {
        assert(probability_sum(d, min as int, min as int) == 0);
        assert(probability_sum(d, min as int, min as int + 1) == d.probability(min));
    } else {
        let prev = (upto - 1) as i32;
        lemma_partial_sums_are_cumulatives(d, min, max, prev);
        assert(d.left_cumulative((prev + 1) as i32) == d.left_cumulative(prev) + d.probability(
            prev,
        ));
    }
}

} // verus!
