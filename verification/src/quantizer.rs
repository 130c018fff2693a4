use vstd::prelude::*;

use crate::distribution::{lemma_total_mass_from_contiguity, probability_sum, DiscreteDistribution};
use crate::error::CoderError;
use crate::pmf::CumulativeTable;
use crate::TOTAL;

verus! {

/// Discretizes continuous distributions over the bounded integer alphabet
/// `[min, max]` into fixed-point PMFs in which every symbol of the alphabet
/// keeps at least one unit of probability mass.
///
/// One unit of mass is reserved for each of the `span = max - min + 1`
/// symbols; the remaining `TOTAL - span` units are distributed according to
/// the continuous distribution's CDF, which is consumed in already
/// discretized form (see [`LeakyQuantizer::quantize`]).
pub struct LeakyQuantizer {
    min: i32,
    max: i32,
}

impl LeakyQuantizer {
    /// Smallest symbol of the alphabet.
    pub closed spec fn min_symbol(&self) -> int {
        self.min as int
    }

    /// Largest symbol of the alphabet.
    pub closed spec fn max_symbol(&self) -> int {
        self.max as int
    }

    pub open spec fn span(&self) -> int {
        self.max_symbol() - self.min_symbol() + 1
    }

    /// Mass left to distribute once one unit is reserved per symbol.
    pub open spec fn free_mass(&self) -> int {
        TOTAL as int - self.span()
    }

    pub open spec fn wf(&self) -> bool {
        self.min_symbol() <= self.max_symbol() && self.span() <= TOTAL as int
    }

    /// A quantizer over the alphabet `[min, max]`, provided the alphabet is
    /// non-empty and no wider than the total probability mass.
    pub fn new(min: i32, max: i32) -> (r: Result<LeakyQuantizer, CoderError>)
        ensures
            r is Ok <==> (min <= max && max - min + 1 <= TOTAL as int),
            r matches Ok(q) ==> q.min_symbol() == min && q.max_symbol() == max && q.wf(),
            r is Err ==> r == Err::<LeakyQuantizer, CoderError>(CoderError::InvalidDistribution),
    {
        if min > max {
            return Err(CoderError::InvalidDistribution);
        }
        if (max as i64) - (min as i64) + 1 > TOTAL as i64 {
            return Err(CoderError::InvalidDistribution);
        }
        Ok(LeakyQuantizer { min, max })
    }

    /// What `quantize` accepts: one value per interior symbol boundary,
    /// non-decreasing and bounded by the free mass. `scaled_cdf[i]` stands
    /// for `floor(cdf(min + i + 0.5) * free_mass)`, the continuous CDF
    /// between symbols `min + i` and `min + i + 1` scaled to fixed point.
    /// Any genuine CDF discretized this way satisfies both conditions.
    pub open spec fn valid_scaled_cdf(&self, scaled_cdf: Seq<u32>) -> bool {
        &&& scaled_cdf.len() == self.span() - 1
        &&& forall|i: int, j: int|
            0 <= i <= j < scaled_cdf.len() ==> #[trigger] scaled_cdf[i] <= #[trigger] scaled_cdf[j]
        &&& forall|i: int| 0 <= i < scaled_cdf.len() ==> #[trigger] scaled_cdf[i] <= self.free_mass()
    }

    /// Build the leaky PMF from a discretized CDF. The left cumulative of
    /// the smallest symbol is `0`; for every other symbol `s` it is
    /// `scaled_cdf[s - min - 1] + (s - min)`, the CDF term plus one reserved
    /// unit per smaller symbol; the intervals are contiguous and the last
    /// one ends exactly at `TOTAL`, which makes every probability at least
    /// `1`.
    pub fn quantize(&self, scaled_cdf: &Vec<u32>) -> (r: Result<
        LeakyQuantizedDistribution,
        CoderError,
    >)
        requires
            self.wf(),
        ensures
            r is Ok <==> self.valid_scaled_cdf(scaled_cdf@),
            r matches Ok(d) ==> {
                &&& d.wf()
                &&& d.min_symbol() == self.min_symbol()
                &&& d.max_symbol() == self.max_symbol()
                &&& d.left_cumulative(self.min_symbol() as i32) == 0
                &&& forall|s: i32|
                    self.min_symbol() < s <= self.max_symbol() ==> #[trigger] d.left_cumulative(s)
                        == scaled_cdf@[s - self.min_symbol() - 1] + (s - self.min_symbol())
                &&& forall|s: i32|
                    self.min_symbol() <= s < self.max_symbol() ==> #[trigger] d.probability(s)
                        == d.left_cumulative((s + 1) as i32) - d.left_cumulative(s)
                &&& d.probability(self.max_symbol() as i32) == TOTAL - d.left_cumulative(
                    self.max_symbol() as i32,
                )
            },
            r is Err ==> r == Err::<LeakyQuantizedDistribution, CoderError>(
                CoderError::InvalidDistribution,
            ),
    {
        let span = ((self.max as i64) - (self.min as i64) + 1) as usize;
        let free = (TOTAL as i64 - (span as i64)) as u32;
        if scaled_cdf.len() != span - 1 {
            return Err(CoderError::InvalidDistribution);
        }
        let mut i: usize = 0;
        while i < scaled_cdf.len()
            invariant
                self.wf(),
                span == self.span(),
                free == self.free_mass(),
                scaled_cdf@.len() == self.span() - 1,
                forall|a: int, b: int|
                    0 <= a <= b < i ==> #[trigger] scaled_cdf@[a] <= #[trigger] scaled_cdf@[b],
                forall|a: int| 0 <= a < i ==> #[trigger] scaled_cdf@[a] <= self.free_mass(),
            decreases scaled_cdf.len() - i,
        {
            if scaled_cdf[i] > free {
                return Err(CoderError::InvalidDistribution);
            }
            if i > 0 && scaled_cdf[i - 1] > scaled_cdf[i] {
                return Err(CoderError::InvalidDistribution);
            }
            i = i + 1;
        }
        let mut cum: Vec<u32> = Vec::new();
        cum.push(0);
        let mut k: usize = 1;
        while k < span
            invariant
                self.wf(),
                span == self.span(),
                free == self.free_mass(),
                self.valid_scaled_cdf(scaled_cdf@),
                1 <= k <= span,
                cum@.len() == k,
                cum@[0] == 0u32,
                forall|j: int|
                    1 <= j < k ==> #[trigger] cum@[j] == scaled_cdf@[j - 1] + j,
            decreases span - k,
        {
            let v = scaled_cdf[k - 1] + (k as u32);
            cum.push(v);
            k = k + 1;
        }
        cum.push(TOTAL);
        let table = CumulativeTable { min: self.min, max: self.max, cum };
        proof {
            assert forall|a: int, b: int| 0 <= a < b <= table.span() implies #[trigger] table.cum@[a]
                < #[trigger] table.cum@[b] by {
                if b < table.span() {
                    assert(table.cum@[b] == scaled_cdf@[b - 1] + b);
                }
                if 0 < a {
                    assert(table.cum@[a] == scaled_cdf@[a - 1] + a);
                    if b < table.span() {
                        assert(scaled_cdf@[a - 1] <= scaled_cdf@[b - 1]);
                    }
                }
            }
            assert(table.wf());
        }
        Ok(LeakyQuantizedDistribution { table })
    }
}

/// A continuous distribution quantized by a [`LeakyQuantizer`]: a
/// fixed-point PMF over `[min, max]` with every probability at least `1`.
pub struct LeakyQuantizedDistribution {
    table: CumulativeTable,
}

impl LeakyQuantizedDistribution {
    pub closed spec fn min_symbol(&self) -> int {
        self.table.min as int
    }

    pub closed spec fn max_symbol(&self) -> int {
        self.table.max as int
    }

    /// The support is exactly the quantizer's alphabet `[min, max]`.
    pub proof fn lemma_support(&self)
        ensures
            forall|s: i32|
                #[trigger] self.supported(s) <==> self.min_symbol() <= s <= self.max_symbol(),
    {
    }

    /// The cumulative table starts at zero, is contiguous, and ends at
    /// `TOTAL`.
    pub proof fn lemma_contiguous(&self)
        requires
            self.wf(),
        ensures
            self.left_cumulative(self.min_symbol() as i32) == 0,
            forall|s: i32|
                self.min_symbol() <= s < self.max_symbol() ==> #[trigger] self.left_cumulative(
                    (s + 1) as i32,
                ) == self.left_cumulative(s) + self.probability(s),
            self.left_cumulative(self.max_symbol() as i32) + self.probability(
                self.max_symbol() as i32,
            ) == TOTAL as int,
    {
    }

    /// Probabilities are everywhere positive on the support and sum to
    /// exactly `TOTAL` over it.
    pub proof fn lemma_total_mass(&self)
        requires
            self.wf(),
        ensures
            probability_sum(self, self.min_symbol(), self.max_symbol() + 1) == TOTAL as int,
            forall|s: i32| #[trigger] self.supported(s) ==> self.probability(s) >= 1,
    {
        assert forall|s: i32| #[trigger] self.supported(s) implies self.probability(s) >= 1 by {
            self.table.lemma_interval_valid(s);
        }
        lemma_total_mass_from_contiguity(self, self.table.min, self.table.max);
    }
}

impl DiscreteDistribution<i32> for LeakyQuantizedDistribution {
    closed spec fn wf(&self) -> bool {
        self.table.wf()
    }

    closed spec fn supported(&self, symbol: i32) -> bool {
        self.table.sup(symbol)
    }

    closed spec fn left_cumulative(&self, symbol: i32) -> int {
        self.table.lc(symbol)
    }

    closed spec fn probability(&self, symbol: i32) -> int {
        self.table.pr(symbol)
    }

    closed spec fn symbol_at(&self, quantile: int) -> i32 {
        self.table.sym(quantile)
    }

    proof fn lemma_supported_valid(&self, symbol: i32) {
        self.table.lemma_interval_valid(symbol);
    }

    proof fn lemma_symbol_at_interval(&self, quantile: int) {
        self.table.lemma_cell_props(quantile);
    }

    proof fn lemma_symbol_at_unique(&self, symbol: i32, quantile: int) {
        self.table.lemma_sym_unique(symbol, quantile);
    }

    fn left_cumulative_and_probability(&self, symbol: i32) -> (r: Result<(u32, u32), CoderError>) {
        self.table.lookup(symbol)
    }

    fn quantile_function(&self, quantile: u32) -> (r: (i32, u32, u32)) {
        self.table.quantile(quantile)
    }
}

} // verus!
