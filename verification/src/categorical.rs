use vstd::arithmetic::div_mod::{
    lemma_div_is_ordered, lemma_div_multiples_vanish, lemma_fundamental_div_mod, lemma_mod_bound,
};
use vstd::arithmetic::mul::{
    lemma_mul_inequality, lemma_mul_is_commutative, lemma_mul_is_distributive_add,
    lemma_mul_is_distributive_sub,
};
use vstd::prelude::*;

use crate::distribution::{lemma_total_mass_from_contiguity, probability_sum, DiscreteDistribution};
use crate::error::CoderError;
use crate::pmf::CumulativeTable;
use crate::TOTAL;

verus! {

/// The arguments a categorical distribution is built from, gathered for the
/// specification: the supported alphabet `[min_supported, max_supported]`
/// and a weight vector aligned so that `weights[0]` belongs to the symbol
/// `min_provided`.
pub ghost struct CategoricalParams {
    pub min_supported: int,
    pub max_supported: int,
    pub min_provided: int,
    pub weights: Seq<u32>,
}

impl CategoricalParams {
    pub open spec fn span(&self) -> int {
        self.max_supported - self.min_supported + 1
    }

    /// Arguments the constructor accepts: a non-empty alphabet no wider
    /// than the total probability mass.
    pub open spec fn valid(&self) -> bool {
        self.min_supported <= self.max_supported && self.span() <= TOTAL as int
    }

    /// Mass left to distribute once one unit is reserved per symbol.
    pub open spec fn free(&self) -> int {
        TOTAL as int - self.span()
    }

    /// Weight of the symbol `min_supported + i`: the aligned entry of the
    /// provided vector, or zero outside it.
    pub open spec fn raw_weight(&self, i: int) -> int {
        let idx = self.min_supported + i - self.min_provided;
        if 0 <= idx < self.weights.len() {
            self.weights[idx] as int
        } else {
            0
        }
    }

    /// Sum of the raw weights of the first `n` symbols of the alphabet.
    pub open spec fn raw_total(&self, n: int) -> int
        decreases n,
    {
        if n <= 0 {
            0
        } else {
            self.raw_total(n - 1) + self.raw_weight(n - 1)
        }
    }

    /// The weight actually used: when every raw weight is zero, all
    /// symbols count as equally weighted.
    pub open spec fn eff_weight(&self, i: int) -> int {
        if self.raw_total(self.span()) == 0 {
            1
        } else {
            self.raw_weight(i)
        }
    }

    pub open spec fn eff_total(&self) -> int {
        if self.raw_total(self.span()) == 0 {
            self.span()
        } else {
            self.raw_total(self.span())
        }
    }

    /// Whole part of the scaled weight `eff_weight * free / eff_total`:
    /// the mass the symbol receives beyond its reserved unit, before
    /// remainder distribution.
    pub open spec fn floor_part(&self, i: int) -> int {
        self.eff_weight(i) * self.free() / self.eff_total()
    }

    /// Fractional remainder of the scaled weight, as a numerator over the
    /// common denominator `eff_total`.
    pub open spec fn rem_part(&self, i: int) -> int {
        self.eff_weight(i) * self.free() % self.eff_total()
    }

    /// Priority order for distributing the leftover units: larger
    /// fractional remainder first, ties broken towards the smaller symbol.
    pub open spec fn beats(&self, i: int, j: int) -> bool {
        self.rem_part(i) > self.rem_part(j) || (self.rem_part(i) == self.rem_part(j) && i < j)
    }

    /// Sum of the effective weights of the first `n` symbols.
    pub open spec fn eff_sum(&self, n: int) -> int
        decreases n,
    {
        if n <= 0 {
            0
        } else {
            self.eff_sum(n - 1) + self.eff_weight(n - 1)
        }
    }

    pub open spec fn floor_sum(&self, n: int) -> int
        decreases n,
    {
        if n <= 0 {
            0
        } else {
            self.floor_sum(n - 1) + self.floor_part(n - 1)
        }
    }

    pub open spec fn rem_sum(&self, n: int) -> int
        decreases n,
    {
        if n <= 0 {
            0
        } else {
            self.rem_sum(n - 1) + self.rem_part(n - 1)
        }
    }

    /// Units still missing after every symbol got its reserved unit and
    /// the whole part of its scaled weight.
    pub open spec fn deficit(&self) -> int {
        self.free() - self.floor_sum(self.span())
    }

    proof fn lemma_raw_total_nonneg(&self, n: int)
        ensures
            self.raw_total(n) >= 0,
        decreases n,
    {
        if n > 0 {
            self.lemma_raw_total_nonneg(n - 1);
        }
    }

    proof fn lemma_raw_weight_le_total(&self, i: int, n: int)
        requires
            0 <= i < n,
        ensures
            self.raw_weight(i) <= self.raw_total(n),
        decreases n,
    {
        if i == n - 1 {
            self.lemma_raw_total_nonneg(n - 1);
        } else {
            self.lemma_raw_weight_le_total(i, n - 1);
        }
    }

    /// The effective totals are positive and bound each effective weight.
    proof fn lemma_eff_bounds(&self, i: int)
        requires
            self.valid(),
            0 <= i < self.span(),
        ensures
            1 <= self.eff_total(),
            0 <= self.eff_weight(i) <= self.eff_total(),
    {
        self.lemma_raw_total_nonneg(self.span());
        if self.raw_total(self.span()) != 0 {
            self.lemma_raw_weight_le_total(i, self.span());
        }
    }

    /// Every whole part is bounded by the free mass.
    proof fn lemma_floor_part_range(&self, i: int)
        requires
            self.valid(),
            0 <= i < self.span(),
        ensures
            0 <= self.floor_part(i) <= self.free(),
            0 <= self.rem_part(i) < self.eff_total(),
    {
        self.lemma_eff_bounds(i);
        let w = self.eff_weight(i);
        let et = self.eff_total();
        let f = self.free();
        lemma_mul_inequality(w, et, f);
        lemma_div_is_ordered(w * f, et * f, et);
        lemma_mul_is_commutative(et, f);
        lemma_div_multiples_vanish(f, et);
        assert(w * f >= 0) by (nonlinear_arith)
            requires
                w >= 0,
                f >= 0,
        ;
        vstd::arithmetic::div_mod::lemma_div_pos_is_pos(w * f, et);
        lemma_mod_bound(w * f, et);
    }

    /// The effective weights sum to the effective total.
    proof fn lemma_eff_sum_total(&self, n: int)
        requires
            0 <= n <= self.span(),
        ensures
            self.eff_sum(n) == if self.raw_total(self.span()) == 0 {
                n
            } else {
                self.raw_total(n)
            },
        decreases n,
    {
        if n > 0 {
            self.lemma_eff_sum_total(n - 1);
        }
    }

    /// Exact division bookkeeping: denominator times the floor sum plus the
    /// remainder sum reproduces `free` times the weight sum.
    proof fn lemma_division_identity(&self, n: int)
        requires
            self.valid(),
            0 <= n <= self.span(),
        ensures
            self.eff_total() * self.floor_sum(n) + self.rem_sum(n) == self.free() * self.eff_sum(n),
        decreases n,
    {
        let et = self.eff_total();
        let f = self.free();
        if n == 0 {
            assert(et * 0 == 0) by (nonlinear_arith);
            assert(f * 0 == 0) by (nonlinear_arith);
        } else {
            self.lemma_division_identity(n - 1);
            let w = self.eff_weight(n - 1);
            self.lemma_eff_bounds(n - 1);
            lemma_fundamental_div_mod(w * f, et);
            assert(et * self.floor_sum(n) == et * self.floor_sum(n - 1) + et * self.floor_part(
                n - 1,
            )) by {
                lemma_mul_is_distributive_add(et, self.floor_sum(n - 1), self.floor_part(n - 1));
            }
            assert(f * self.eff_sum(n) == f * self.eff_sum(n - 1) + f * w) by {
                lemma_mul_is_distributive_add(f, self.eff_sum(n - 1), w);
            }
            lemma_mul_is_commutative(f, w);
        }
    }

    proof fn lemma_rem_sum_bounds(&self, n: int)
        requires
            self.valid(),
            0 <= n <= self.span(),
        ensures
            0 <= self.rem_sum(n) <= n * (self.eff_total() - 1),
        decreases n,
    {
        if n == 0 {
            assert(0 * (self.eff_total() - 1) == 0) by (nonlinear_arith);
        } else {
            self.lemma_rem_sum_bounds(n - 1);
            self.lemma_floor_part_range(n - 1);
            assert(n * (self.eff_total() - 1) == (n - 1) * (self.eff_total() - 1) + (
            self.eff_total() - 1)) by (nonlinear_arith);
        }
    }

    /// The leftover units to distribute: at least zero, fewer than the
    /// number of symbols.
    proof fn lemma_deficit_bounds(&self)
        requires
            self.valid(),
        ensures
            0 <= self.deficit() < self.span(),
            self.floor_sum(self.span()) <= self.free(),
    {
        let et = self.eff_total();
        let f = self.free();
        let n = self.span();
        self.lemma_eff_bounds(0);
        self.lemma_division_identity(n);
        self.lemma_eff_sum_total(n);
        self.lemma_rem_sum_bounds(n);
        assert(self.eff_sum(n) == et);
        assert(et * self.floor_sum(n) + self.rem_sum(n) == f * et);
        assert(et * self.deficit() == self.rem_sum(n)) by {
            lemma_mul_is_distributive_sub(et, f, self.floor_sum(n));
            lemma_mul_is_commutative(f, et);
        }
        assert(0 <= self.deficit()) by (nonlinear_arith)
            requires
                et * self.deficit() >= 0,
                et >= 1,
        ;
        assert(self.deficit() < n) by (nonlinear_arith)
            requires
                et * self.deficit() <= n * (et - 1),
                et >= 1,
                n >= 1,
        ;
    }
}

/// The parameters gathered from the constructor arguments.
pub open spec fn params_of(
    min_supported: i32,
    max_supported: i32,
    min_provided: i32,
    weights: Seq<u32>,
) -> CategoricalParams {
    CategoricalParams {
        min_supported: min_supported as int,
        max_supported: max_supported as int,
        min_provided: min_provided as int,
        weights: weights,
    }
}

/// Number of marked entries among the first `n`.
pub open spec fn count_marked(marks: Seq<bool>, n: int) -> int
    decreases n,
{
    if n <= 0 {
        0
    } else {
        count_marked(marks, n - 1) + if marks[n - 1] {
            1int
        } else {
            0int
        }
    }
}

proof fn lemma_count_marked_update(marks: Seq<bool>, t: int, n: int)
    requires
        0 <= t < marks.len(),
        !marks[t],
        0 <= n <= marks.len(),
    ensures
        count_marked(marks.update(t, true), n) == count_marked(marks, n) + if t < n {
            1int
        } else {
            0int
        },
    decreases n,
{
    if n > 0 {
        lemma_count_marked_update(marks, t, n - 1);
    }
}

proof fn lemma_count_marked_none(marks: Seq<bool>, n: int)
    requires
        0 <= n <= marks.len(),
        forall|i: int| 0 <= i < n ==> !marks[i],
    ensures
        count_marked(marks, n) == 0,
    decreases n,
{
    if n > 0 {
        lemma_count_marked_none(marks, n - 1);
    }
}

proof fn lemma_count_marked_full(marks: Seq<bool>, n: int)
    requires
        0 <= n <= marks.len(),
        forall|i: int| 0 <= i < n ==> marks[i],
    ensures
        count_marked(marks, n) == n,
    decreases n,
{
    if n > 0 {
        lemma_count_marked_full(marks, n - 1);
    }
}

/// Probability of the `i`-th symbol of the alphabet: one reserved unit,
/// the whole part of its scaled weight, and one leftover unit when marked.
pub open spec fn prob_with_bonus(ps: CategoricalParams, marks: Seq<bool>, i: int) -> int {
    1 + ps.floor_part(i) + if marks[i] {
        1int
    } else {
        0int
    }
}

/// Sum of the first `n` probabilities: the cumulative of the `n`-th symbol.
pub open spec fn prob_prefix_sum(ps: CategoricalParams, marks: Seq<bool>, n: int) -> int
    decreases n,
{
    if n <= 0 {
        0
    } else {
        prob_prefix_sum(ps, marks, n - 1) + prob_with_bonus(ps, marks, n - 1)
    }
}

proof fn lemma_prob_prefix_decompose(ps: CategoricalParams, marks: Seq<bool>, n: int)
    requires
        0 <= n,
    ensures
        prob_prefix_sum(ps, marks, n) == n + ps.floor_sum(n) + count_marked(marks, n),
    decreases n,
{
    if n > 0 {
        lemma_prob_prefix_decompose(ps, marks, n - 1);
    }
}

proof fn lemma_prob_prefix_monotone(ps: CategoricalParams, marks: Seq<bool>, m: int, n: int)
    requires
        ps.valid(),
        0 <= m <= n <= ps.span(),
    ensures
        prob_prefix_sum(ps, marks, m) <= prob_prefix_sum(ps, marks, n),
    decreases n - m,
{
    if m < n {
        lemma_prob_prefix_monotone(ps, marks, m, n - 1);
        ps.lemma_floor_part_range(n - 1);
    }
}

proof fn lemma_prob_prefix_strict(ps: CategoricalParams, marks: Seq<bool>, m: int, n: int)
    requires
        ps.valid(),
        0 <= m < n <= ps.span(),
    ensures
        prob_prefix_sum(ps, marks, m) < prob_prefix_sum(ps, marks, n),
    decreases n - m,
{
    ps.lemma_floor_part_range(n - 1);
    if m < n - 1 {
        lemma_prob_prefix_strict(ps, marks, m, n - 1);
    }
}

/// The aligned weight of the `i`-th symbol of the alphabet, read from the
/// provided vector or zero outside it.
fn aligned_weight(min_supported: i32, min_provided: i32, weights: &Vec<u32>, i: usize) -> (w: u32)
    requires
        i < 0x100_0000,
    ensures
        w as int == ({
            let idx = min_supported + i - min_provided;
            if 0 <= idx < weights@.len() {
                weights@[idx] as int
            } else {
                0int
            }
        }),
{
    let idx = (min_supported as i64) + (i as i64) - (min_provided as i64);
    if 0 <= idx && (idx as u64) < (weights.len() as u64) {
        weights[idx as usize]
    } else {
        0
    }
}

/// What `Categorical::from_weights` builds, stated over the observable
/// model of the result: every probability is the reserved unit plus the
/// whole part of the scaled weight, plus at most one leftover unit; and a
/// leftover unit never goes to a symbol that loses the remainder order
/// against one that received none. Together with the total mass `TOTAL`
/// (see `Categorical::lemma_total_mass`) this pins the PMF down uniquely.
pub open spec fn categorical_matches(d: Categorical, ps: CategoricalParams) -> bool {
    &&& d.wf()
    &&& d.min_symbol() == ps.min_supported
    &&& d.max_symbol() == ps.max_supported
    &&& forall|s: i32| #[trigger] d.supported(s) <==> ps.min_supported <= s <= ps.max_supported
    &&& forall|i: int|
        0 <= i < ps.span() ==> #[trigger] d.probability((ps.min_supported + i) as i32) == 1
            + ps.floor_part(i) || d.probability((ps.min_supported + i) as i32) == 2
            + ps.floor_part(i)
    &&& forall|i: int, j: int|
        (0 <= i < ps.span() && 0 <= j < ps.span() && #[trigger] d.probability(
            (ps.min_supported + i) as i32,
        ) == 2 + ps.floor_part(i) && #[trigger] d.probability((ps.min_supported + j) as i32) == 1
            + ps.floor_part(j)) ==> ps.beats(i, j)
}

/// A categorical distribution over the alphabet
/// `[min_supported, max_supported]`, built from non-negative integer
/// weights, with every symbol of the alphabet keeping at least one unit of
/// probability mass.
pub struct Categorical {
    table: CumulativeTable,
}

impl Categorical {
    /// Build the categorical PMF over `[min_supported, max_supported]`
    /// from the weight vector aligned at `min_provided`: each symbol of
    /// the alphabet receives one reserved unit of mass plus the whole part
    /// of its scaled weight `weight * (TOTAL - span) / weight_total`; the
    /// leftover units go to the symbols with the largest fractional
    /// remainders, ties broken towards smaller symbols, so that the masses
    /// sum to exactly `TOTAL`. When every aligned weight is zero the
    /// symbols count as equally weighted. Fails with `InvalidDistribution`
    /// exactly when the alphabet is empty or wider than `TOTAL`.
    pub fn from_weights(
        min_supported: i32,
        max_supported: i32,
        min_provided: i32,
        weights: &Vec<u32>,
    ) -> (r: Result<Categorical, CoderError>)
        ensures
            r is Ok <==> params_of(min_supported, max_supported, min_provided, weights@).valid(),
            r matches Ok(d) ==> categorical_matches(
                d,
                params_of(min_supported, max_supported, min_provided, weights@),
            ),
            r is Err ==> r == Err::<Categorical, CoderError>(CoderError::InvalidDistribution),
    {
        let ghost ps = params_of(min_supported, max_supported, min_provided, weights@);
        if min_supported > max_supported {
            return Err(CoderError::InvalidDistribution);
        }
        if (max_supported as i64) - (min_supported as i64) + 1 > TOTAL as i64 {
            return Err(CoderError::InvalidDistribution);
        }
        let span = ((max_supported as i64) - (min_supported as i64) + 1) as usize;
        let free = (TOTAL as i64 - span as i64) as u64;
        let mut s0: u64 = 0;
        let mut i: usize = 0;
        while i < span
            invariant
                ps == params_of(min_supported, max_supported, min_provided, weights@),
                ps.valid(),
                span == ps.span(),
                free == ps.free(),
                i <= span,
                s0 == ps.raw_total(i as int),
                s0 as int <= i as int * 0xFFFF_FFFF,
            decreases span - i,
        {
            let w = aligned_weight(min_supported, min_provided, weights, i);
            s0 = s0 + w as u64;
            i = i + 1;
        }
        let et: u64 = if s0 == 0 {
            span as u64
        } else {
            s0
        };
        let mut floors: Vec<u32> = Vec::new();
        let mut rems: Vec<u64> = Vec::new();
        let mut sum_f: u64 = 0;
        let mut i: usize = 0;
        while i < span
            invariant
                ps == params_of(min_supported, max_supported, min_provided, weights@),
                ps.valid(),
                span == ps.span(),
                free == ps.free(),
                s0 == ps.raw_total(ps.span()),
                et == ps.eff_total(),
                1 <= et,
                i <= span,
                floors@.len() == i,
                rems@.len() == i,
                forall|j: int| 0 <= j < i ==> floors@[j] == ps.floor_part(j),
                forall|j: int| 0 <= j < i ==> rems@[j] == ps.rem_part(j),
                sum_f == ps.floor_sum(i as int),
                sum_f as int <= i as int * 0x100_0000,
            decreases span - i,
        {
            let w: u64 = if s0 == 0 {
                1
            } else {
                aligned_weight(min_supported, min_provided, weights, i) as u64
            };
            proof {
                ps.lemma_eff_bounds(i as int);
                ps.lemma_floor_part_range(i as int);
                assert(w as int * free as int <= 0xFFFF_FFFF * 0x100_0000) by (nonlinear_arith)
                    requires
                        0 <= w as int <= 0xFFFF_FFFF,
                        0 <= free as int <= 0x100_0000,
                ;
            }
            let num = w * free;
            let fl = num / et;
            let rm = num % et;
            floors.push(fl as u32);
            rems.push(rm);
            sum_f = sum_f + fl;
            i = i + 1;
        }
        proof {
            ps.lemma_deficit_bounds();
        }
        let deficit = free - sum_f;
        let mut bonus: Vec<bool> = Vec::new();
        let mut i: usize = 0;
        while i < span
            invariant
                i <= span,
                bonus@.len() == i,
                forall|j: int| 0 <= j < i ==> !bonus@[j],
            decreases span - i,
        {
            bonus.push(false);
            i = i + 1;
        }
        proof {
            lemma_count_marked_none(bonus@, span as int);
        }
        let mut k: u64 = 0;
        while k < deficit
            invariant
                ps.valid(),
                span == ps.span(),
                deficit == ps.deficit(),
                deficit < span as u64,
                rems@.len() == span,
                forall|j: int| 0 <= j < span ==> rems@[j] == ps.rem_part(j),
                bonus@.len() == span,
                k <= deficit,
                count_marked(bonus@, span as int) == k as int,
                forall|a: int, b: int|
                    0 <= a < span && 0 <= b < span && #[trigger] bonus@[a] && !(#[trigger] bonus@[b])
                        ==> ps.beats(a, b),
            decreases deficit - k,
        {
            let mut best: usize = span;
            let mut t: usize = 0;
            while t < span
                invariant
                    ps.valid(),
                    span == ps.span(),
                    rems@.len() == span,
                    forall|j: int| 0 <= j < span ==> rems@[j] == ps.rem_part(j),
                    bonus@.len() == span,
                    t <= span,
                    best == span || (best < t && !bonus@[best as int]),
                    best == span ==> forall|u: int| 0 <= u < t ==> bonus@[u],
                    best < span ==> forall|u: int|
                        0 <= u < t && !(#[trigger] bonus@[u]) && u != best ==> ps.beats(
                            best as int,
                            u,
                        ),
                decreases span - t,
            {
                if !bonus[t] {
                    if best == span {
                        best = t;
                    } else if rems[t] > rems[best] {
                        best = t;
                    }
                }
                t = t + 1;
            }
            if best == span {
                proof {
                    lemma_count_marked_full(bonus@, span as int);
                    assert(false);
                }
                return Err(CoderError::InvalidDistribution);
            }
            let ghost bonus_pre = bonus@;
            bonus[best] = true;
            k = k + 1;
            proof {
                lemma_count_marked_update(bonus_pre, best as int, span as int);
                assert forall|a: int, b: int|
                    0 <= a < span && 0 <= b < span && #[trigger] bonus@[a] && !(#[trigger] bonus@[b])
                        implies ps.beats(a, b) by {
                    if a != best as int {
                        assert(bonus_pre[a] && !bonus_pre[b]);
                    }
                }
            }
        }
        let mut cum: Vec<u32> = Vec::new();
        cum.push(0);
        let mut acc: u32 = 0;
        let mut i: usize = 0;
        proof {
            lemma_prob_prefix_decompose(ps, bonus@, span as int);
        }
        while i < span
            invariant
                ps.valid(),
                span == ps.span(),
                free == ps.free(),
                floors@.len() == span,
                forall|j: int| 0 <= j < span ==> floors@[j] == ps.floor_part(j),
                bonus@.len() == span,
                prob_prefix_sum(ps, bonus@, span as int) == TOTAL as int,
                i <= span,
                cum@.len() == i + 1,
                acc as int == prob_prefix_sum(ps, bonus@, i as int),
                forall|j: int| 0 <= j <= i ==> #[trigger] cum@[j] as int == prob_prefix_sum(
                    ps,
                    bonus@,
                    j,
                ),
            decreases span - i,
        {
            proof {
                ps.lemma_floor_part_range(i as int);
                lemma_prob_prefix_monotone(ps, bonus@, i as int + 1, span as int);
            }
            let b: u32 = if bonus[i] {
                1
            } else {
                0
            };
            let p: u32 = 1 + floors[i] + b;
            acc = acc + p;
            cum.push(acc);
            i = i + 1;
        }
        let table = CumulativeTable { min: min_supported, max: max_supported, cum };
        proof {
            assert forall|a: int, b: int| 0 <= a < b <= table.span() implies #[trigger] table
                .cum@[a] < #[trigger] table.cum@[b] by {
                lemma_prob_prefix_strict(ps, bonus@, a, b);
            }
            assert(table.wf());
        }
        let d = Categorical { table };
        proof {
            assert forall|i: int| 0 <= i < ps.span() implies #[trigger] d.probability(
                (ps.min_supported + i) as i32,
            ) == prob_with_bonus(ps, bonus@, i) by {
                assert(d.table.cum@[i + 1] as int == prob_prefix_sum(ps, bonus@, i + 1));
                assert(d.table.cum@[i] as int == prob_prefix_sum(ps, bonus@, i));
            }
            assert forall|i: int, j: int|
                (0 <= i < ps.span() && 0 <= j < ps.span() && #[trigger] d.probability(
                    (ps.min_supported + i) as i32,
                ) == 2 + ps.floor_part(i) && #[trigger] d.probability((ps.min_supported + j) as i32)
                    == 1 + ps.floor_part(j)) implies ps.beats(i, j) by {
                assert(bonus@[i] && !bonus@[j]);
            }
        }
        Ok(d)
    }

    pub closed spec fn min_symbol(&self) -> int {
        self.table.min as int
    }

    pub closed spec fn max_symbol(&self) -> int {
        self.table.max as int
    }

    /// The support is exactly the alphabet `[min_supported, max_supported]`.
    pub proof fn lemma_support(&self)
        ensures
            forall|s: i32|
                #[trigger] self.supported(s) <==> self.min_symbol() <= s <= self.max_symbol(),
    {
    }

    /// The cumulative table starts at zero, is contiguous, and ends at
    /// `TOTAL`.
    pub proof fn lemma_contiguous(&self)
        requires
            self.wf(),
        ensures
            self.left_cumulative(self.min_symbol() as i32) == 0,
            forall|s: i32|
                self.min_symbol() <= s < self.max_symbol() ==> #[trigger] self.left_cumulative(
                    (s + 1) as i32,
                ) == self.left_cumulative(s) + self.probability(s),
            self.left_cumulative(self.max_symbol() as i32) + self.probability(
                self.max_symbol() as i32,
            ) == TOTAL as int,
    {
    }

    /// Probabilities are everywhere positive on the support and sum to
    /// exactly `TOTAL` over it.
    pub proof fn lemma_total_mass(&self)
        requires
            self.wf(),
        ensures
            probability_sum(self, self.min_symbol(), self.max_symbol() + 1) == TOTAL as int,
            forall|s: i32| #[trigger] self.supported(s) ==> self.probability(s) >= 1,
    {
        assert forall|s: i32| #[trigger] self.supported(s) implies self.probability(s) >= 1 by {
            self.table.lemma_interval_valid(s);
        }
        lemma_total_mass_from_contiguity(self, self.table.min, self.table.max);
    }
}

impl DiscreteDistribution<i32> for Categorical {
    closed spec fn wf(&self) -> bool {
        self.table.wf()
    }

    closed spec fn supported(&self, symbol: i32) -> bool {
        self.table.sup(symbol)
    }

    closed spec fn left_cumulative(&self, symbol: i32) -> int {
        self.table.lc(symbol)
    }

    closed spec fn probability(&self, symbol: i32) -> int {
        self.table.pr(symbol)
    }

    closed spec fn symbol_at(&self, quantile: int) -> i32 {
        self.table.sym(quantile)
    }

    proof fn lemma_supported_valid(&self, symbol: i32) {
        self.table.lemma_interval_valid(symbol);
    }

    proof fn lemma_symbol_at_interval(&self, quantile: int) {
        self.table.lemma_cell_props(quantile);
    }

    proof fn lemma_symbol_at_unique(&self, symbol: i32, quantile: int) {
        self.table.lemma_sym_unique(symbol, quantile);
    }

    fn left_cumulative_and_probability(&self, symbol: i32) -> (r: Result<(u32, u32), CoderError>) {
        self.table.lookup(symbol)
    }

    fn quantile_function(&self, quantile: u32) -> (r: (i32, u32, u32)) {
        self.table.quantile(quantile)
    }
}

} // verus!
