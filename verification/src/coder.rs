use vstd::arithmetic::div_mod::{
    lemma_div_is_ordered, lemma_fundamental_div_mod, lemma_fundamental_div_mod_converse,
    lemma_mod_bound, lemma_multiply_divide_lt,
};
use vstd::arithmetic::mul::{lemma_mul_inequality, lemma_mul_is_commutative};
use vstd::prelude::*;

use crate::categorical::{categorical_matches, params_of, Categorical};
use crate::distribution::DiscreteDistribution;
use crate::error::CoderError;
use crate::TOTAL;

verus! {

/// Radix of the overflow buffer: each spilled word carries 32 bits.
pub const WORD_BASE: u64 = 0x1_0000_0000;

/// Renormalization threshold factor: `2^(64 - FREQUENCY_BITS)`. The encoder
/// spills a word exactly when the state reaches `probability * RENORM_FACTOR`.
pub const RENORM_FACTOR: u64 = 0x100_0000_0000;

/// Mathematical model of a coder: the 64-bit register and the LIFO word
/// buffer, with the buffer growing towards higher indices.
#[verifier::ext_equal]
pub ghost struct CoderModel {
    pub state: int,
    pub buf: Seq<u32>,
}

/// The coder invariant: a normalized state register.
pub open spec fn coder_wf(m: CoderModel) -> bool {
    WORD_BASE as int <= m.state < 0x1_0000_0000_0000_0000
}

/// Model of a freshly created coder.
pub open spec fn initial_model() -> CoderModel {
    CoderModel { state: WORD_BASE as int, buf: Seq::empty() }
}

/// Whether pushing a symbol of probability `p` onto state `state` first
/// spills 32 bits to the buffer.
pub open spec fn renorm_needed(state: int, p: int) -> bool {
    state >= p * RENORM_FACTOR as int
}

/// The state register after pushing a symbol with interval `(c, p)`.
pub open spec fn push_state(state: int, c: int, p: int) -> int {
    let st = if renorm_needed(state, p) {
        state / WORD_BASE as int
    } else {
        state
    };
    (st / p) * TOTAL as int + st % p + c
}

/// The buffer after pushing a symbol of probability `p`.
pub open spec fn push_buf(m: CoderModel, p: int) -> Seq<u32> {
    if renorm_needed(m.state, p) {
        m.buf.push((m.state % WORD_BASE as int) as u32)
    } else {
        m.buf
    }
}

/// The whole coder after pushing a symbol with interval `(c, p)`.
pub open spec fn push_model(m: CoderModel, c: int, p: int) -> CoderModel {
    CoderModel { state: push_state(m.state, c, p), buf: push_buf(m, p) }
}

/// The symbol a pop decodes: the one whose interval contains the low
/// `FREQUENCY_BITS` bits of the state.
pub open spec fn pop_symbol_model<S, D: DiscreteDistribution<S>>(m: CoderModel, d: D) -> S {
    d.symbol_at(m.state % TOTAL as int)
}

/// The state register after undoing the symbol's push, before any refill.
pub open spec fn pop_mid_state<S, D: DiscreteDistribution<S>>(m: CoderModel, d: D) -> int {
    let s = pop_symbol_model(m, d);
    d.probability(s) * (m.state / TOTAL as int) + m.state % TOTAL as int - d.left_cumulative(s)
}

/// A pop fails exactly when it must refill from an empty buffer.
pub open spec fn pop_underflows<S, D: DiscreteDistribution<S>>(m: CoderModel, d: D) -> bool {
    pop_mid_state(m, d) < WORD_BASE as int && m.buf.len() == 0
}

/// The whole coder after a successful pop.
pub open spec fn pop_model<S, D: DiscreteDistribution<S>>(m: CoderModel, d: D) -> CoderModel {
    let mid = pop_mid_state(m, d);
    if mid < WORD_BASE as int {
        CoderModel { state: mid * WORD_BASE as int + m.buf.last(), buf: m.buf.drop_last() }
    } else {
        CoderModel { state: mid, buf: m.buf }
    }
}

/// The word sequence `finish_encoding` serializes: the spilled words
/// followed by the low and then the high half of the state register.
pub open spec fn finish_words(m: CoderModel) -> Seq<u32> {
    m.buf.push((m.state % WORD_BASE as int) as u32).push((m.state / WORD_BASE as int) as u32)
}

/// The coder reconstructed from a serialized word sequence: the last two
/// words reload the state register, the rest reload the buffer.
pub open spec fn load_model(words: Seq<u32>) -> CoderModel {
    CoderModel {
        state: words[words.len() - 2] + words[words.len() - 1] * WORD_BASE as int,
        buf: words.take(words.len() - 2),
    }
}

/// Decoding may finish exactly when the coder is back in its initial
/// configuration.
pub open spec fn decoding_complete(m: CoderModel) -> bool {
    m.state == WORD_BASE as int && m.buf.len() == 0
}

/// Bits `finish_encoding` would serialize: 32 per buffered word plus 64 for
/// the state register.
pub open spec fn num_bits_model(m: CoderModel) -> int {
    32 * m.buf.len() as int + 64
}

/// `x / d >= k` exactly when `x >= k * d`, for non-negative values.
proof fn lemma_div_ge(x: int, d: int, k: int)
    requires
        0 <= x,
        0 < d,
        0 <= k,
    ensures
        x / d >= k <==> x >= k * d,
{
    if x >= k * d {
        lemma_div_is_ordered(k * d, x, d);
        assert(k * d / d == k) by {
            vstd::arithmetic::div_mod::lemma_div_multiples_vanish(k, d);
        }
    }
    if x / d >= k {
        lemma_fundamental_div_mod(x, d);
        lemma_mul_inequality(k, x / d, d);
        lemma_mod_bound(x, d);
    }
}

/// Bounds for the state update of a push: with a normalized-or-renormalized
/// input state the new register stays inside `[WORD_BASE, 2^64)`.
proof fn lemma_push_state_bounds(st: int, c: int, p: int)
    requires
        1 <= p,
        0 <= c,
        c + p <= TOTAL as int,
        p * 0x100 <= st,
        st < p * RENORM_FACTOR as int,
    ensures
        WORD_BASE as int <= (st / p) * TOTAL as int + st % p + c < 0x1_0000_0000_0000_0000,
        0x100 <= st / p < RENORM_FACTOR as int,
{
    lemma_div_ge(st, p, 0x100);
    lemma_multiply_divide_lt(st, p, RENORM_FACTOR as int);
    lemma_mod_bound(st, p);
    assert((st / p) * TOTAL as int >= 0x100 * TOTAL as int) by {
        lemma_mul_inequality(0x100, st / p, TOTAL as int);
    }
    assert((st / p) * TOTAL as int <= (RENORM_FACTOR as int - 1) * TOTAL as int) by {
        lemma_mul_inequality(st / p, RENORM_FACTOR as int - 1, TOTAL as int);
    }
}

/// The rANS coder: a stack-like entropy coder over a normalized 64-bit
/// state register and a LIFO buffer of spilled 32-bit words. Symbols are
/// pushed with a distribution and popped with the same distributions in
/// reverse order.
pub struct AnsCoder {
    buf: Vec<u32>,
    state: u64,
}

impl View for AnsCoder {
    type V = CoderModel;

    closed spec fn view(&self) -> CoderModel {
        CoderModel { state: self.state as int, buf: self.buf@ }
    }
}

impl AnsCoder {
    pub open spec fn wf(&self) -> bool {
        coder_wf(self@)
    }

    /// A fresh coder: state register at `WORD_BASE`, empty buffer.
    pub fn new() -> (r: AnsCoder)
        ensures
            r@ == initial_model(),
            r.wf(),
    {
        let r = AnsCoder { buf: Vec::new(), state: WORD_BASE };
        proof {
            assert(r@ =~= initial_model());
        }
        r
    }

    /// Reload a coder from a serialized word stream, as produced by
    /// `finish_encoding`. Fails with `Underflow` when the stream is shorter
    /// than the two words that hold the state register.
    pub fn from_compressed(compressed: Vec<u32>) -> (r: Result<AnsCoder, CoderError>)
        ensures
            r is Ok <==> compressed@.len() >= 2,
            r matches Ok(c) ==> c@ == load_model(compressed@),
            r is Err ==> r == Err::<AnsCoder, CoderError>(CoderError::Underflow),
    {
        let mut buf = compressed;
        if buf.len() < 2 {
            return Err(CoderError::Underflow);
        }
        let ghost words = buf@;
        let high = match buf.pop() {
            Some(w) => w,
            None => {
                return Err(CoderError::Underflow);
            },
        };
        let low = match buf.pop() {
            Some(w) => w,
            None => {
                return Err(CoderError::Underflow);
            },
        };
        let state = low as u64 + high as u64 * WORD_BASE;
        let r = AnsCoder { buf, state };
        proof {
            assert(r@.buf =~= load_model(words).buf);
        }
        Ok(r)
    }

    /// Bits that `finish_encoding` would serialize right now: always at
    /// least 64 and a multiple of 32.
    pub fn num_bits(&self) -> (r: usize)
        requires
            32 * self@.buf.len() + 64 <= usize::MAX as int,
        ensures
            r == num_bits_model(self@),
    {
        32 * self.buf.len() + 64
    }

    /// Encode one symbol. Fails with `UnsupportedSymbol`, leaving the coder
    /// unchanged, exactly when the symbol is outside the distribution's
    /// support; otherwise spills at most one word and updates the state
    /// register as `push_model` describes.
    pub fn push_symbol<S: Copy, D: DiscreteDistribution<S>>(
        &mut self,
        symbol: S,
        distribution: &D,
    ) -> (r: Result<(), CoderError>)
        requires
            old(self).wf(),
            distribution.wf(),
        ensures
            final(self).wf(),
            r is Ok <==> distribution.supported(symbol),
            distribution.supported(symbol) ==> final(self)@ == push_model(
                old(self)@,
                distribution.left_cumulative(symbol),
                distribution.probability(symbol),
            ),
            !distribution.supported(symbol) ==> final(self)@ == old(self)@ && r == Err::<
                (),
                CoderError,
            >(CoderError::UnsupportedSymbol),
    {
        let (c, p) = match distribution.left_cumulative_and_probability(symbol) {
            Ok(cp) => cp,
            Err(e) => {
                return Err(e);
            },
        };
        proof {
            distribution.lemma_supported_valid(symbol);
        }
        if self.state / RENORM_FACTOR >= p as u64 {
            proof {
                lemma_div_ge(self.state as int, RENORM_FACTOR as int, p as int);
            }
            let word = (self.state % WORD_BASE) as u32;
            self.buf.push(word);
            self.state = self.state / WORD_BASE;
            proof {
                lemma_div_ge(old(self).state as int, WORD_BASE as int, p as int * 0x100);
                assert(p as int * 0x100 * WORD_BASE as int == p as int * RENORM_FACTOR as int)
                    by (nonlinear_arith);
            }
        } else {
            proof {
                lemma_div_ge(self.state as int, RENORM_FACTOR as int, p as int);
                assert(p as int * 0x100 <= WORD_BASE as int) by (nonlinear_arith)
                    requires
                        p as int <= TOTAL as int,
                ;
            }
        }
        proof {
            lemma_push_state_bounds(self.state as int, c as int, p as int);
        }
        let prefix = self.state / (p as u64);
        let suffix = self.state % (p as u64) + c as u64;
        self.state = prefix * (TOTAL as u64) + suffix;
        Ok(())
    }

    /// Decode one symbol: the inverse of `push_symbol`. Fails with
    /// `Underflow` exactly when the state update drops below `WORD_BASE`
    /// and the buffer has no word left to refill from.
    pub fn pop_symbol<S: Copy, D: DiscreteDistribution<S>>(&mut self, distribution: &D) -> (r:
        Result<S, CoderError>)
        requires
            distribution.wf(),
        ensures
            r is Ok <==> !pop_underflows(old(self)@, *distribution),
            r matches Ok(s) ==> s == pop_symbol_model(old(self)@, *distribution) && final(self)@
                == pop_model(old(self)@, *distribution),
            r is Err ==> r == Err::<S, CoderError>(CoderError::Underflow) && final(self)@.state
                == pop_mid_state(old(self)@, *distribution) && final(self)@.buf == old(self)@.buf,
            old(self).wf() && r is Ok ==> final(self).wf(),
    {
        let prefix = self.state / (TOTAL as u64);
        let suffix = (self.state % (TOTAL as u64)) as u32;
        let (symbol, c, p) = distribution.quantile_function(suffix);
        proof {
            distribution.lemma_symbol_at_interval(suffix as int);
            distribution.lemma_supported_valid(symbol);
            lemma_multiply_divide_lt(self.state as int, TOTAL as int, RENORM_FACTOR as int);
            assert(p as int * (prefix as int + 1) <= TOTAL as int * RENORM_FACTOR as int) by {
                lemma_mul_inequality(p as int, TOTAL as int, prefix as int + 1);
                lemma_mul_inequality(prefix as int + 1, RENORM_FACTOR as int, TOTAL as int);
                lemma_mul_is_commutative(TOTAL as int, prefix as int + 1);
            }
            assert(p as int * (prefix as int + 1) == p as int * prefix as int + p as int)
                by (nonlinear_arith);
            if old(self).wf() {
                assert(p as int * prefix as int >= 1 * 0x100) by {
                    lemma_div_ge(self.state as int, TOTAL as int, 0x100);
                    lemma_mul_inequality(1, p as int, prefix as int);
                }
            }
        }
        let mid = (p as u64) * prefix + (suffix - c) as u64;
        if mid < WORD_BASE {
            match self.buf.pop() {
                Some(word) => {
                    self.state = mid * WORD_BASE + word as u64;
                    proof {
                        assert(final(self)@.buf =~= pop_model(old(self)@, *distribution).buf);
                    }
                    Ok(symbol)
                },
                None => {
                    self.state = mid;
                    Err(CoderError::Underflow)
                },
            }
        } else {
            self.state = mid;
            Ok(symbol)
        }
    }

    /// Encode a batch: push `symbols[i]` with `distributions[i]` in index
    /// order. On the first unsupported symbol the batch stops with
    /// `UnsupportedSymbol`, leaving exactly the earlier symbols pushed.
    pub fn push_symbols<S: Copy, D: DiscreteDistribution<S>>(
        &mut self,
        symbols: &Vec<S>,
        distributions: &Vec<D>,
    ) -> (r: Result<(), CoderError>)
        requires
            old(self).wf(),
            symbols@.len() == distributions@.len(),
            forall|i: int| 0 <= i < distributions@.len() ==> (#[trigger] distributions@[i]).wf(),
        ensures
            final(self).wf(),
            r is Ok <==> (forall|i: int|
                0 <= i < distributions@.len() ==> (#[trigger] distributions@[i]).supported(
                    symbols@[i],
                )),
            r is Ok ==> final(self)@ == push_all(
                old(self)@,
                symbols@,
                distributions@,
                distributions@.len() as int,
            ),
            r is Err ==> r == Err::<(), CoderError>(CoderError::UnsupportedSymbol) && (exists|
                k: int,
            |
                0 <= k < distributions@.len() && !(#[trigger] distributions@[k]).supported(
                    symbols@[k],
                ) && (forall|j: int|
                    0 <= j < k ==> (#[trigger] distributions@[j]).supported(symbols@[j]))
                    && final(self)@ == push_all(old(self)@, symbols@, distributions@, k)),
    {
        let n = symbols.len();
        let mut i: usize = 0;
        while i < n
            invariant
                self.wf(),
                n == symbols@.len(),
                n == distributions@.len(),
                i <= n,
                forall|j: int| 0 <= j < n ==> (#[trigger] distributions@[j]).wf(),
                forall|j: int|
                    0 <= j < i ==> (#[trigger] distributions@[j]).supported(symbols@[j]),
                self@ == push_all(old(self)@, symbols@, distributions@, i as int),
            decreases n - i,
        {
            let symbol = symbols[i];
            match self.push_symbol(symbol, &distributions[i]) {
                Ok(()) => {},
                Err(e) => {
                    proof {
                        let k = i as int;
                        assert(0 <= k < distributions@.len() && !(distributions@[k]).supported(
                            symbols@[k],
                        ) && (forall|j: int|
                            0 <= j < k ==> (#[trigger] distributions@[j]).supported(symbols@[j]))
                            && self@ == push_all(old(self)@, symbols@, distributions@, k));
                    }
                    return Err(e);
                },
            }
            i = i + 1;
        }
        Ok(())
    }

    /// Decode a batch: pop once per distribution, pairing pops with
    /// `distributions` in reverse index order, and return the decoded
    /// symbols in index order, so that a batch decoded after
    /// `push_symbols` with the same distributions comes back in its
    /// original order.
    pub fn pop_symbols<S: Copy, D: DiscreteDistribution<S>>(&mut self, distributions: &Vec<D>) -> (r:
        Result<Vec<S>, CoderError>)
        requires
            forall|i: int| 0 <= i < distributions@.len() ==> (#[trigger] distributions@[i]).wf(),
        ensures
            r is Ok <==> pop_all::<S, D>(old(self)@, distributions@) is Some,
            r matches Ok(v) ==> Some((v@, final(self)@)) == pop_all::<S, D>(
                old(self)@,
                distributions@,
            ),
            r is Err ==> r == Err::<Vec<S>, CoderError>(CoderError::Underflow),
    {
        let n = distributions.len();
        let mut rev: Vec<S> = Vec::new();
        let mut j: usize = n;
        proof {
            assert(distributions@.take(n as int) =~= distributions@);
            match pop_all::<S, D>(self@, distributions@) {
                None => {},
                Some(rm) => {
                    assert(rm.0 + rev@.reverse() =~= rm.0);
                },
            }
        }
        while j > 0
            invariant
                j <= n,
                n == distributions@.len(),
                forall|i: int| 0 <= i < n ==> (#[trigger] distributions@[i]).wf(),
                rev@.len() == n - j,
                (match pop_all::<S, D>(self@, distributions@.take(j as int)) {
                    None => pop_all::<S, D>(old(self)@, distributions@) is None,
                    Some(rm) => pop_all::<S, D>(old(self)@, distributions@) == Some(
                        (rm.0 + rev@.reverse(), rm.1),
                    ),
                }),
            decreases j,
        {
            proof {
                assert(distributions@.take(j as int).last() == distributions@[j - 1]);
                assert(distributions@.take(j as int).drop_last() =~= distributions@.take(
                    j as int - 1,
                ));
            }
            let ghost pre = self@;
            match self.pop_symbol(&distributions[j - 1]) {
                Ok(s) => {
                    rev.push(s);
                    j = j - 1;
                    proof {
                        let tj = distributions@.take(j as int + 1);
                        assert(pop_symbol_model(pre, tj.last()) == s);
                        assert(pop_model(pre, tj.last()) == self@);
                        match pop_all::<S, D>(self@, distributions@.take(j as int)) {
                            None => {},
                            Some(rm) => {
                                assert(pop_all::<S, D>(pre, tj) == Some((rm.0.push(s), rm.1)));
                                assert(rm.0.push(s) + rev@.drop_last().reverse() =~= rm.0
                                    + rev@.reverse());
                            },
                        }
                    }
                },
                Err(e) => {
                    return Err(e);
                },
            }
        }
        proof {
            assert(distributions@.take(0) =~= Seq::<D>::empty());
            assert(Seq::<S>::empty() + rev@.reverse() =~= rev@.reverse());
        }
        let mut out: Vec<S> = Vec::new();
        let ghost target = rev@.reverse();
        while rev.len() > 0
            invariant
                out@ + rev@.reverse() == target,
            decreases rev.len(),
        {
            let ghost out_pre = out@;
            let ghost rev_pre = rev@;
            match rev.pop() {
                Some(s) => {
                    out.push(s);
                    proof {
                        assert(out@ + rev@.reverse() =~= out_pre + rev_pre.reverse());
                    }
                },
                None => {
                    proof {
                        assert(false);
                    }
                },
            }
        }
        proof {
            assert(out@ + rev@.reverse() =~= out@);
        }
        Ok(out)
    }

    /// Encode a batch of symbols that share one distribution, pushing in
    /// index order. Equivalent to `push_symbols` with the distribution
    /// repeated once per symbol.
    pub fn push_iid_symbols<S: Copy, D: DiscreteDistribution<S>>(
        &mut self,
        symbols: &Vec<S>,
        distribution: &D,
    ) -> (r: Result<(), CoderError>)
        requires
            old(self).wf(),
            distribution.wf(),
        ensures
            final(self).wf(),
            r is Ok <==> (forall|i: int|
                0 <= i < symbols@.len() ==> distribution.supported(#[trigger] symbols@[i])),
            r is Ok ==> final(self)@ == push_all(
                old(self)@,
                symbols@,
                Seq::new(symbols@.len(), |i: int| *distribution),
                symbols@.len() as int,
            ),
            r is Err ==> r == Err::<(), CoderError>(CoderError::UnsupportedSymbol) && (exists|
                k: int,
            |
                0 <= k < symbols@.len() && !distribution.supported(#[trigger] symbols@[k]) && (
                forall|j: int| 0 <= j < k ==> distribution.supported(#[trigger] symbols@[j]))
                    && final(self)@ == push_all(
                    old(self)@,
                    symbols@,
                    Seq::new(symbols@.len(), |i: int| *distribution),
                    k,
                )),
    {
        let ghost ds = Seq::new(symbols@.len(), |i: int| *distribution);
        let n = symbols.len();
        let mut i: usize = 0;
        while i < n
            invariant
                self.wf(),
                distribution.wf(),
                n == symbols@.len(),
                ds == Seq::new(symbols@.len(), |i: int| *distribution),
                i <= n,
                forall|j: int| 0 <= j < i ==> distribution.supported(#[trigger] symbols@[j]),
                self@ == push_all(old(self)@, symbols@, ds, i as int),
            decreases n - i,
        {
            let symbol = symbols[i];
            match self.push_symbol(symbol, distribution) {
                Ok(()) => {},
                Err(e) => {
                    proof {
                        let k = i as int;
                        assert(0 <= k < symbols@.len() && !distribution.supported(symbols@[k]) && (
                        forall|j: int| 0 <= j < k ==> distribution.supported(#[trigger] symbols@[j]))
                            && self@ == push_all(old(self)@, symbols@, ds, k));
                    }
                    return Err(e);
                },
            }
            i = i + 1;
        }
        Ok(())
    }

    /// Decode `amt` symbols that share one distribution, returning them in
    /// the order in which `push_iid_symbols` pushed them. Equivalent to
    /// `pop_symbols` with the distribution repeated `amt` times.
    pub fn pop_iid_symbols<S: Copy, D: DiscreteDistribution<S>>(
        &mut self,
        amt: usize,
        distribution: &D,
    ) -> (r: Result<Vec<S>, CoderError>)
        requires
            distribution.wf(),
        ensures
            r is Ok <==> pop_all::<S, D>(
                old(self)@,
                Seq::new(amt as nat, |i: int| *distribution),
            ) is Some,
            r matches Ok(v) ==> Some((v@, final(self)@)) == pop_all::<S, D>(
                old(self)@,
                Seq::new(amt as nat, |i: int| *distribution),
            ),
            r is Err ==> r == Err::<Vec<S>, CoderError>(CoderError::Underflow),
    {
        let ghost ds = Seq::new(amt as nat, |i: int| *distribution);
        let mut rev: Vec<S> = Vec::new();
        let mut j: usize = amt;
        proof {
            assert(ds.take(amt as int) =~= ds);
            match pop_all::<S, D>(self@, ds) {
                None => {},
                Some(rm) => {
                    assert(rm.0 + rev@.reverse() =~= rm.0);
                },
            }
        }
        while j > 0
            invariant
                j <= amt,
                distribution.wf(),
                ds == Seq::new(amt as nat, |i: int| *distribution),
                rev@.len() == amt - j,
                (match pop_all::<S, D>(self@, ds.take(j as int)) {
                    None => pop_all::<S, D>(old(self)@, ds) is None,
                    Some(rm) => pop_all::<S, D>(old(self)@, ds) == Some(
                        (rm.0 + rev@.reverse(), rm.1),
                    ),
                }),
            decreases j,
        {
            proof {
                assert(ds.take(j as int).last() == *distribution);
                assert(ds.take(j as int).drop_last() =~= ds.take(j as int - 1));
            }
            let ghost pre = self@;
            match self.pop_symbol(distribution) {
                Ok(s) => {
                    rev.push(s);
                    j = j - 1;
                    proof {
                        let tj = ds.take(j as int + 1);
                        assert(pop_symbol_model(pre, tj.last()) == s);
                        assert(pop_model(pre, tj.last()) == self@);
                        match pop_all::<S, D>(self@, ds.take(j as int)) {
                            None => {},
                            Some(rm) => {
                                assert(pop_all::<S, D>(pre, tj) == Some((rm.0.push(s), rm.1)));
                                assert(rm.0.push(s) + rev@.drop_last().reverse() =~= rm.0
                                    + rev@.reverse());
                            },
                        }
                    }
                },
                Err(e) => {
                    return Err(e);
                },
            }
        }
        proof {
            assert(ds.take(0) =~= Seq::<D>::empty());
            assert(Seq::<S>::empty() + rev@.reverse() =~= rev@.reverse());
        }
        let mut out: Vec<S> = Vec::new();
        let ghost target = rev@.reverse();
        while rev.len() > 0
            invariant
                out@ + rev@.reverse() == target,
            decreases rev.len(),
        {
            let ghost out_pre = out@;
            let ghost rev_pre = rev@;
            match rev.pop() {
                Some(s) => {
                    out.push(s);
                    proof {
                        assert(out@ + rev@.reverse() =~= out_pre + rev_pre.reverse());
                    }
                },
                None => {
                    proof {
                        assert(false);
                    }
                },
            }
        }
        proof {
            assert(out@ + rev@.reverse() =~= out@);
        }
        Ok(out)
    }

    /// Encode a batch of symbols against one categorical distribution,
    /// built exactly once from the given weights as
    /// `Categorical::from_weights` describes, pushing in index order.
    pub fn push_iid_categorical_symbols(
        &mut self,
        symbols: &Vec<i32>,
        min_supported_symbol: i32,
        max_supported_symbol: i32,
        min_provided_symbol: i32,
        probabilities: &Vec<u32>,
    ) -> (r: Result<(), CoderError>)
        requires
            old(self).wf(),
        ensures
            final(self).wf(),
            r == Err::<(), CoderError>(CoderError::InvalidDistribution) <==> !params_of(
                min_supported_symbol,
                max_supported_symbol,
                min_provided_symbol,
                probabilities@,
            ).valid(),
            !params_of(
                min_supported_symbol,
                max_supported_symbol,
                min_provided_symbol,
                probabilities@,
            ).valid() ==> final(self)@ == old(self)@,
            params_of(
                min_supported_symbol,
                max_supported_symbol,
                min_provided_symbol,
                probabilities@,
            ).valid() ==> (exists|d: Categorical|
                {
                    &&& #[trigger] categorical_matches(
                        d,
                        params_of(
                            min_supported_symbol,
                            max_supported_symbol,
                            min_provided_symbol,
                            probabilities@,
                        ),
                    )
                    &&& (r is Ok <==> (forall|i: int|
                        0 <= i < symbols@.len() ==> d.supported(#[trigger] symbols@[i])))
                    &&& (r is Ok ==> final(self)@ == push_all(
                        old(self)@,
                        symbols@,
                        Seq::new(symbols@.len(), |i: int| d),
                        symbols@.len() as int,
                    ))
                    &&& (r is Err ==> r == Err::<(), CoderError>(CoderError::UnsupportedSymbol))
                }),
    {
        let distribution = match Categorical::from_weights(
            min_supported_symbol,
            max_supported_symbol,
            min_provided_symbol,
            probabilities,
        ) {
            Ok(d) => d,
            Err(e) => {
                return Err(e);
            },
        };
        let r = self.push_iid_symbols(symbols, &distribution);
        proof {
            let ps = params_of(
                min_supported_symbol,
                max_supported_symbol,
                min_provided_symbol,
                probabilities@,
            );
            assert(categorical_matches(distribution, ps));
        }
        r
    }

    /// Decode `amt` symbols against one categorical distribution, built
    /// exactly once from the same weights the encoder used, returning the
    /// symbols in the order in which they were pushed.
    pub fn pop_iid_categorical_symbols(
        &mut self,
        amt: usize,
        min_supported_symbol: i32,
        max_supported_symbol: i32,
        min_provided_symbol: i32,
        probabilities: &Vec<u32>,
    ) -> (r: Result<Vec<i32>, CoderError>)
        ensures
            r == Err::<Vec<i32>, CoderError>(CoderError::InvalidDistribution) <==> !params_of(
                min_supported_symbol,
                max_supported_symbol,
                min_provided_symbol,
                probabilities@,
            ).valid(),
            !params_of(
                min_supported_symbol,
                max_supported_symbol,
                min_provided_symbol,
                probabilities@,
            ).valid() ==> final(self)@ == old(self)@,
            params_of(
                min_supported_symbol,
                max_supported_symbol,
                min_provided_symbol,
                probabilities@,
            ).valid() ==> (exists|d: Categorical|
                {
                    &&& #[trigger] categorical_matches(
                        d,
                        params_of(
                            min_supported_symbol,
                            max_supported_symbol,
                            min_provided_symbol,
                            probabilities@,
                        ),
                    )
                    &&& (r is Ok <==> pop_all::<i32, Categorical>(
                        old(self)@,
                        Seq::new(amt as nat, |i: int| d),
                    ) is Some)
                    &&& (r matches Ok(v) ==> Some((v@, final(self)@)) == pop_all::<
                        i32,
                        Categorical,
                    >(old(self)@, Seq::new(amt as nat, |i: int| d)))
                    &&& (r is Err ==> r == Err::<Vec<i32>, CoderError>(CoderError::Underflow))
                }),
    {
        let distribution = match Categorical::from_weights(
            min_supported_symbol,
            max_supported_symbol,
            min_provided_symbol,
            probabilities,
        ) {
            Ok(d) => d,
            Err(e) => {
                return Err(e);
            },
        };
        let r = self.pop_iid_symbols(amt, &distribution);
        proof {
            let ps = params_of(
                min_supported_symbol,
                max_supported_symbol,
                min_provided_symbol,
                probabilities@,
            );
            assert(categorical_matches(distribution, ps));
        }
        r
    }

    /// Consume the coder and serialize it: the spilled words followed by
    /// the low and high halves of the state register. The result always
    /// holds at least two words.
    pub fn finish_encoding(self) -> (r: Vec<u32>)
        ensures
            r@ == finish_words(self@),
            r@.len() == self@.buf.len() + 2,
    {
        let mut buf = self.buf;
        buf.push((self.state % WORD_BASE) as u32);
        buf.push((self.state / WORD_BASE) as u32);
        buf
    }

    /// Consume the coder, succeeding exactly when every pushed symbol has
    /// been popped again: the buffer is empty and the state register is
    /// back at its initial value.
    pub fn finish_decoding(self) -> (r: Result<(), CoderError>)
        ensures
            r is Ok <==> decoding_complete(self@),
            r is Err ==> r == Err::<(), CoderError>(CoderError::NotFullyConsumed),
    {
        if self.buf.len() == 0 && self.state == WORD_BASE {
            Ok(())
        } else {
            Err(CoderError::NotFullyConsumed)
        }
    }
}

/// The coder after pushing `symbols[0], ..., symbols[n - 1]` in index
/// order, each with its own distribution.
pub open spec fn push_all<S, D: DiscreteDistribution<S>>(
    m: CoderModel,
    symbols: Seq<S>,
    ds: Seq<D>,
    n: int,
) -> CoderModel
    decreases n,
{
    if n <= 0 {
        m
    } else {
        let m1 = push_all(m, symbols, ds, n - 1);
        push_model(
            m1,
            ds[n - 1].left_cumulative(symbols[n - 1]),
            ds[n - 1].probability(symbols[n - 1]),
        )
    }
}

/// The result of popping once per distribution, pairing the pops with the
/// distributions in reverse index order; the decoded symbols are listed in
/// index (push) order. `None` when some pop underflows.
pub open spec fn pop_all<S, D: DiscreteDistribution<S>>(m: CoderModel, ds: Seq<D>) -> Option<
    (Seq<S>, CoderModel),
>
    decreases ds.len(),
{
    if ds.len() == 0 {
        Some((Seq::empty(), m))
    } else if pop_underflows(m, ds.last()) {
        None
    } else {
        let s = pop_symbol_model(m, ds.last());
        let m1 = pop_model(m, ds.last());
        match pop_all::<S, D>(m1, ds.drop_last()) {
            None => None,
            Some(rest) => Some((rest.0.push(s), rest.1)),
        }
    }
}

/// One push followed by one pop with the same distribution is the
/// identity: the pop cannot underflow, decodes exactly the pushed symbol,
/// and restores the previous coder model.
pub proof fn lemma_push_pop_inverse<S, D: DiscreteDistribution<S>>(m: CoderModel, d: D, s: S)
    requires
        coder_wf(m),
        d.wf(),
        d.supported(s),
    ensures
        coder_wf(push_model(m, d.left_cumulative(s), d.probability(s))),
        !pop_underflows(push_model(m, d.left_cumulative(s), d.probability(s)), d),
        pop_symbol_model(push_model(m, d.left_cumulative(s), d.probability(s)), d) == s,
        pop_model(push_model(m, d.left_cumulative(s), d.probability(s)), d) == m,
{
    d.lemma_supported_valid(s);
    let c = d.left_cumulative(s);
    let p = d.probability(s);
    let st = m.state;
    let st1 = if renorm_needed(st, p) {
        st / WORD_BASE as int
    } else {
        st
    };
    if renorm_needed(st, p) {
        lemma_div_ge(st, WORD_BASE as int, p * 0x100);
        assert(p * 0x100 * WORD_BASE as int == p * RENORM_FACTOR as int) by (nonlinear_arith);
        lemma_multiply_divide_lt(st, WORD_BASE as int, WORD_BASE as int);
        assert(WORD_BASE as int <= p * RENORM_FACTOR as int) by (nonlinear_arith)
            requires
                1 <= p,
        ;
    } else {
        assert(p * 0x100 <= WORD_BASE as int) by (nonlinear_arith)
            requires
                p <= TOTAL as int,
        ;
    }
    lemma_push_state_bounds(st1, c, p);
    let m1 = push_model(m, c, p);
    let prefix = st1 / p;
    let rem = st1 % p;
    lemma_mod_bound(st1, p);
    assert(m1.state == TOTAL as int * prefix + (rem + c)) by {
        lemma_mul_is_commutative(prefix, TOTAL as int);
    }
    lemma_fundamental_div_mod_converse(m1.state, TOTAL as int, prefix, rem + c);
    d.lemma_symbol_at_unique(s, rem + c);
    lemma_fundamental_div_mod(st1, p);
    assert(pop_mid_state(m1, d) == st1);
    if renorm_needed(st, p) {
        lemma_fundamental_div_mod(st, WORD_BASE as int);
        lemma_mod_bound(st, WORD_BASE as int);
        assert(m1.buf.last() == (st % WORD_BASE as int) as u32);
        assert(pop_model(m1, d).state == st);
        assert(pop_model(m1, d).buf =~= m.buf);
        assert(pop_model(m1, d) =~= m);
    } else {
        assert(pop_model(m1, d) =~= m);
    }
}

/// `push_all` only reads the first `k` entries, so dropping later entries
/// does not change it.
proof fn lemma_push_all_prefix<S, D: DiscreteDistribution<S>>(
    m: CoderModel,
    symbols: Seq<S>,
    ds: Seq<D>,
    k: int,
)
    requires
        symbols.len() == ds.len(),
        0 <= k < ds.len(),
    ensures
        push_all(m, symbols.drop_last(), ds.drop_last(), k) == push_all(m, symbols, ds, k),
    decreases k,
{
    if k > 0 {
        lemma_push_all_prefix(m, symbols, ds, k - 1);
    }
}

/// The round trip: pushing any sequence of supported symbols in index
/// order and popping with the same distributions in reverse order decodes
/// exactly the pushed symbols and returns the coder to where it started.
pub proof fn lemma_round_trip<S, D: DiscreteDistribution<S>>(
    m: CoderModel,
    symbols: Seq<S>,
    ds: Seq<D>,
)
    requires
        coder_wf(m),
        symbols.len() == ds.len(),
        forall|i: int|
            0 <= i < ds.len() ==> (#[trigger] ds[i]).wf() && ds[i].supported(symbols[i]),
    ensures
        coder_wf(push_all(m, symbols, ds, ds.len() as int)),
        pop_all::<S, D>(push_all(m, symbols, ds, ds.len() as int), ds) == Some((symbols, m)),
    decreases ds.len(),
{
    let n = ds.len() as int;
    if n == 0 {
        assert(symbols =~= Seq::<S>::empty());
    } else {
        lemma_push_all_prefix(m, symbols, ds, n - 1);
        lemma_round_trip(m, symbols.drop_last(), ds.drop_last());
        let mprev = push_all(m, symbols, ds, n - 1);
        lemma_push_pop_inverse(mprev, ds.last(), symbols.last());
        let mfull = push_all(m, symbols, ds, n);
        assert(pop_model(mfull, ds.last()) == mprev);
        assert(symbols.drop_last().push(symbols.last()) =~= symbols);
    }
}

/// A fresh coder decodes successfully without any pops: its model already
/// satisfies `decoding_complete`.
pub proof fn lemma_fresh_coder_decodes()
    ensures
        decoding_complete(initial_model()),
{
}

/// The serialized size never shrinks under a push and is always at least
/// 64 bits.
pub proof fn lemma_num_bits_monotone(m: CoderModel, c: int, p: int)
    ensures
        num_bits_model(push_model(m, c, p)) >= num_bits_model(m),
        num_bits_model(m) >= 64,
{
}

/// Serialization round-trip: reloading the words written by
/// `finish_encoding` restores the coder model exactly.
pub proof fn lemma_serialization_round_trip(m: CoderModel)
    requires
        coder_wf(m),
    ensures
        load_model(finish_words(m)) == m,
{
    lemma_fundamental_div_mod(m.state, WORD_BASE as int);
    lemma_mod_bound(m.state, WORD_BASE as int);
    assert(m.state / (WORD_BASE as int) < WORD_BASE as int) by {
        lemma_multiply_divide_lt(m.state, WORD_BASE as int, WORD_BASE as int);
    }
    assert(load_model(finish_words(m)).buf =~= m.buf);
    assert(load_model(finish_words(m)) =~= m);
}

} // verus!
