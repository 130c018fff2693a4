use vstd::prelude::*;

use crate::error::CoderError;
use crate::TOTAL;

verus! {

/// A fixed-point PMF over the contiguous symbol range `[min, max]`, stored
/// as its cumulative table: `cum[i]` is the mass of all symbols below
/// `min + i`. The table starts at `0`, ends at `TOTAL`, and is strictly
/// increasing, so every symbol in range carries at least one unit of mass.
pub(crate) struct CumulativeTable {
    pub(crate) min: i32,
    pub(crate) max: i32,
    pub(crate) cum: Vec<u32>,
}

impl CumulativeTable {
    /// Number of symbols in the supported range.
    pub(crate) open spec fn span(&self) -> int {
        self.max - self.min + 1
    }

    pub(crate) open spec fn wf(&self) -> bool {
        &&& self.min <= self.max
        &&& self.span() <= TOTAL as int
        &&& self.cum@.len() == self.span() + 1
        &&& self.cum@[0] == 0u32
        &&& self.cum@[self.span()] == TOTAL
        &&& forall|i: int, j: int|
            0 <= i < j <= self.span() ==> #[trigger] self.cum@[i] < #[trigger] self.cum@[j]
    }

    pub(crate) open spec fn sup(&self, symbol: i32) -> bool {
        self.min <= symbol <= self.max
    }

    pub(crate) open spec fn lc(&self, symbol: i32) -> int {
        self.cum@[symbol - self.min] as int
    }

    pub(crate) open spec fn pr(&self, symbol: i32) -> int {
        self.cum@[symbol - self.min + 1] - self.cum@[symbol - self.min]
    }

    /// Index of the table cell whose interval contains `q`.
    pub(crate) open spec fn cell(&self, q: int) -> int {
        choose|i: int| 0 <= i < self.span() && #[trigger] self.cum@[i] <= q < self.cum@[i + 1]
    }

    pub(crate) open spec fn sym(&self, q: int) -> i32 {
        (self.min + self.cell(q)) as i32
    }

    /// A strictly increasing table assigns every quantile in `[0, TOTAL)`
    /// to some cell.
    proof fn lemma_cell_exists_upto(&self, q: int, n: int)
        requires
            self.wf(),
            1 <= n <= self.span(),
            self.cum@[0] <= q < self.cum@[n],
        ensures
            exists|i: int| 0 <= i < n && #[trigger] self.cum@[i] <= q < self.cum@[i + 1],
        decreases n,
    {
        if self.cum@[n - 1] <= q {
            assert(self.cum@[n - 1] <= q < self.cum@[n - 1 + 1]);
        } else {
            self.lemma_cell_exists_upto(q, n - 1);
        }
    }

    /// No two distinct cells contain the same quantile.
    proof fn lemma_cell_unique(&self, q: int, i: int, j: int)
        requires
            self.wf(),
            0 <= i < self.span(),
            0 <= j < self.span(),
            self.cum@[i] <= q < self.cum@[i + 1],
            self.cum@[j] <= q < self.cum@[j + 1],
        ensures
            i == j,
    {
        if i < j {
            assert(self.cum@[i + 1] <= self.cum@[j]);
        } else if j < i {
            assert(self.cum@[j + 1] <= self.cum@[i]);
        }
    }

    /// `cell(q)` is a genuine cell containing `q`, for any `q` in
    /// `[0, TOTAL)`.
    pub(crate) proof fn lemma_cell_props(&self, q: int)
        requires
            self.wf(),
            0 <= q < TOTAL as int,
        ensures
            0 <= self.cell(q) < self.span(),
            self.cum@[self.cell(q)] <= q < self.cum@[self.cell(q) + 1],
            self.sup(self.sym(q)),
            self.lc(self.sym(q)) <= q < self.lc(self.sym(q)) + self.pr(self.sym(q)),
    {
        self.lemma_cell_exists_upto(q, self.span());
        let i = self.cell(q);
        assert(0 <= i < self.span() && self.cum@[i] <= q < self.cum@[i + 1]);
        assert(self.sym(q) - self.min == i);
    }

    /// A quantile inside a supported symbol's interval maps back to that
    /// symbol.
    pub(crate) proof fn lemma_sym_unique(&self, symbol: i32, q: int)
        requires
            self.wf(),
            self.sup(symbol),
            self.lc(symbol) <= q < self.lc(symbol) + self.pr(symbol),
        ensures
            self.sym(q) == symbol,
    {
        assert(0 <= q < TOTAL as int) by {
            assert(self.cum@[symbol - self.min] >= self.cum@[0]);
            assert(self.cum@[symbol - self.min + 1] <= self.cum@[self.span()]);
        }
        self.lemma_cell_props(q);
        self.lemma_cell_unique(q, self.cell(q), symbol - self.min);
    }

    /// Intervals on the support are non-empty and bounded by `TOTAL`.
    pub(crate) proof fn lemma_interval_valid(&self, symbol: i32)
        requires
            self.wf(),
            self.sup(symbol),
        ensures
            1 <= self.pr(symbol),
            0 <= self.lc(symbol),
            self.lc(symbol) + self.pr(symbol) <= TOTAL as int,
    {
        assert(self.cum@[symbol - self.min] >= self.cum@[0]);
        assert(self.cum@[symbol - self.min + 1] <= self.cum@[self.span()]);
    }

    /// Forward lookup by table access.
    pub(crate) fn lookup(&self, symbol: i32) -> (r: Result<(u32, u32), CoderError>)
        requires
            self.wf(),
        ensures
            match r {
                Ok(cp) => self.sup(symbol) && cp.0 == self.lc(symbol) && cp.1 == self.pr(symbol),
                Err(e) => !self.sup(symbol) && e == CoderError::UnsupportedSymbol,
            },
    {
        if symbol < self.min || symbol > self.max {
            return Err(CoderError::UnsupportedSymbol);
        }
        let i = (symbol as i64 - self.min as i64) as usize;
        let lo = self.cum[i];
        let hi = self.cum[i + 1];
        Ok((lo, hi - lo))
    }

    /// Inverse lookup by binary search over the cumulative table.
    pub(crate) fn quantile(&self, q: u32) -> (r: (i32, u32, u32))
        requires
            self.wf(),
            q < TOTAL,
        ensures
            r.0 == self.sym(q as int),
            r.1 == self.lc(r.0),
            r.2 == self.pr(r.0),
    {
        proof {
            self.lemma_cell_props(q as int);
        }
        let mut lo: usize = 0;
        let mut hi: usize = self.cum.len() - 1;
        while hi - lo > 1
            invariant
                self.wf(),
                q < TOTAL,
                0 <= lo < hi <= self.span(),
                self.cum@[lo as int] <= q < self.cum@[hi as int],
            decreases hi - lo,
        {
            let mid = lo + (hi - lo) / 2;
            if self.cum[mid] <= q {
                lo = mid;
            } else {
                hi = mid;
            }
        }
        proof {
            self.lemma_cell_unique(q as int, self.cell(q as int), lo as int);
        }
        let symbol = self.min + lo as i32;
        let c = self.cum[lo];
        let p = self.cum[lo + 1];
        (symbol, c, p - c)
    }
}

} // verus!
