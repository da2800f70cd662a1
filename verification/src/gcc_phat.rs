//! The table of pairwise phase-transform (PHAT) cross-correlations, indexed
//! by lag, and the integer logic that reads it: the upper-triangular pair
//! index, circular lag lookup, windowed maxima and peak selection.
//!
//! Correlation values are binary64 bit patterns and are compared as the
//! numbers they encode (see [`crate::binary64`]).
use crate::binary64::{
    ge, gt, lemma_neg_infinity_least, lemma_scan_best, order_key, scan_best, spec_ge, spec_gt,
    spec_is_nan, spec_order_key,
    NEG_INFINITY_BITS, ZERO_BITS,
};
use vstd::prelude::*;

verus! {

/// `i·(i+1)/2`, the `i`-th triangular number.
pub open spec fn tri(i: int) -> int {
    i * (i + 1) / 2
}

/// Number of unordered pairs among `n` emplacements.
pub open spec fn pair_count(n: int) -> int {
    if n <= 0 {
        0
    } else {
        tri(n - 1)
    }
}

/// Index of pair `(i, j)`, `i < j`, in the order `(0,1),(0,2),…,(0,n-1),(1,2),…`.
pub open spec fn spec_pair_index(n: int, i: int, j: int) -> int {
    i * n - tri(i) + (j - i - 1)
}

proof fn lemma_tri(i: int)
    requires
        0 <= i,
    ensures
        tri(i) * 2 == i * (i + 1),
        tri(i + 1) == tri(i) + i + 1,
        tri(i) >= 0,
{
    let q = i / 2;
    if i % 2 == 0 {
        assert(i * (i + 1) == 2 * (q * (i + 1))) by (nonlinear_arith)
            requires
                i == 2 * q,
        ;
    } else {
        assert(i * (i + 1) == 2 * (i * (q + 1))) by (nonlinear_arith)
            requires
                i == 2 * q + 1,
        ;
    }
    assert((i + 1) * (i + 2) == i * (i + 1) + 2 * (i + 1)) by (nonlinear_arith);
    assert(i * (i + 1) >= 0) by (nonlinear_arith)
        requires
            i >= 0,
    ;
}

/// `tri(i)` as a product that has no intermediate overflow.
proof fn lemma_half_product(i: int)
    requires
        0 <= i,
    ensures
        i % 2 == 0 ==> (i / 2) * (i + 1) == tri(i),
        i % 2 == 1 ==> i * ((i + 1) / 2) == tri(i),
        tri(i) >= 0,
{
    lemma_tri(i);
    let q = i / 2;
    if i % 2 == 0 {
        assert(i == 2 * q);
        assert(i * (i + 1) == 2 * (q * (i + 1))) by (nonlinear_arith)
            requires
                i == 2 * q,
        ;
    } else {
        assert(i == 2 * q + 1);
        assert((i + 1) / 2 == q + 1);
        assert(i * (i + 1) == 2 * (i * (q + 1))) by (nonlinear_arith)
            requires
                i == 2 * q + 1,
        ;
    }
}

/// The pair index enumerates the pairs: it lies in `[0, pair_count(n))` and
/// grows strictly with the lexicographic order of `(i, j)`.
pub proof fn lemma_pair_index_enumerates(n: int, i1: int, j1: int, i2: int, j2: int)
    requires
        0 <= i1 < j1 < n,
        0 <= i2 < j2 < n,
    ensures
        0 <= spec_pair_index(n, i1, j1) < pair_count(n),
        (i1 < i2 || (i1 == i2 && j1 < j2)) ==> spec_pair_index(n, i1, j1) < spec_pair_index(
            n,
            i2,
            j2,
        ),
    decreases i2 - i1,
{
    lemma_pair_index_bounds(n, i1, j1);
    if i1 < i2 {
        // Last pair of row i1 is just before the first pair of row i1 + 1.
        lemma_tri(i1);
        assert(spec_pair_index(n, i1 + 1, i1 + 2) == spec_pair_index(n, i1, n - 1) + 1) by (
        nonlinear_arith)
            requires
                tri(i1 + 1) == tri(i1) + i1 + 1,
        ;
        if i1 + 1 < i2 {
            lemma_pair_index_enumerates(n, i1 + 1, i1 + 2, i2, j2);
        } else if i1 + 2 < j2 {
            assert(spec_pair_index(n, i1 + 1, i1 + 2) < spec_pair_index(n, i2, j2));
        }
    }
}

/// The pair index of a valid pair lies in `[0, pair_count(n))`.
pub proof fn lemma_pair_index_bounds(n: int, i: int, j: int)
    requires
        0 <= i < j < n,
    ensures
        0 <= spec_pair_index(n, i, j) < pair_count(n),
        spec_pair_index(n, i, j) == i * (n - 1 - i) + tri(i) + (j - i - 1),
{
    lemma_tri(i);
    lemma_tri(n - 1);
    assert(tri(i) * 2 == i * (i + 1));
    assert(tri(n - 1) * 2 == (n - 1) * n);
    assert(i * n - tri(i) == i * (n - 1 - i) + tri(i)) by (nonlinear_arith)
        requires
            tri(i) * 2 == i * (i + 1),
    ;
    assert(i * (n - 1 - i) >= 0) by (nonlinear_arith)
        requires
            0 <= i < n,
    ;
    // 2·(pair_count − index − 1) = (n−i)² − 3(n−i) + 2 + 2(n − 1 − j) ≥ 0.
    assert(2 * (i * n - tri(i) + (j - i - 1)) < (n - 1) * n) by (nonlinear_arith)
        requires
            tri(i) * 2 == i * (i + 1),
            0 <= i < j < n,
    ;
}

/// Pairwise PHAT correlations for one frame-set, indexed by lag.
/// Upper-triangular pair order `(0,1),(0,2),…,(0,n-1),(1,2),…`.
pub struct CorrTable {
    pub n_fft: usize,
    pub n_emp: usize,
    pair_corr: Vec<Vec<u64>>,
}

/// The correlation at a lag (taken modulo `n_fft`) of the given rows.
pub open spec fn lag_value(corr: Seq<Seq<u64>>, n: int, n_fft: int, i: int, j: int, lag: int) -> u64 {
    corr[spec_pair_index(n, i, j)][lag % n_fft]
}

/// `count` correlation values at consecutive lags from `lo`.
pub open spec fn lag_values(
    corr: Seq<Seq<u64>>,
    n: int,
    n_fft: int,
    i: int,
    j: int,
    lo: int,
    count: nat,
) -> Seq<u64> {
    Seq::new(count, |k: int| lag_value(corr, n, n_fft, i, j, lo + k))
}

impl CorrTable {
    /// Well-formed: a positive transform length that fits a signed lag, one
    /// row per pair, and `n_fft` values per row.
    pub closed spec fn wf(&self) -> bool {
        &&& 0 < self.n_fft <= i64::MAX
        &&& self.pair_corr@.len() == pair_count(self.n_emp as int)
        &&& pair_count(self.n_emp as int) <= usize::MAX
        &&& forall|p: int|
            0 <= p < self.pair_corr@.len() ==> (#[trigger] self.pair_corr@[p])@.len()
                == self.n_fft
    }

    /// The transform length (number of lags per row).
    pub closed spec fn fft_len(&self) -> nat {
        self.n_fft as nat
    }

    /// The number of emplacements.
    pub closed spec fn emp_count(&self) -> nat {
        self.n_emp as nat
    }

    /// The correlation rows, one per pair.
    pub closed spec fn rows(&self) -> Seq<Seq<u64>> {
        Seq::new(self.pair_corr@.len(), |p: int| self.pair_corr@[p]@)
    }

    /// The correlation of pair `(i, j)` at `lag`, taken modulo `n_fft`.
    pub closed spec fn value_at(&self, i: int, j: int, lag: int) -> u64 {
        lag_value(self.rows(), self.n_emp as int, self.n_fft as int, i, j, lag)
    }

    /// `count` correlation values of pair `(i, j)` at consecutive lags from `lo`.
    pub closed spec fn values(&self, i: int, j: int, lo: int, count: nat) -> Seq<u64> {
        lag_values(self.rows(), self.n_emp as int, self.n_fft as int, i, j, lo, count)
    }

    /// Lag `l` is a positive local maximum of pair `(i, j)`: strictly inside
    /// `(-n_fft/2, n_fft/2 - 1)`, greater than zero, not below its left
    /// neighbour and above its right neighbour.
    pub closed spec fn is_local_peak(&self, i: int, j: int, l: int) -> bool {
        let half = (self.n_fft / 2) as int;
        &&& -half + 1 <= l < half - 1
        &&& spec_gt(self.value_at(i, j, l), ZERO_BITS)
        &&& spec_ge(self.value_at(i, j, l), self.value_at(i, j, l - 1))
        &&& spec_gt(self.value_at(i, j, l), self.value_at(i, j, l + 1))
    }

    /// Lag `a` ranks before lag `b`: its correlation is greater in the total
    /// order of `total_cmp`, or equal with `a` the smaller lag.
    pub closed spec fn ranks_before(&self, i: int, j: int, a: int, b: int) -> bool {
        let ka = spec_order_key(self.value_at(i, j, a));
        let kb = spec_order_key(self.value_at(i, j, b));
        ka > kb || (ka == kb && a < b)
    }

    /// Well-formedness in terms of the public views.
    pub proof fn lemma_wf(&self)
        ensures
            self.wf() <==> {
                &&& 0 < self.fft_len() <= i64::MAX
                &&& self.rows().len() == pair_count(self.emp_count() as int)
                &&& pair_count(self.emp_count() as int) <= usize::MAX
                &&& forall|p: int|
                    0 <= p < self.rows().len() ==> (#[trigger] self.rows()[p]).len()
                        == self.fft_len()
            },
    {
        if self.wf() {
            assert forall|p: int| 0 <= p < self.rows().len() implies (#[trigger] self.rows()[p]).len()
                == self.fft_len() by {
                assert(self.rows()[p] == self.pair_corr@[p]@);
            }
        }
        if forall|p: int|
            0 <= p < self.rows().len() ==> (#[trigger] self.rows()[p]).len() == self.fft_len() {
            assert forall|p: int| 0 <= p < self.pair_corr@.len() implies (
            #[trigger] self.pair_corr@[p])@.len() == self.n_fft by {
                assert(self.rows()[p] == self.pair_corr@[p]@);
            }
        }
    }

    /// What `value_at` is, in terms of the rows.
    pub proof fn lemma_value_at(&self, i: int, j: int, lag: int)
        ensures
            self.value_at(i, j, lag) == lag_value(
                self.rows(),
                self.emp_count() as int,
                self.fft_len() as int,
                i,
                j,
                lag,
            ),
    {
    }

    /// What `values` is: consecutive `value_at` from `lo`.
    pub proof fn lemma_values(&self, i: int, j: int, lo: int, count: nat)
        ensures
            self.values(i, j, lo, count).len() == count,
            forall|k: int|
                0 <= k < count ==> #[trigger] self.values(i, j, lo, count)[k] == self.value_at(
                    i,
                    j,
                    lo + k,
                ),
    {
    }

    /// What `is_local_peak` is.
    pub proof fn lemma_is_local_peak(&self, i: int, j: int, l: int)
        ensures
            self.is_local_peak(i, j, l) <==> {
                let half = (self.fft_len() / 2) as int;
                &&& -half + 1 <= l < half - 1
                &&& spec_gt(self.value_at(i, j, l), ZERO_BITS)
                &&& spec_ge(self.value_at(i, j, l), self.value_at(i, j, l - 1))
                &&& spec_gt(self.value_at(i, j, l), self.value_at(i, j, l + 1))
            },
    {
    }

    /// What `ranks_before` is.
    pub proof fn lemma_ranks_before(&self, i: int, j: int, a: int, b: int)
        ensures
            self.ranks_before(i, j, a, b) <==> {
                let ka = spec_order_key(self.value_at(i, j, a));
                let kb = spec_order_key(self.value_at(i, j, b));
                ka > kb || (ka == kb && a < b)
            },
    {
    }

    /// Correlations are periodic in the lag with period `n_fft`.
    pub proof fn lemma_value_at_periodic(&self, i: int, j: int, lag: int, m: int)
        requires
            self.fft_len() > 0,
        ensures
            self.value_at(i, j, lag + m * self.fft_len()) == self.value_at(i, j, lag),
    {
        let n = self.n_fft as int;
        vstd::arithmetic::div_mod::lemma_mod_multiples_vanish(m, lag, n);
        assert(lag + m * n == n * m + lag) by (nonlinear_arith);
    }

    /// The windowed maximum does not decrease as the half-window grows.
    pub proof fn lemma_window_max_monotone(&self, i: int, j: int, center: int, hw1: int, hw2: int)
        requires
            0 <= hw1 <= hw2,
        ensures
            !spec_gt(
                scan_best(self.values(i, j, center - hw1, (2 * hw1 + 1) as nat)).0,
                scan_best(self.values(i, j, center - hw2, (2 * hw2 + 1) as nat)).0,
            ),
    {
        let v1 = self.values(i, j, center - hw1, (2 * hw1 + 1) as nat);
        let v2 = self.values(i, j, center - hw2, (2 * hw2 + 1) as nat);
        lemma_scan_best(v1);
        lemma_scan_best(v2);
        let (w1, k1) = scan_best(v1);
        let (w2, k2) = scan_best(v2);
        if k1 >= 0 {
            assert(v1[k1] == self.value_at(i, j, center - hw1 + k1));
            assert(v2[hw2 - hw1 + k1] == self.value_at(i, j, center - hw1 + k1));
        }
    }

    /// Builds a table from correlation rows in pair order; `None` unless the
    /// shape is right (a positive `n_fft` that fits a signed lag, one row per
    /// pair, `n_fft` values per row).
    pub fn from_correlations(n_fft: usize, n_emp: usize, pair_corr: Vec<Vec<u64>>) -> (r: Option<
        CorrTable,
    >)
        ensures
            r is Some <==> {
                &&& 0 < n_fft <= i64::MAX
                &&& pair_corr@.len() == pair_count(n_emp as int)
                &&& forall|p: int|
                    0 <= p < pair_corr@.len() ==> (#[trigger] pair_corr@[p])@.len() == n_fft
            },
            r matches Some(t) ==> {
                &&& t.wf()
                &&& t.fft_len() == n_fft
                &&& t.emp_count() == n_emp
                &&& t.rows() == Seq::new(pair_corr@.len(), |p: int| pair_corr@[p]@)
            },
    {
        if n_fft == 0 || n_fft as u64 > i64::MAX as u64 {
            return None;
        }
        // n_emp·(n_emp − 1)/2, computed without overflow where it fits.
        let expected: Option<usize> = if n_emp == 0 {
            Some(0)
        } else if n_emp % 2 == 0 {
            (n_emp / 2).checked_mul(n_emp - 1)
        } else {
            n_emp.checked_mul((n_emp - 1) / 2)
        };
        proof {
            if n_emp > 0 {
                let i = n_emp - 1;
                lemma_half_product(i as int);
                vstd::arithmetic::mul::lemma_mul_is_commutative((n_emp / 2) as int, i as int);
                vstd::arithmetic::mul::lemma_mul_is_commutative(n_emp as int, (i / 2) as int);
                assert(n_emp % 2 == 0 ==> (i + 1) / 2 == n_emp / 2);
                assert(n_emp % 2 == 1 ==> i / 2 == (n_emp - 1) / 2);
            }
        }
        let len = pair_corr.len();
        match expected {
            Some(count) => {
                if len != count {
                    return None;
                }
            },
            None => {
                return None;
            },
        }
        let mut p: usize = 0;
        while p < pair_corr.len()
            invariant
                p <= pair_corr@.len(),
                forall|q: int| 0 <= q < p ==> (#[trigger] pair_corr@[q])@.len() == n_fft,
            decreases pair_corr@.len() - p,
        {
            if pair_corr[p].len() != n_fft {
                return None;
            }
            p = p + 1;
        }
        let t = CorrTable { n_fft, n_emp, pair_corr };
        assert(t.rows() =~= Seq::new(t.pair_corr@.len(), |p: int| t.pair_corr@[p]@));
        Some(t)
    }

    /// Upper-triangular pair index for `i < j`.
    pub fn pair_index(&self, i: usize, j: usize) -> (p: usize)
        requires
            self.wf(),
            i < j < self.emp_count(),
        ensures
            p == spec_pair_index(self.emp_count() as int, i as int, j as int),
            p < self.rows().len(),
    {
        let n = self.n_emp;
        proof {
            lemma_pair_index_bounds(n as int, i as int, j as int);
            lemma_half_product(i as int);
            assert(i * (n - 1 - i) >= 0) by (nonlinear_arith)
                requires
                    i < n,
            ;
        }
        let row_tail = n - 1 - i;
        let t = if i % 2 == 0 {
            (i / 2) * (i + 1)
        } else {
            i * ((i + 1) / 2)
        };
        i * row_tail + t + (j - i - 1)
    }

    /// The correlation row of pair `(i, j)` at `lag`, taken modulo `n_fft`.
    pub fn at(&self, i: usize, j: usize, lag: i64) -> (v: u64)
        requires
            self.wf(),
            i < j < self.emp_count(),
        ensures
            v == self.value_at(i as int, j as int, lag as int),
    {
        let p = self.pair_index(i, j);
        let idx = wrap_lag(lag, self.n_fft);
        let row = &self.pair_corr[p];
        assert(row@ == self.rows()[p as int]);
        row[idx]
    }

    /// Integer lag of the global correlation peak of pair `(i, j)`, as a
    /// signed lag in `(-n_fft/2, n_fft/2]`: those lags are scanned in
    /// increasing order, keeping a value only when it is strictly greater
    /// than the best so far (starting from negative infinity); `0` when none
    /// is.
    pub fn peak_lag(&self, i: usize, j: usize) -> (lag: i64)
        requires
            self.wf(),
            i < j < self.emp_count(),
        ensures
            ({
                let half = (self.fft_len() / 2) as int;
                let k = scan_best(self.values(i as int, j as int, 1 - half, (2 * half) as nat)).1;
                lag == if k < 0 {
                    0
                } else {
                    k + 1 - half
                }
            }),
            (self.fft_len() / 2) as int >= 1 ==> -((self.fft_len() / 2) as int) < lag <= (
            self.fft_len() / 2) as int,
            forall|l: int|
                -((self.fft_len() / 2) as int) < l <= (self.fft_len() / 2) as int ==> !spec_gt(
                    #[trigger] self.value_at(i as int, j as int, l),
                    self.value_at(i as int, j as int, lag as int),
                ),
            self.fft_len() % 2 == 0 ==> forall|l: int|
                !spec_gt(
                    #[trigger] self.value_at(i as int, j as int, l),
                    self.value_at(i as int, j as int, lag as int),
                ),
    {
        let half = (self.n_fft / 2) as i64;
        let ghost lo = 1 - half as int;
        let mut best_lag: i64 = 0;
        let mut best_val: u64 = NEG_INFINITY_BITS;
        let mut lag: i64 = 1 - half;
        while lag <= half
            invariant
                self.wf(),
                i < j < self.n_emp,
                half == self.n_fft / 2,
                lo == 1 - half,
                lo <= lag <= half + 1,
                best_val == scan_best(self.values(i as int, j as int, lo, (lag - lo) as nat)).0,
                best_lag == (if scan_best(self.values(i as int, j as int, lo, (lag - lo) as nat)).1
                    < 0 {
                    0
                } else {
                    scan_best(self.values(i as int, j as int, lo, (lag - lo) as nat)).1 + lo
                }),
            decreases half + 1 - lag,
        {
            let v = self.at(i, j, lag);
            let ghost prev = self.values(i as int, j as int, lo, (lag - lo) as nat);
            let ghost next = self.values(i as int, j as int, lo, (lag - lo + 1) as nat);
            assert(next.drop_last() =~= prev);
            assert(next.last() == v);
            if gt(v, best_val) {
                best_val = v;
                best_lag = lag;
            }
            lag = lag + 1;
        }
        proof {
            let vals = self.values(i as int, j as int, lo, (2 * half) as nat);
            assert((lag - lo) as nat == (2 * half) as nat);
            lemma_scan_best(vals);
            let (b, k) = scan_best(vals);
            assert forall|l: int| lo <= l <= half implies !spec_gt(
                #[trigger] self.value_at(i as int, j as int, l),
                self.value_at(i as int, j as int, best_lag as int),
            ) by {
                assert(vals[l - lo] == self.value_at(i as int, j as int, l));
                if k >= 0 {
                    assert(vals[k] == self.value_at(i as int, j as int, best_lag as int));
                } else {
                    let z = self.value_at(i as int, j as int, 0);
                    assert(vals[-lo] == z);
                    if !spec_is_nan(z) && z != NEG_INFINITY_BITS {
                        lemma_neg_infinity_least(z);
                    }
                }
            }
        }
        proof {
            if self.n_fft % 2 == 0 {
                let n = self.n_fft as int;
                let h = half as int;
                assert forall|l: int| !spec_gt(
                    #[trigger] self.value_at(i as int, j as int, l),
                    self.value_at(i as int, j as int, best_lag as int),
                ) by {
                    let m = (l + h - 1) / n;
                    let r = (l + h - 1) % n;
                    assert(l + h - 1 == n * m + r) by (nonlinear_arith)
                        requires
                            n > 0,
                            m == (l + h - 1) / n,
                            r == (l + h - 1) % n,
                    ;
                    let l0 = r - h + 1;
                    assert(l == l0 + m * n) by (nonlinear_arith)
                        requires
                            l + h - 1 == n * m + r,
                            l0 == r - h + 1,
                    ;
                    self.lemma_value_at_periodic(i as int, j as int, l0, m);
                    assert(-h < l0 <= h);
                    assert(!spec_gt(
                        self.value_at(i as int, j as int, l0),
                        self.value_at(i as int, j as int, best_lag as int),
                    ));
                }
            }
        }
        best_lag
    }

    /// Largest correlation of pair `(i, j)` over the lag window
    /// `center - half_win ..= center + half_win`: the window is scanned in
    /// order keeping a value only when strictly greater than the best so far,
    /// starting from negative infinity (the result for an empty window).
    pub fn pooled_max(&self, i: usize, j: usize, center: i64, half_win: i64) -> (v: u64)
        requires
            self.wf(),
            i < j < self.emp_count(),
            i64::MIN <= center - half_win <= i64::MAX,
            i64::MIN <= center + half_win <= i64::MAX,
        ensures
            v == scan_best(
                self.values(
                    i as int,
                    j as int,
                    center - half_win,
                    if half_win >= 0 {
                        (2 * half_win + 1) as nat
                    } else {
                        0
                    },
                ),
            ).0,
            forall|l: int|
                center - half_win <= l <= center + half_win ==> !spec_gt(
                    #[trigger] self.value_at(i as int, j as int, l),
                    v,
                ),
            half_win < 0 ==> v == NEG_INFINITY_BITS,
    {
        let lo = center - half_win;
        let hi = center + half_win;
        let mut best: u64 = NEG_INFINITY_BITS;
        if lo <= hi {
            let mut lag = lo;
            loop
                invariant_except_break
                    best == scan_best(self.values(i as int, j as int, lo as int, (lag - lo) as nat)).0,
                invariant
                    self.wf(),
                    i < j < self.n_emp,
                    lo <= lag <= hi,
                ensures
                    best == scan_best(
                        self.values(i as int, j as int, lo as int, (hi - lo + 1) as nat),
                    ).0,
                decreases hi - lag,
            {
                let v = self.at(i, j, lag);
                let ghost prev = self.values(i as int, j as int, lo as int, (lag - lo) as nat);
                let ghost next = self.values(i as int, j as int, lo as int, (lag - lo + 1) as nat);
                assert(next.drop_last() =~= prev);
                assert(next.last() == v);
                if gt(v, best) {
                    best = v;
                }
                if lag == hi {
                    break;
                }
                lag = lag + 1;
            }
        }
        proof {
            let count: nat = if lo <= hi {
                (hi - lo + 1) as nat
            } else {
                0
            };
            let vals = self.values(i as int, j as int, lo as int, count);
            lemma_scan_best(vals);
            assert forall|l: int| lo <= l <= hi implies !spec_gt(
                #[trigger] self.value_at(i as int, j as int, l),
                best,
            ) by {
                assert(vals[l - lo] == self.value_at(i as int, j as int, l));
            }
        }
        best
    }

    /// The windowed maximum reaches the peak height: when the window holds a
    /// lag whose (non-NaN) correlation no lag exceeds, the windowed maximum
    /// equals that correlation as a number (neither is greater).
    pub proof fn lemma_window_reaches_peak(
        &self,
        i: int,
        j: int,
        center: int,
        half_win: int,
        peak: int,
    )
        requires
            center - half_win <= peak <= center + half_win,
            !spec_is_nan(self.value_at(i, j, peak)),
            forall|l: int| !spec_gt(#[trigger] self.value_at(i, j, l), self.value_at(i, j, peak)),
        ensures
            ({
                let w = scan_best(self.values(i, j, center - half_win, (2 * half_win + 1) as nat)).0;
                &&& !spec_gt(w, self.value_at(i, j, peak))
                &&& !spec_gt(self.value_at(i, j, peak), w)
            }),
    {
        let vals = self.values(i, j, center - half_win, (2 * half_win + 1) as nat);
        lemma_scan_best(vals);
        let (w, k) = scan_best(vals);
        let vp = self.value_at(i, j, peak);
        assert(vals[peak - (center - half_win)] == vp);
        if k >= 0 {
            assert(vals[k] == self.value_at(i, j, center - half_win + k));
        }
    }

    fn rank_before(&self, i: usize, j: usize, a: i64, b: i64) -> (r: bool)
        requires
            self.wf(),
            i < j < self.n_emp,
        ensures
            r == self.ranks_before(i as int, j as int, a as int, b as int),
    {
        let ka = order_key(self.at(i, j, a));
        let kb = order_key(self.at(i, j, b));
        ka > kb || (ka == kb && a < b)
    }

    /// All positive local maxima of pair `(i, j)`, in increasing lag order.
    fn local_peaks(&self, i: usize, j: usize) -> (peaks: Vec<i64>)
        requires
            self.wf(),
            i < j < self.n_emp,
        ensures
            forall|q: int|
                0 <= q < peaks@.len() ==> self.is_local_peak(i as int, j as int, #[trigger] peaks@[q] as int),
            forall|q1: int, q2: int|
                0 <= q1 < q2 < peaks@.len() ==> #[trigger] peaks@[q1] < #[trigger] peaks@[q2],
            forall|l: int| #[trigger]
                self.is_local_peak(i as int, j as int, l) ==> peaks@.contains(l as i64),
    {
        let half = (self.n_fft / 2) as i64;
        let mut peaks: Vec<i64> = Vec::new();
        let mut lag: i64 = -half + 1;
        while lag < half - 1
            invariant
                self.wf(),
                i < j < self.n_emp,
                half == self.n_fft / 2,
                -half + 1 <= lag,
                forall|q: int|
                    0 <= q < peaks@.len() ==> self.is_local_peak(i as int, j as int, #[trigger] peaks@[q] as int),
                forall|q: int| 0 <= q < peaks@.len() ==> #[trigger] peaks@[q] < lag,
                forall|q1: int, q2: int|
                    0 <= q1 < q2 < peaks@.len() ==> #[trigger] peaks@[q1] < #[trigger] peaks@[q2],
                forall|l: int|
                    -half + 1 <= l < lag && #[trigger] self.is_local_peak(i as int, j as int, l)
                        ==> peaks@.contains(l as i64),
            decreases half - lag,
        {
            let v = self.at(i, j, lag);
            let left = self.at(i, j, lag - 1);
            let right = self.at(i, j, lag + 1);
            if gt(v, ZERO_BITS) && ge(v, left) && gt(v, right) {
                let ghost before = peaks@;
                peaks.push(lag);
                proof {
                    assert forall|l: int|
                        -half + 1 <= l < lag + 1 && #[trigger] self.is_local_peak(
                            i as int,
                            j as int,
                            l,
                        ) implies peaks@.contains(l as i64) by {
                        if l < lag {
                            let q = choose|q: int| 0 <= q < before.len() && before[q] == l as i64;
                            assert(peaks@[q] == l as i64);
                        } else {
                            assert(peaks@[peaks@.len() - 1] == l as i64);
                        }
                    }
                }
            } else {
                assert(!self.is_local_peak(i as int, j as int, lag as int));
            }
            lag = lag + 1;
        }
        peaks
    }

    /// The lags of `peaks` ordered by rank (see [`CorrTable::ranks_before`]).
    fn rank_sort(&self, i: usize, j: usize, peaks: &Vec<i64>) -> (sorted: Vec<i64>)
        requires
            self.wf(),
            i < j < self.n_emp,
            forall|q1: int, q2: int|
                0 <= q1 < q2 < peaks@.len() ==> #[trigger] peaks@[q1] < #[trigger] peaks@[q2],
        ensures
            forall|a: int, b: int|
                0 <= a < b < sorted@.len() ==> self.ranks_before(
                    i as int,
                    j as int,
                    #[trigger] sorted@[a] as int,
                    #[trigger] sorted@[b] as int,
                ),
            forall|x: i64| sorted@.contains(x) <==> peaks@.contains(x),
    {
        let mut sorted: Vec<i64> = Vec::new();
        let mut t: usize = 0;
        while t < peaks.len()
            invariant
                self.wf(),
                i < j < self.n_emp,
                t <= peaks@.len(),
                forall|q1: int, q2: int|
                    0 <= q1 < q2 < peaks@.len() ==> #[trigger] peaks@[q1] < #[trigger] peaks@[q2],
                forall|a: int, b: int|
                    0 <= a < b < sorted@.len() ==> self.ranks_before(
                        i as int,
                        j as int,
                        #[trigger] sorted@[a] as int,
                        #[trigger] sorted@[b] as int,
                    ),
                forall|x: i64| sorted@.contains(x) <==> peaks@.take(t as int).contains(x),
            decreases peaks@.len() - t,
        {
            let x = peaks[t];
            let mut pos: usize = 0;
            while pos < sorted.len() && self.rank_before(i, j, sorted[pos], x)
                invariant
                    self.wf(),
                    i < j < self.n_emp,
                    pos <= sorted@.len(),
                    forall|a: int|
                        0 <= a < pos ==> self.ranks_before(
                            i as int,
                            j as int,
                            #[trigger] sorted@[a] as int,
                            x as int,
                        ),
                decreases sorted@.len() - pos,
            {
                pos = pos + 1;
            }
            proof {
                // x is not yet in sorted: lags of peaks are distinct.
                assert(!sorted@.contains(x)) by {
                    if sorted@.contains(x) {
                        let tk = peaks@.take(t as int);
                        let q = choose|q: int| 0 <= q < tk.len() && tk[q] == x;
                        assert(peaks@[q] < peaks@[t as int]);
                    }
                }
                if pos < sorted@.len() {
                    assert(sorted@[pos as int] != x);
                    assert(self.ranks_before(i as int, j as int, x as int, sorted@[pos as int] as int));
                }
            }
            let ghost old_sorted = sorted@;
            sorted.insert(pos, x);
            proof {
                old_sorted.insert_ensures(pos as int, x);
                assert forall|a: int, b: int|
                    0 <= a < b < sorted@.len() implies self.ranks_before(
                    i as int,
                    j as int,
                    #[trigger] sorted@[a] as int,
                    #[trigger] sorted@[b] as int,
                ) by {
                    if b < pos {
                    } else if b == pos {
                    } else if a < pos {
                        assert(sorted@[b] == old_sorted[b - 1]);
                        assert(self.ranks_before(i as int, j as int, x as int, old_sorted[pos as int] as int));
                        if b - 1 > pos {
                            assert(self.ranks_before(i as int, j as int, old_sorted[pos as int] as int, old_sorted[b - 1] as int));
                        }
                    } else if a == pos {
                        assert(sorted@[b] == old_sorted[b - 1]);
                        if b - 1 > pos {
                            assert(self.ranks_before(i as int, j as int, old_sorted[pos as int] as int, old_sorted[b - 1] as int));
                        }
                    } else {
                        assert(sorted@[a] == old_sorted[a - 1]);
                        assert(sorted@[b] == old_sorted[b - 1]);
                    }
                }
                assert(peaks@.take(t + 1) =~= peaks@.take(t as int).push(x));
                assert forall|y: i64| sorted@.contains(y) <==> peaks@.take(t + 1).contains(y) by {
                    if sorted@.contains(y) {
                        let q = choose|q: int| 0 <= q < sorted@.len() && sorted@[q] == y;
                        if q < pos {
                            assert(old_sorted[q] == y);
                            assert(old_sorted.contains(y));
                        } else if q > pos {
                            assert(old_sorted[q - 1] == y);
                            assert(old_sorted.contains(y));
                        }
                        assert(peaks@.take(t + 1)[t as int] == x);
                    }
                    if peaks@.take(t + 1).contains(y) {
                        if y == x {
                            assert(sorted@[pos as int] == x);
                        } else {
                            let tk = peaks@.take(t + 1);
                            let q = choose|q: int| 0 <= q < tk.len() && tk[q] == y;
                            assert(peaks@.take(t as int)[q] == y);
                            assert(old_sorted.contains(y));
                            let r = choose|r: int| 0 <= r < old_sorted.len() && old_sorted[r] == y;
                            if r < pos {
                                assert(sorted@[r] == y);
                            } else {
                                assert(sorted@[r + 1] == y);
                            }
                        }
                    }
                }
            }
            t = t + 1;
        }
        assert(peaks@.take(peaks@.len() as int) =~= peaks@);
        sorted
    }

    /// Integer lags of the `k` strongest well-separated positive local
    /// maxima of pair `(i, j)`, strongest first.  The local maxima are taken
    /// in rank order (greater correlation first, ties by smaller lag) and
    /// each is kept when it is at least `min_sep` from every lag kept
    /// before it, until `k` are kept.
    pub fn peak_lags(&self, i: usize, j: usize, k: usize, min_sep: i64) -> (out: Vec<i64>)
        requires
            self.wf(),
            i < j < self.emp_count(),
        ensures
            forall|m: int|
                0 <= m < out@.len() ==> self.is_local_peak(i as int, j as int, #[trigger] out@[m] as int),
            forall|m1: int, m2: int|
                0 <= m1 < m2 < out@.len() ==> self.ranks_before(
                    i as int,
                    j as int,
                    #[trigger] out@[m1] as int,
                    #[trigger] out@[m2] as int,
                ),
            forall|m1: int, m2: int|
                0 <= m1 < m2 < out@.len() ==> separated(
                    #[trigger] out@[m1] as int,
                    #[trigger] out@[m2] as int,
                    min_sep as int,
                ),
            out@.len() <= k,
            forall|l: int|
                #[trigger] self.is_local_peak(i as int, j as int, l) && !out@.contains(l as i64)
                    ==> (exists|m: int|
                    0 <= m < out@.len() && self.ranks_before(
                        i as int,
                        j as int,
                        #[trigger] out@[m] as int,
                        l,
                    ) && !separated(out@[m] as int, l, min_sep as int)) || (out@.len() == k
                    && forall|m: int|
                    0 <= m < out@.len() ==> self.ranks_before(
                        i as int,
                        j as int,
                        #[trigger] out@[m] as int,
                        l,
                    )),
            forall|m1: int, m2: int|
                0 <= m1 < m2 < out@.len() ==> spec_ge(
                    self.value_at(i as int, j as int, #[trigger] out@[m1] as int),
                    self.value_at(i as int, j as int, #[trigger] out@[m2] as int),
                ),
            out@.len() < k ==> forall|l: int|
                #[trigger] self.is_local_peak(i as int, j as int, l) && !out@.contains(l as i64)
                    ==> exists|m: int|
                    0 <= m < out@.len() && !separated(#[trigger] out@[m] as int, l, min_sep as int),
            forall|m1: int, m2: int|
                0 <= m1 < m2 < out@.len() ==> #[trigger] out@[m1] - #[trigger] out@[m2] >= min_sep
                    || out@[m2] - out@[m1] >= min_sep,
            out@.len() < k ==> forall|l: int|
                #[trigger] self.is_local_peak(i as int, j as int, l) && !out@.contains(l as i64)
                    ==> exists|m: int|
                    0 <= m < out@.len() && #[trigger] out@[m] - l < min_sep && l - out@[m] < min_sep,
    {
        let peaks = self.local_peaks(i, j);
        let sorted = self.rank_sort(i, j, &peaks);
        let ghost half = (self.n_fft / 2) as int;
        proof {
            assert forall|s: int| 0 <= s < sorted@.len() implies self.is_local_peak(
                i as int,
                j as int,
                #[trigger] sorted@[s] as int,
            ) by {
                assert(sorted@.contains(sorted@[s]));
                assert(peaks@.contains(sorted@[s]));
            }
        }
        let (picked, Ghost(idxs)) = greedy_pick(&sorted, k, min_sep);
        proof {
            assert forall|l: int|
                #[trigger] self.is_local_peak(i as int, j as int, l) && !picked@.contains(l as i64)
                    implies (exists|m: int|
                    0 <= m < picked@.len() && self.ranks_before(
                        i as int,
                        j as int,
                        #[trigger] picked@[m] as int,
                        l,
                    ) && !separated(picked@[m] as int, l, min_sep as int)) || (picked@.len() == k
                    && forall|m: int|
                    0 <= m < picked@.len() ==> self.ranks_before(
                        i as int,
                        j as int,
                        #[trigger] picked@[m] as int,
                        l,
                    )) by {
                assert(peaks@.contains(l as i64));
                assert(sorted@.contains(l as i64));
                let s = choose|s: int| 0 <= s < sorted@.len() && sorted@[s] == l as i64;
                if idxs.contains(s) {
                    let m = choose|m: int| 0 <= m < idxs.len() && idxs[m] == s;
                    assert(picked@[m] == l as i64);
                }
                if exists|m: int|
                    0 <= m < idxs.len() && #[trigger] idxs[m] < s && !separated(
                        picked@[m] as int,
                        sorted@[s] as int,
                        min_sep as int,
                    ) {
                    let m = choose|m: int|
                        0 <= m < idxs.len() && #[trigger] idxs[m] < s && !separated(
                            picked@[m] as int,
                            sorted@[s] as int,
                            min_sep as int,
                        );
                    assert(self.ranks_before(i as int, j as int, sorted@[idxs[m]] as int, sorted@[s] as int));
                } else {
                    assert forall|m: int| 0 <= m < picked@.len() implies self.ranks_before(
                        i as int,
                        j as int,
                        #[trigger] picked@[m] as int,
                        l,
                    ) by {
                        assert(idxs[m] < s);
                        assert(self.ranks_before(i as int, j as int, sorted@[idxs[m]] as int, sorted@[s] as int));
                    }
                }
            }
            assert forall|m: int| 0 <= m < picked@.len() implies self.is_local_peak(
                i as int,
                j as int,
                #[trigger] picked@[m] as int,
            ) by {
                assert(picked@[m] == sorted@[idxs[m]]);
            }
            assert forall|m1: int, m2: int| 0 <= m1 < m2 < picked@.len() implies self.ranks_before(
                i as int,
                j as int,
                #[trigger] picked@[m1] as int,
                #[trigger] picked@[m2] as int,
            ) by {
                assert(idxs[m1] < idxs[m2]);
                assert(self.ranks_before(i as int, j as int, sorted@[idxs[m1]] as int, sorted@[idxs[m2]] as int));
            }
        }
        proof {
            assert forall|m1: int, m2: int| 0 <= m1 < m2 < picked@.len() implies spec_ge(
                self.value_at(i as int, j as int, #[trigger] picked@[m1] as int),
                self.value_at(i as int, j as int, #[trigger] picked@[m2] as int),
            ) by {
                assert(self.ranks_before(i as int, j as int, picked@[m1] as int, picked@[m2] as int));
                assert(self.is_local_peak(i as int, j as int, picked@[m1] as int));
                assert(self.is_local_peak(i as int, j as int, picked@[m2] as int));
            }
            if picked@.len() < k {
                assert forall|l: int|
                    #[trigger] self.is_local_peak(i as int, j as int, l) && !picked@.contains(l as i64)
                        implies exists|m: int|
                        0 <= m < picked@.len() && !separated(#[trigger] picked@[m] as int, l, min_sep as int) by {
                    let m = choose|m: int|
                        0 <= m < picked@.len() && self.ranks_before(
                            i as int,
                            j as int,
                            #[trigger] picked@[m] as int,
                            l,
                        ) && !separated(picked@[m] as int, l, min_sep as int);
                }
            }
        }
        proof {
            assert forall|m1: int, m2: int| 0 <= m1 < m2 < picked@.len() implies #[trigger] picked@[m1]
                - #[trigger] picked@[m2] >= min_sep || picked@[m2] - picked@[m1] >= min_sep by {
                lemma_separated_distance(picked@[m1] as int, picked@[m2] as int, min_sep as int);
            }
            if picked@.len() < k {
                assert forall|l: int|
                    #[trigger] self.is_local_peak(i as int, j as int, l) && !picked@.contains(l as i64)
                        implies exists|m: int|
                        0 <= m < picked@.len() && #[trigger] picked@[m] - l < min_sep && l - picked@[m]
                            < min_sep by {
                    let m = choose|m: int|
                        0 <= m < picked@.len() && !separated(#[trigger] picked@[m] as int, l, min_sep as int);
                    lemma_separated_distance(picked@[m] as int, l, min_sep as int);
                }
            }
        }
        picked
    }
}

/// `a` and `b` are at least `min_sep` apart.
pub open spec fn separated(a: int, b: int, min_sep: int) -> bool {
    (if a >= b {
        a - b
    } else {
        b - a
    }) >= min_sep
}

/// Being separated by `min_sep` means being at least `min_sep` apart in
/// one direction or the other: the plain distance, not a scaled one.
pub proof fn lemma_separated_distance(a: int, b: int, min_sep: int)
    ensures
        separated(a, b, min_sep) <==> (a - b >= min_sep || b - a >= min_sep),
        separated(a, b, min_sep) == separated(b, a, min_sep),
{
}

/// Every lag of `lags` is within `±(2⁶² − 1)`.
pub open spec fn lags_bounded(lags: Seq<i64>) -> bool {
    forall|m: int| 0 <= m < lags.len() ==> -0x3FFF_FFFF_FFFF_FFFF <= #[trigger] lags[m] <= 0x3FFF_FFFF_FFFF_FFFF
}

/// Whether `lag` is at least `min_sep` from every lag of `picked`.
fn far_from_all(picked: &Vec<i64>, lag: i64, min_sep: i64) -> (ok: bool)
    requires
        lags_bounded(picked@),
        -0x3FFF_FFFF_FFFF_FFFF <= lag <= 0x3FFF_FFFF_FFFF_FFFF,
    ensures
        ok <==> forall|m: int|
            0 <= m < picked@.len() ==> separated(#[trigger] picked@[m] as int, lag as int, min_sep as int),
{
    let mut ok = true;
    let mut q: usize = 0;
    while q < picked.len()
        invariant
            q <= picked@.len(),
            lags_bounded(picked@),
            -0x3FFF_FFFF_FFFF_FFFF <= lag <= 0x3FFF_FFFF_FFFF_FFFF,
            ok <==> forall|m: int|
                0 <= m < q ==> separated(#[trigger] picked@[m] as int, lag as int, min_sep as int),
        decreases picked@.len() - q,
    {
        let d = picked[q] - lag;
        let dist = if d < 0 {
            -d
        } else {
            d
        };
        if dist < min_sep {
            ok = false;
        }
        q = q + 1;
    }
    ok
}

/// Greedy selection over `sorted`: walk it in order, keep an entry when it
/// is at least `min_sep` from every entry kept so far, stop after `k`.
/// Also returns (as ghost) the positions in `sorted` of the kept entries.
fn greedy_pick(sorted: &Vec<i64>, k: usize, min_sep: i64) -> (r: (Vec<i64>, Ghost<Seq<int>>))
    requires
        lags_bounded(sorted@),
    ensures
        r.1@.len() == r.0@.len(),
        r.0@.len() <= k,
        forall|m: int|
            0 <= m < r.1@.len() ==> 0 <= #[trigger] r.1@[m] < sorted@.len() && r.0@[m] == sorted@[r.1@[m]],
        forall|m1: int, m2: int| 0 <= m1 < m2 < r.1@.len() ==> #[trigger] r.1@[m1] < #[trigger] r.1@[m2],
        forall|m1: int, m2: int|
            0 <= m1 < m2 < r.0@.len() ==> separated(
                #[trigger] r.0@[m1] as int,
                #[trigger] r.0@[m2] as int,
                min_sep as int,
            ),
        forall|s: int|
            0 <= s < sorted@.len() && !r.1@.contains(s) ==> (exists|m: int|
                0 <= m < r.1@.len() && #[trigger] r.1@[m] < s && !separated(
                    r.0@[m] as int,
                    sorted@[s] as int,
                    min_sep as int,
                )) || (r.0@.len() == k && forall|m: int| 0 <= m < r.1@.len() ==> #[trigger] r.1@[m] < s),
{
    let mut picked: Vec<i64> = Vec::new();
    let ghost mut idxs: Seq<int> = Seq::empty();
    let mut t: usize = 0;
    while t < sorted.len()
        invariant
            lags_bounded(sorted@),
            t <= sorted@.len(),
            picked@.len() <= k,
            idxs.len() == picked@.len(),
            lags_bounded(picked@),
            forall|m: int|
                0 <= m < idxs.len() ==> 0 <= #[trigger] idxs[m] < t && picked@[m] == sorted@[idxs[m]],
            forall|m1: int, m2: int| 0 <= m1 < m2 < idxs.len() ==> #[trigger] idxs[m1] < #[trigger] idxs[m2],
            forall|m1: int, m2: int|
                0 <= m1 < m2 < picked@.len() ==> separated(
                    #[trigger] picked@[m1] as int,
                    #[trigger] picked@[m2] as int,
                    min_sep as int,
                ),
            forall|s: int|
                0 <= s < t && !idxs.contains(s) ==> exists|m: int|
                    0 <= m < idxs.len() && #[trigger] idxs[m] < s && !separated(
                        picked@[m] as int,
                        sorted@[s] as int,
                        min_sep as int,
                    ),
        ensures
            t == sorted@.len() || picked@.len() == k,
            t <= sorted@.len(),
            picked@.len() <= k,
            idxs.len() == picked@.len(),
            forall|m: int|
                0 <= m < idxs.len() ==> 0 <= #[trigger] idxs[m] < t && picked@[m] == sorted@[idxs[m]],
            forall|m1: int, m2: int| 0 <= m1 < m2 < idxs.len() ==> #[trigger] idxs[m1] < #[trigger] idxs[m2],
            forall|m1: int, m2: int|
                0 <= m1 < m2 < picked@.len() ==> separated(
                    #[trigger] picked@[m1] as int,
                    #[trigger] picked@[m2] as int,
                    min_sep as int,
                ),
            forall|s: int|
                0 <= s < t && !idxs.contains(s) ==> exists|m: int|
                    0 <= m < idxs.len() && #[trigger] idxs[m] < s && !separated(
                        picked@[m] as int,
                        sorted@[s] as int,
                        min_sep as int,
                    ),
        decreases sorted@.len() - t,
    {
        if picked.len() >= k {
            break;
        }
        let lag = sorted[t];
        let ok = far_from_all(&picked, lag, min_sep);
        let ghost before = picked@;
        let ghost before_idxs = idxs;
        if ok {
            picked.push(lag);
            proof {
                idxs = idxs.push(t as int);
                assert forall|s: int| 0 <= s < t + 1 && !idxs.contains(s) implies exists|m: int|
                    0 <= m < idxs.len() && #[trigger] idxs[m] < s && !separated(
                        picked@[m] as int,
                        sorted@[s] as int,
                        min_sep as int,
                    ) by {
                    if s == t {
                        assert(idxs[idxs.len() - 1] == s);
                    } else {
                        assert(!before_idxs.contains(s)) by {
                            if before_idxs.contains(s) {
                                let m = choose|m: int| 0 <= m < before_idxs.len() && before_idxs[m] == s;
                                assert(idxs[m] == s);
                            }
                        }
                        let m = choose|m: int|
                            0 <= m < before_idxs.len() && #[trigger] before_idxs[m] < s && !separated(
                                before[m] as int,
                                sorted@[s] as int,
                                min_sep as int,
                            );
                        assert(idxs[m] == before_idxs[m]);
                        assert(picked@[m] == before[m]);
                    }
                }
            }
        } else {
            proof {
                let m = choose|m: int|
                    0 <= m < picked@.len() && !separated(#[trigger] picked@[m] as int, lag as int, min_sep as int);
                assert(idxs[m] < t);
                assert forall|s: int| 0 <= s < t + 1 && !idxs.contains(s) implies exists|m2: int|
                    0 <= m2 < idxs.len() && #[trigger] idxs[m2] < s && !separated(
                        picked@[m2] as int,
                        sorted@[s] as int,
                        min_sep as int,
                    ) by {
                    if s == t {
                        assert(idxs[m] < s);
                    }
                }
            }
        }
        t = t + 1;
    }
    (picked, Ghost(idxs))
}

/// `lag` modulo `n` (the non-negative remainder), for circular lag lookup.
pub fn wrap_lag(lag: i64, n: usize) -> (r: usize)
    requires
        0 < n <= i64::MAX,
    ensures
        r == lag as int % n as int,
        r < n,
{
    let nn = n as u64;
    if lag >= 0 {
        ((lag as u64) % nn) as usize
    } else {
        let x = (-(lag + 1)) as u64;
        let m = x % nn;
        proof {
            let q = x as int / nn as int;
            assert(x as int == q * nn + m) by (nonlinear_arith)
                requires
                    nn > 0,
                    q == x as int / nn as int,
                    m == x as int % nn as int,
            ;
            assert(lag as int == nn * (-(q + 1)) + (nn - 1 - m)) by (nonlinear_arith)
                requires
                    x as int == q * nn + m,
                    lag as int == -(x as int) - 1,
            ;
            vstd::arithmetic::div_mod::lemma_mod_multiples_vanish(
                -(q + 1),
                (nn - 1 - m) as int,
                nn as int,
            );
            vstd::arithmetic::div_mod::lemma_small_mod((nn - 1 - m) as nat, nn as nat);
        }
        (nn - 1 - m) as usize
    }
}

} // verus!
