//! The decisions of one solve that are not arithmetic on reals: which
//! inputs are refused, and the enumeration of TDOA hypotheses (one peak per
//! reference pair) as a capped Cartesian product.
use crate::binary64::{
    gt, is_finite, lemma_neg_infinity_least, lemma_scan_best, order_key, scan_best, spec_gt,
    spec_is_finite, spec_is_nan, spec_order_key, NEG_INFINITY_BITS, SIGN_BIT,
};
use vstd::prelude::*;

verus! {

/// Cap on enumerated TDOA combinations (resolution-vs-cost guard).
pub const MAX_COMBOS: usize = 4096;

/// Why a solve is refused.
#[derive(Debug)]
pub enum SolveError {
    /// Need at least two emplacements to form a pair.
    TooFewEmplacements,
    /// Frame count and geometry emplacement count disagree.
    ShapeMismatch,
    /// Non-finite or non-positive sample rate.
    BadSampleRate,
}

/// The bit pattern encodes a finite number greater than zero.
pub open spec fn spec_is_positive_finite(b: u64) -> bool {
    spec_is_finite(b) && b < SIGN_BIT && b != 0
}

/// The verdict on a solve's inputs: at least two emplacements on both
/// sides, the same count on both sides, and a finite positive sample rate,
/// checked in that order.
pub open spec fn input_verdict(n_emp: nat, n_geometry: nat, sample_rate_hz: u64) -> Result<
    (),
    SolveError,
> {
    if n_emp < 2 || n_geometry < 2 {
        Err(SolveError::TooFewEmplacements)
    } else if n_emp != n_geometry {
        Err(SolveError::ShapeMismatch)
    } else if !spec_is_positive_finite(sample_rate_hz) {
        Err(SolveError::BadSampleRate)
    } else {
        Ok(())
    }
}

/// What the verdict means for the numbers: fewer than two emplacements on
/// either side is refused first, then unequal counts; with matching counts
/// of at least two, a sample rate is accepted exactly when it is a finite
/// number greater than zero, i.e. its bit pattern lies strictly between
/// that of `+0.0` and that of `+∞` (`0x7FF0_0000_0000_0000`).
pub proof fn lemma_input_verdict_meaning(n_emp: nat, n_geometry: nat, sample_rate_hz: u64)
    ensures
        (n_emp < 2 || n_geometry < 2) ==> input_verdict(n_emp, n_geometry, sample_rate_hz)
            == Err::<(), SolveError>(SolveError::TooFewEmplacements),
        (n_emp >= 2 && n_geometry >= 2 && n_emp != n_geometry) ==> input_verdict(
            n_emp,
            n_geometry,
            sample_rate_hz,
        ) == Err::<(), SolveError>(SolveError::ShapeMismatch),
        (n_emp >= 2 && n_emp == n_geometry) ==> (input_verdict(n_emp, n_geometry, sample_rate_hz)
            == if 0 < sample_rate_hz < 0x7FF0_0000_0000_0000u64 {
            Ok::<(), SolveError>(())
        } else {
            Err::<(), SolveError>(SolveError::BadSampleRate)
        }),
{
}

/// Refuse a solve whose frame count, geometry count or sample rate (given
/// as its bit pattern) cannot be used.
pub fn check_solve_inputs(n_emp: usize, n_geometry: usize, sample_rate_hz: u64) -> (r: Result<
    (),
    SolveError,
>)
    ensures
        r == input_verdict(n_emp as nat, n_geometry as nat, sample_rate_hz),
{
    if n_emp < 2 || n_geometry < 2 {
        return Err(SolveError::TooFewEmplacements);
    }
    if n_emp != n_geometry {
        return Err(SolveError::ShapeMismatch);
    }
    if !is_finite(sample_rate_hz) || sample_rate_hz >= SIGN_BIT || sample_rate_hz == 0 {
        return Err(SolveError::BadSampleRate);
    }
    Ok(())
}

/// Entry `a` of `scores` ranks before entry `b`: greater in the total
/// order of `total_cmp`, or equal with `a` the earlier entry.
pub open spec fn score_ranks_before(scores: Seq<u64>, a: int, b: int) -> bool {
    let ka = spec_order_key(scores[a]);
    let kb = spec_order_key(scores[b]);
    ka > kb || (ka == kb && a < b)
}

/// The positions of `scores` from the highest score to the lowest in the
/// total order of `total_cmp`, equal scores keeping their order (the order
/// of a stable descending sort).
pub fn rank_by_score(scores: &[u64]) -> (order: Vec<usize>)
    ensures
        order@.len() == scores@.len(),
        forall|a: int| 0 <= a < order@.len() ==> #[trigger] order@[a] < scores@.len(),
        forall|x: usize| x < scores@.len() ==> order@.contains(x),
        forall|a: int, b: int|
            0 <= a < b < order@.len() ==> score_ranks_before(
                scores@,
                #[trigger] order@[a] as int,
                #[trigger] order@[b] as int,
            ),
{
    let n = scores.len();
    let mut order: Vec<usize> = Vec::with_capacity(n);
    let mut t: usize = 0;
    while t < n
        invariant
            n == scores@.len(),
            t <= n,
            order@.len() == t,
            forall|a: int| 0 <= a < order@.len() ==> #[trigger] order@[a] < t,
            forall|x: usize| x < t ==> order@.contains(x),
            forall|a: int, b: int|
                0 <= a < b < order@.len() ==> score_ranks_before(
                    scores@,
                    #[trigger] order@[a] as int,
                    #[trigger] order@[b] as int,
                ),
        decreases n - t,
    {
        let kt = order_key(scores[t]);
        let mut pos: usize = 0;
        while pos < order.len() && order_key(scores[order[pos]]) >= kt
            invariant
                n == scores@.len(),
                t < n,
                kt == spec_order_key(scores@[t as int]),
                pos <= order@.len(),
                forall|a: int| 0 <= a < order@.len() ==> #[trigger] order@[a] < t,
                forall|a: int|
                    0 <= a < pos ==> score_ranks_before(scores@, #[trigger] order@[a] as int, t as int),
            decreases order@.len() - pos,
        {
            pos = pos + 1;
        }
        let ghost old_order = order@;
        order.insert(pos, t);
        proof {
            old_order.insert_ensures(pos as int, t);
            if pos < old_order.len() {
                assert(score_ranks_before(scores@, t as int, old_order[pos as int] as int));
            }
            assert forall|a: int, b: int|
                0 <= a < b < order@.len() implies score_ranks_before(
                scores@,
                #[trigger] order@[a] as int,
                #[trigger] order@[b] as int,
            ) by {
                if b < pos {
                } else if b == pos {
                } else if a < pos {
                    assert(order@[b] == old_order[b - 1]);
                    if b - 1 > pos {
                        assert(score_ranks_before(scores@, old_order[pos as int] as int, old_order[b - 1] as int));
                    }
                } else if a == pos {
                    assert(order@[b] == old_order[b - 1]);
                    if b - 1 > pos {
                        assert(score_ranks_before(scores@, old_order[pos as int] as int, old_order[b - 1] as int));
                    }
                } else {
                    assert(order@[a] == old_order[a - 1]);
                    assert(order@[b] == old_order[b - 1]);
                }
            }
            assert forall|x: usize| x < t + 1 implies order@.contains(x) by {
                if x == t {
                    assert(order@[pos as int] == t);
                } else {
                    assert(old_order.contains(x));
                    let r = choose|r: int| 0 <= r < old_order.len() && old_order[r] == x;
                    if r < pos {
                        assert(order@[r] == x);
                    } else {
                        assert(order@[r + 1] == x);
                    }
                }
            }
        }
        t = t + 1;
    }
    order
}

/// Index of the strongest non-DC bin of a magnitude spectrum (bit
/// patterns): bins `1..` are scanned in order, keeping a magnitude only when
/// it is strictly greater than the best so far (starting from negative
/// infinity); bin 1 when none is.
pub fn strongest_bin(mags: &[u64]) -> (bin: usize)
    ensures
        mags@.len() == 0 ==> bin == 1,
        mags@.len() > 0 ==> ({
            let k = scan_best(mags@.skip(1)).1;
            bin == if k < 0 {
                1
            } else {
                k + 1
            }
        }),
        forall|b: int|
            1 <= b < mags@.len() && bin < mags@.len() ==> !spec_gt(#[trigger] mags@[b], mags@[bin as int]),
{
    let mut best_bin: usize = 1;
    let mut best_mag: u64 = NEG_INFINITY_BITS;
    let mut b: usize = 1;
    let n = mags.len();
    while b < n
        invariant
            n == mags@.len(),
            1 <= b,
            b <= n || n == 0,
            n == 0 ==> best_bin == 1,
            n > 0 ==> best_mag == scan_best(mags@.subrange(1, b as int)).0,
            n > 0 ==> best_bin == (if scan_best(mags@.subrange(1, b as int)).1 < 0 {
                1
            } else {
                scan_best(mags@.subrange(1, b as int)).1 + 1
            }),
        decreases n - b,
    {
        let v = mags[b];
        assert(mags@.subrange(1, b + 1).drop_last() =~= mags@.subrange(1, b as int));
        if gt(v, best_mag) {
            best_mag = v;
            best_bin = b;
        }
        b = b + 1;
    }
    proof {
        if n > 0 {
            assert(mags@.subrange(1, n as int) =~= mags@.skip(1));
            let vals = mags@.skip(1);
            lemma_scan_best(vals);
            let k = scan_best(vals).1;
            assert forall|c: int| 1 <= c < mags@.len() && best_bin < mags@.len() implies !spec_gt(
                #[trigger] mags@[c],
                mags@[best_bin as int],
            ) by {
                assert(vals[c - 1] == mags@[c]);
                if k >= 0 {
                    assert(vals[k] == mags@[best_bin as int]);
                } else {
                    let z = mags@[1];
                    assert(vals[0] == z);
                    if !spec_is_nan(z) && z != NEG_INFINITY_BITS {
                        lemma_neg_infinity_least(z);
                    }
                }
            }
        }
    }
    best_bin
}

/// The radix of list `p`: its length, or 1 when it is empty.
pub open spec fn radix<T>(lists: Seq<Vec<T>>, p: int) -> nat {
    if lists[p]@.len() == 0 {
        1
    } else {
        lists[p]@.len()
    }
}

/// The product of the radices of the first `m` lists.
pub open spec fn radix_product<T>(lists: Seq<Vec<T>>, m: int) -> nat
    decreases m,
{
    if m <= 0 {
        1
    } else {
        radix_product(lists, m - 1) * radix(lists, m - 1)
    }
}

/// Digit `p` of `idx` in the mixed radix of the lists (list 0 least
/// significant).
pub open spec fn digit<T>(lists: Seq<Vec<T>>, idx: int, p: int) -> int {
    (idx / radix_product(lists, p) as int) % radix(lists, p) as int
}

/// How many combinations are enumerated: the size of the Cartesian product,
/// capped at `cap`.
pub open spec fn combination_count<T>(lists: Seq<Vec<T>>, cap: nat) -> nat {
    let total = radix_product(lists, lists.len() as int);
    if total < cap {
        total
    } else {
        cap
    }
}

proof fn lemma_radix_product_positive<T>(lists: Seq<Vec<T>>, m: int)
    ensures
        radix_product(lists, m) >= 1,
    decreases m,
{
    if m > 0 {
        lemma_radix_product_positive(lists, m - 1);
        let a = radix_product(lists, m - 1) as int;
        let b = radix(lists, m - 1) as int;
        assert(a * b >= 1) by (nonlinear_arith)
            requires
                a >= 1,
                b >= 1,
        ;
    }
}

/// Cartesian product of the lists by mixed-radix enumeration, capped at
/// `cap` combinations: combination `idx` takes from each list `p` the
/// element at digit `p` of `idx`.
pub fn combinations<T: Copy>(lists: &[Vec<T>], cap: usize) -> (out: Vec<Vec<T>>)
    requires
        cap == 0 || forall|p: int| 0 <= p < lists@.len() ==> (#[trigger] lists@[p])@.len() > 0,
    ensures
        out@.len() == combination_count(lists@, cap as nat),
        forall|idx: int|
            0 <= idx < out@.len() ==> (#[trigger] out@[idx])@.len() == lists@.len(),
        forall|idx: int, p: int|
            0 <= idx < out@.len() && 0 <= p < lists@.len() ==> #[trigger] out@[idx]@[p]
                == lists@[p]@[digit(lists@, idx, p)],
        out@.len() < cap ==> forall|p: int, x: int|
            0 <= p < lists@.len() && 0 <= x < lists@[p]@.len() ==> #[trigger] taken_by_some(
                lists@,
                out@,
                p,
                x,
            ),
{
    let n = lists.len();
    let mut total: usize = 1;
    let mut p: usize = 0;
    while p < n
        invariant
            n == lists@.len(),
            p <= n,
            total as nat == if radix_product(lists@, p as int) < usize::MAX {
                radix_product(lists@, p as int)
            } else {
                usize::MAX as nat
            },
        decreases n - p,
    {
        let len = if lists[p].len() == 0 {
            1
        } else {
            lists[p].len()
        };
        proof {
            lemma_radix_product_positive(lists@, p as int);
            let rp = radix_product(lists@, p as int) as int;
            assert(radix_product(lists@, p + 1) == rp * len);
            if rp >= usize::MAX {
                assert(rp * len >= rp) by (nonlinear_arith)
                    requires
                        len >= 1,
                        rp >= 1,
                ;
                assert(total * len >= usize::MAX) by (nonlinear_arith)
                    requires
                        total == usize::MAX,
                        len >= 1,
                ;
            }
        }
        total = match total.checked_mul(len) {
            Some(t) => t,
            None => usize::MAX,
        };
        p = p + 1;
    }
    let total = if total < cap {
        total
    } else {
        cap
    };
    let mut out: Vec<Vec<T>> = Vec::with_capacity(total);
    let mut idx: usize = 0;
    while idx < total
        invariant
            n == lists@.len(),
            total == combination_count(lists@, cap as nat),
            total == 0 || forall|q: int| 0 <= q < lists@.len() ==> (#[trigger] lists@[q])@.len() > 0,
            idx <= total,
            out@.len() == idx,
            forall|k: int| 0 <= k < out@.len() ==> (#[trigger] out@[k])@.len() == lists@.len(),
            forall|k: int, q: int|
                0 <= k < out@.len() && 0 <= q < lists@.len() ==> #[trigger] out@[k]@[q]
                    == lists@[q]@[digit(lists@, k, q)],
        decreases total - idx,
    {
        let mut rem = idx;
        assert(radix_product(lists@, 0) == 1);
        let mut combo: Vec<T> = Vec::with_capacity(n);
        let mut p: usize = 0;
        while p < n
            invariant
                n == lists@.len(),
                forall|q: int| 0 <= q < lists@.len() ==> (#[trigger] lists@[q])@.len() > 0,
                p <= n,
                rem == idx as int / radix_product(lists@, p as int) as int,
                combo@.len() == p,
                forall|q: int| 0 <= q < p ==> #[trigger] combo@[q] == lists@[q]@[digit(lists@, idx as int, q)],
            decreases n - p,
        {
            let len = lists[p].len();
            proof {
                lemma_radix_product_positive(lists@, p as int);
                vstd::arithmetic::div_mod::lemma_div_denominator(
                    idx as int,
                    radix_product(lists@, p as int) as int,
                    len as int,
                );
            }
            combo.push(lists[p][rem % len]);
            rem = rem / len;
            p = p + 1;
        }
        out.push(combo);
        idx = idx + 1;
    }
    proof {
        if out@.len() < cap {
            lemma_combinations_cover(lists@, out@);
        }
    }
    out
}


/// Element `x` of list `p` is taken by some combination of `out`.
pub open spec fn taken_by_some<T>(lists: Seq<Vec<T>>, out: Seq<Vec<T>>, p: int, x: int) -> bool {
    exists|e: int| 0 <= e < out.len() && #[trigger] out[e]@[p] == lists[p]@[x]
}

/// When the product is enumerated in full, every element of every list is
/// taken by some combination.
proof fn lemma_combinations_cover<T>(lists: Seq<Vec<T>>, out: Seq<Vec<T>>)
    requires
        out.len() == radix_product(lists, lists.len() as int),
        forall|idx: int, p: int|
            0 <= idx < out.len() && 0 <= p < lists.len() ==> #[trigger] out[idx]@[p]
                == lists[p]@[digit(lists, idx, p)],
    ensures
        forall|p: int, x: int|
            0 <= p < lists.len() && 0 <= x < lists[p]@.len() ==> #[trigger] taken_by_some(
                lists,
                out,
                p,
                x,
            ),
{
    lemma_combinations_enumerate_product(lists);
    assert forall|p: int, x: int| 0 <= p < lists.len() && 0 <= x < lists[p]@.len() implies #[trigger] taken_by_some(
        lists,
        out,
        p,
        x,
    ) by {
        let c = Seq::new(lists.len(), |q: int| if q == p { x } else { 0 });
        assert(is_choice(lists, c));
        let e = mixed_radix_value(lists, c, lists.len() as int);
        assert(digits(lists, e)[p] == c[p]);
        assert(out[e]@[p] == lists[p]@[x]);
    }
}

/// The digits of `idx`, one per list.
pub open spec fn digits<T>(lists: Seq<Vec<T>>, idx: int) -> Seq<int> {
    Seq::new(lists.len(), |p: int| digit(lists, idx, p))
}

/// `c` picks a position in each list (a position below its radix).
pub open spec fn is_choice<T>(lists: Seq<Vec<T>>, c: Seq<int>) -> bool {
    &&& c.len() == lists.len()
    &&& forall|p: int| 0 <= p < c.len() ==> 0 <= #[trigger] c[p] < radix(lists, p)
}

/// The number whose first `m` mixed-radix digits are those of `c`.
pub open spec fn mixed_radix_value<T>(lists: Seq<Vec<T>>, c: Seq<int>, m: int) -> int
    decreases m,
{
    if m <= 0 {
        0
    } else {
        mixed_radix_value(lists, c, m - 1) + c[m - 1] * radix_product(lists, m - 1)
    }
}

/// The low `m` digits of `idx` are its remainder modulo the product of the
/// first `m` radices.
proof fn lemma_low_digits<T>(lists: Seq<Vec<T>>, idx: int, m: int)
    requires
        0 <= idx,
        0 <= m <= lists.len(),
    ensures
        idx % (radix_product(lists, m) as int) == mixed_radix_value(lists, digits(lists, idx), m),
    decreases m,
{
    if m > 0 {
        lemma_low_digits(lists, idx, m - 1);
        lemma_radix_product_positive(lists, m - 1);
        let y = radix_product(lists, m - 1) as int;
        let z = radix(lists, m - 1) as int;
        vstd::arithmetic::div_mod::lemma_mod_breakdown(idx, y, z);
        assert(digits(lists, idx)[m - 1] == digit(lists, idx, m - 1));
        vstd::arithmetic::mul::lemma_mul_is_commutative(y, (idx / y) % z);
    } else {
        assert(radix_product(lists, 0) == 1);
    }
}

/// The product of the first `m` radices divides the product of the first
/// `n` radices when `m <= n`.
proof fn lemma_radix_product_divides<T>(lists: Seq<Vec<T>>, m: int, n: int) -> (q: int)
    requires
        0 <= m <= n,
    ensures
        q >= 1,
        radix_product(lists, n) == radix_product(lists, m) * q,
    decreases n - m,
{
    if n == m {
        1
    } else {
        let q0 = lemma_radix_product_divides(lists, m, n - 1);
        let r = radix(lists, n - 1) as int;
        let a = radix_product(lists, m) as int;
        assert(radix_product(lists, n) == (a * q0) * r);
        assert((a * q0) * r == a * (q0 * r)) by (nonlinear_arith);
        assert(q0 * r >= 1) by (nonlinear_arith)
            requires
                q0 >= 1,
                r >= 1,
        ;
        q0 * r
    }
}

/// The first `m` digits of a choice form a number below the product of the
/// first `m` radices, and the rest adds a multiple of that product.
proof fn lemma_choice_value<T>(lists: Seq<Vec<T>>, c: Seq<int>, m: int, n: int) -> (q: int)
    requires
        is_choice(lists, c),
        0 <= m <= n <= lists.len(),
    ensures
        0 <= mixed_radix_value(lists, c, m) < radix_product(lists, m),
        q >= 0,
        mixed_radix_value(lists, c, n) == mixed_radix_value(lists, c, m) + radix_product(
            lists,
            m,
        ) * q,
    decreases n,
{
    if n == m {
        if m > 0 {
            let _ = lemma_choice_value(lists, c, m - 1, m - 1);
            lemma_radix_product_positive(lists, m - 1);
            let v = mixed_radix_value(lists, c, m - 1);
            let rp = radix_product(lists, m - 1) as int;
            let r = radix(lists, m - 1) as int;
            let d = c[m - 1];
            assert(0 <= v + d * rp < rp * r) by (nonlinear_arith)
                requires
                    0 <= v < rp,
                    0 <= d < r,
            ;
        }
        0
    } else {
        let q0 = lemma_choice_value(lists, c, m, n - 1);
        let k = lemma_radix_product_divides(lists, m, n - 1);
        let a = radix_product(lists, m) as int;
        let d = c[n - 1];
        assert(d * (a * k) == a * (d * k)) by (nonlinear_arith);
        assert(a * q0 + a * (d * k) == a * (q0 + d * k)) by (nonlinear_arith);
        assert(d * k >= 0) by (nonlinear_arith)
            requires
                d >= 0,
                k >= 1,
        ;
        q0 + d * k
    }
}

/// The capped Cartesian product is exhaustive and without repetition:
/// below the product of the radices, every index yields a valid choice of
/// one position per list, distinct indices yield distinct choices, and every
/// choice is yielded by some index.
pub proof fn lemma_combinations_enumerate_product<T>(lists: Seq<Vec<T>>)
    ensures
        forall|idx: int|
            0 <= idx < radix_product(lists, lists.len() as int) ==> is_choice(
                lists,
                #[trigger] digits(lists, idx),
            ),
        forall|idx1: int, idx2: int|
            0 <= idx1 < radix_product(lists, lists.len() as int) && 0 <= idx2 < radix_product(
                lists,
                lists.len() as int,
            ) && #[trigger] digits(lists, idx1) == #[trigger] digits(lists, idx2) ==> idx1 == idx2,
        forall|c: Seq<int>|
            #[trigger] is_choice(lists, c) ==> {
                let idx = mixed_radix_value(lists, c, lists.len() as int);
                &&& 0 <= idx < radix_product(lists, lists.len() as int)
                &&& digits(lists, idx) == c
            },
{
    let n = lists.len() as int;
    assert forall|idx: int| 0 <= idx < radix_product(lists, n) implies is_choice(
        lists,
        #[trigger] digits(lists, idx),
    ) by {
        assert forall|p: int| 0 <= p < n implies 0 <= #[trigger] digits(lists, idx)[p] < radix(
            lists,
            p,
        ) by {
            lemma_radix_product_positive(lists, p);
        }
    }
    assert forall|idx1: int, idx2: int|
        0 <= idx1 < radix_product(lists, n) && 0 <= idx2 < radix_product(lists, n)
            && #[trigger] digits(lists, idx1) == #[trigger] digits(lists, idx2) implies idx1
        == idx2 by {
        lemma_low_digits(lists, idx1, n);
        lemma_low_digits(lists, idx2, n);
        vstd::arithmetic::div_mod::lemma_small_mod(idx1 as nat, radix_product(lists, n));
        vstd::arithmetic::div_mod::lemma_small_mod(idx2 as nat, radix_product(lists, n));
    }
    assert forall|c: Seq<int>| #[trigger] is_choice(lists, c) implies {
        let idx = mixed_radix_value(lists, c, n);
        &&& 0 <= idx < radix_product(lists, n)
        &&& digits(lists, idx) == c
    } by {
        let x = mixed_radix_value(lists, c, n);
        let _ = lemma_choice_value(lists, c, n, n);
        assert forall|p: int| 0 <= p < n implies #[trigger] digits(lists, x)[p] == c[p] by {
            let q1 = lemma_choice_value(lists, c, p + 1, n);
            let q0 = lemma_choice_value(lists, c, p, n);
            lemma_radix_product_positive(lists, p);
            let y = radix_product(lists, p) as int;
            let z = radix(lists, p) as int;
            let v0 = mixed_radix_value(lists, c, p);
            let v1 = mixed_radix_value(lists, c, p + 1);
            // x mod (y·z) is v1 and x mod y is v0.
            vstd::arithmetic::div_mod::lemma_mod_multiples_vanish(q1, v1, y * z);
            vstd::arithmetic::div_mod::lemma_small_mod(v1 as nat, (y * z) as nat);
            vstd::arithmetic::div_mod::lemma_mod_multiples_vanish(q0, v0, y);
            vstd::arithmetic::div_mod::lemma_small_mod(v0 as nat, y as nat);
            vstd::arithmetic::div_mod::lemma_mod_breakdown(x, y, z);
            // v1 = v0 + c[p]·y = y·digit + v0.
            assert(y * ((x / y) % z) == c[p] * y);
            vstd::arithmetic::mul::lemma_mul_is_commutative(c[p], y);
            vstd::arithmetic::mul::lemma_mul_equality_converse(y, (x / y) % z, c[p]);
        }
        assert(digits(lists, x) =~= c);
    }
}

} // verus!
