//! The integer skeleton of the SRP response-field grid: the cubic lattice of
//! offsets around the search centre, enumerated x slowest and z fastest.
use vstd::prelude::*;

verus! {

/// Offset number `k` of the lattice `[-n, n]³`, x slowest and z fastest.
pub open spec fn grid_offset(n: int, k: int) -> (int, int, int) {
    let s = 2 * n + 1;
    (k / (s * s) - n, (k / s) % s - n, k % s - n)
}

/// The position of offset `(x, y, z)` in the enumeration of `[-n, n]³`.
pub open spec fn grid_position(n: int, x: int, y: int, z: int) -> int {
    ((x + n) * (2 * n + 1) + (y + n)) * (2 * n + 1) + (z + n)
}

/// The number of points of the lattice `[-n, n]³`.
pub open spec fn grid_len(n: int) -> int {
    (2 * n + 1) * (2 * n + 1) * (2 * n + 1)
}

/// Every offset of the lattice `[-n, n]³`, in the order x slowest, then y,
/// then z fastest.
pub fn grid_offsets(n: i64) -> (out: Vec<(i64, i64, i64)>)
    requires
        0 <= n,
        grid_len(n as int) <= usize::MAX,
    ensures
        out@.len() == grid_len(n as int),
        forall|k: int|
            0 <= k < out@.len() ==> ((#[trigger] out@[k]).0 as int, out@[k].1 as int, out@[k].2 as int)
                == grid_offset(n as int, k),
{
    let ghost si = 2 * n + 1;
    proof {
        assert(si <= 0x40_0000) by (nonlinear_arith)
            requires
                si >= 1,
                si * si * si <= usize::MAX,
                usize::MAX <= 0xFFFF_FFFF_FFFF_FFFF,
        ;
        assert(si * si <= si * si * si) by (nonlinear_arith)
            requires
                si >= 1,
        ;
    }
    let s = (2 * n + 1) as usize;
    let plane = s * s;
    let total = plane * s;
    let mut out: Vec<(i64, i64, i64)> = Vec::with_capacity(total);
    let mut k: usize = 0;
    while k < total
        invariant
            s == si,
            1 <= s <= 0x40_0000,
            si == 2 * n + 1,
            plane == s * s,
            total == plane * s,
            total == grid_len(n as int),
            k <= total,
            out@.len() == k,
            forall|q: int|
                0 <= q < out@.len() ==> ((#[trigger] out@[q]).0 as int, out@[q].1 as int, out@[q].2 as int)
                    == grid_offset(n as int, q),
        decreases total - k,
    {
        proof {
            assert(k / plane < s) by (nonlinear_arith)
                requires
                    k < plane * s,
                    plane >= 1,
            ;
        }
        let x = (k / plane) as i64 - n;
        let y = ((k / s) % s) as i64 - n;
        let z = (k % s) as i64 - n;
        out.push((x, y, z));
        k = k + 1;
    }
    out
}

/// The enumeration visits each point of the lattice exactly once: every
/// offset lies in `[-n, n]³`, distinct positions give distinct offsets, and
/// every point of the lattice is the offset at some position.
pub proof fn lemma_grid_offsets_enumerate_lattice(n: int)
    requires
        0 <= n,
    ensures
        forall|k: int|
            0 <= k < grid_len(n) ==> {
                let o = #[trigger] grid_offset(n, k);
                &&& -n <= o.0 <= n
                &&& -n <= o.1 <= n
                &&& -n <= o.2 <= n
            },
        forall|k1: int, k2: int|
            0 <= k1 < grid_len(n) && 0 <= k2 < grid_len(n) && #[trigger] grid_offset(n, k1)
                == #[trigger] grid_offset(n, k2) ==> k1 == k2,
        forall|x: int, y: int, z: int|
            -n <= x <= n && -n <= y <= n && -n <= z <= n ==> {
                &&& 0 <= #[trigger] grid_position(n, x, y, z) < grid_len(n)
                &&& grid_offset(n, grid_position(n, x, y, z)) == (x, y, z)
            },
{
    let s = 2 * n + 1;
    assert forall|k: int| 0 <= k < grid_len(n) implies {
        let o = #[trigger] grid_offset(n, k);
        &&& -n <= o.0 <= n
        &&& -n <= o.1 <= n
        &&& -n <= o.2 <= n
    } by {
        assert(0 <= k / (s * s) < s) by (nonlinear_arith)
            requires
                0 <= k < s * s * s,
                s >= 1,
        ;
        assert(0 <= (k / s) % s < s) by (nonlinear_arith)
            requires
                0 <= k,
                s >= 1,
        ;
        assert(0 <= k % s < s) by (nonlinear_arith)
            requires
                0 <= k,
                s >= 1,
        ;
    }
    assert forall|k1: int, k2: int|
        0 <= k1 < grid_len(n) && 0 <= k2 < grid_len(n) && #[trigger] grid_offset(n, k1)
            == #[trigger] grid_offset(n, k2) implies k1 == k2 by {
        lemma_reconstruct(k1, s);
        lemma_reconstruct(k2, s);
    }
    assert forall|x: int, y: int, z: int| -n <= x <= n && -n <= y <= n && -n <= z <= n implies {
        &&& 0 <= #[trigger] grid_position(n, x, y, z) < grid_len(n)
        &&& grid_offset(n, grid_position(n, x, y, z)) == (x, y, z)
    } by {
        let a = x + n;
        let b = y + n;
        let c = z + n;
        let k = (a * s + b) * s + c;
        assert(0 <= k < s * s * s) by (nonlinear_arith)
            requires
                0 <= a < s,
                0 <= b < s,
                0 <= c < s,
                k == (a * s + b) * s + c,
        ;
        vstd::arithmetic::div_mod::lemma_fundamental_div_mod_converse_mod(k, s, a * s + b, c);
        vstd::arithmetic::div_mod::lemma_fundamental_div_mod_converse_div(k, s, a * s + b, c);
        vstd::arithmetic::div_mod::lemma_fundamental_div_mod_converse_mod(a * s + b, s, a, b);
        assert(k == a * (s * s) + (b * s + c)) by (nonlinear_arith)
            requires
                k == (a * s + b) * s + c,
        ;
        assert(b * s + c < s * s) by (nonlinear_arith)
            requires
                0 <= b < s,
                0 <= c < s,
        ;
        vstd::arithmetic::div_mod::lemma_fundamental_div_mod_converse_div(k, s * s, a, b * s + c);
    }
}

/// A position is recovered from its three digits in base `s`.
proof fn lemma_reconstruct(k: int, s: int)
    requires
        0 <= k,
        s >= 1,
    ensures
        k == (k / (s * s)) * (s * s) + ((k / s) % s) * s + k % s,
{
    vstd::arithmetic::div_mod::lemma_fundamental_div_mod(k, s);
    vstd::arithmetic::div_mod::lemma_fundamental_div_mod(k / s, s);
    vstd::arithmetic::div_mod::lemma_div_denominator(k, s, s);
    let q = k / s;
    assert(k == s * (s * (q / s) + q % s) + k % s);
    assert(s * (s * (q / s) + q % s) == (q / s) * (s * s) + (q % s) * s) by (nonlinear_arith);
}

} // verus!
