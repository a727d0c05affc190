//! Exact integer primitives the geometry rests on: flooring division by a
//! positive divisor and the integer square root.

use vstd::prelude::*;
use vstd::arithmetic::div_mod::{
    lemma_fundamental_div_mod, lemma_fundamental_div_mod_converse, lemma_mod_pos_bound,
};

verus! {

/// Magnitude bound under which `div_floor` accepts its numerator.
pub const DIV_NUM_BOUND: i128 = 0x1000_0000_0000_0000_0000_0000_0000;

/// Magnitude bound under which `div_floor` accepts its divisor.
pub const DIV_DEN_BOUND: i128 = 0x1000_0000_0000_0000;

/// Quotient of `n` by positive `d`, rounded toward negative infinity; this is
/// exactly the mathematical division on `int` for a positive divisor.
pub fn div_floor(n: i128, d: i128) -> (q: i128)
    requires
        1 <= d <= DIV_DEN_BOUND,
        -DIV_NUM_BOUND <= n <= DIV_NUM_BOUND,
    ensures
        q == n as int / d as int,
{
    if n >= 0 {
        let q = (n as u128) / (d as u128);
        q as i128
    } else {
        let t = (-n) as u128 + (d as u128) - 1;
        let q0 = t / (d as u128);
        proof {
            let ti = t as int;
            let di = d as int;
            let q0i = q0 as int;
            lemma_fundamental_div_mod(ti, di);
            lemma_mod_pos_bound(ti, di);
            let r0 = ti % di;
            // t == d*q0 + r0, so n == -(t - d + 1) == (-q0)*d + (d - 1 - r0)
            assert(n as int == (-q0i) * di + (di - 1 - r0)) by (nonlinear_arith)
                requires
                    ti == di * q0i + r0,
                    ti == -(n as int) + di - 1,
            ;
            lemma_fundamental_div_mod_converse(n as int, di, -q0i, di - 1 - r0);
        }
        -(q0 as i128)
    }
}

/// Whether `r` is the integer square root of `n`.
pub open spec fn is_sqrt(n: int, r: int) -> bool {
    0 <= r && r * r <= n && n < (r + 1) * (r + 1)
}

/// The integer square root of a nonnegative `n` as a spec value.
pub open spec fn sqrt_floor(n: int) -> int {
    choose|r: int| is_sqrt(n, r)
}

/// Two integer square roots of the same number are equal.
pub proof fn lemma_sqrt_unique(n: int, r1: int, r2: int)
    requires
        is_sqrt(n, r1),
        is_sqrt(n, r2),
    ensures
        r1 == r2,
{
    assert(r1 == r2) by (nonlinear_arith)
        requires
            0 <= r1 && r1 * r1 <= n && n < (r1 + 1) * (r1 + 1),
            0 <= r2 && r2 * r2 <= n && n < (r2 + 1) * (r2 + 1),
    ;
}

/// Integer square root by binary search: the greatest `r` with `r * r <= n`.
pub fn isqrt(n: u64) -> (r: u64)
    requires
        n < 0x4000_0000_0000_0000,
    ensures
        is_sqrt(n as int, r as int),
        r as int == sqrt_floor(n as int),
{
    let mut lo: u64 = 0;
    let mut hi: u64 = 0x8000_0000;
    proof {
        assert((0x8000_0000u64 as int) * (0x8000_0000u64 as int) > n as int) by (nonlinear_arith)
            requires
                n < 0x4000_0000_0000_0000u64,
        ;
    }
    while lo + 1 < hi
        invariant
            0 <= lo < hi <= 0x8000_0000,
            (lo as int) * (lo as int) <= n as int,
            (n as int) < (hi as int) * (hi as int),
            n < 0x4000_0000_0000_0000,
        decreases hi - lo,
    {
        let mid = lo + (hi - lo) / 2;
        proof {
            assert(mid as int * mid as int <= 0x4000_0000_0000_0000) by (nonlinear_arith)
                requires
                    0 <= mid <= 0x8000_0000u64,
            ;
        }
        if mid * mid <= n {
            lo = mid;
        } else {
            hi = mid;
        }
    }
    proof {
        assert(is_sqrt(n as int, lo as int));
        let w = sqrt_floor(n as int);
        assert(is_sqrt(n as int, w));
        lemma_sqrt_unique(n as int, lo as int, w);
    }
    lo
}


} // verus!
