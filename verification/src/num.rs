//! Division of signed integers.

use vstd::prelude::*;

verus! {

/// Division that rounds down.
pub fn floor_div(n: i128, d: i128) -> (q: i128)
    requires
        0 < d <= 0x3fff_ffff_ffff_ffff_ffff_ffff_ffff_ffff,
        -0x4000_0000_0000_0000_0000_0000_0000_0000 <= n,
    ensures
        q == n as int / d as int,
{
    if n >= 0 {
        n / d
    } else {
        let m: i128 = -n;
        let up: i128 = (m + (d - 1)) / d;
        proof {
            vstd::arithmetic::div_mod::lemma_fundamental_div_mod(m + (d - 1), d as int);
            let r = (m + (d - 1)) % (d as int);
            vstd::arithmetic::div_mod::lemma_mod_bound(m + (d - 1), d as int);
            assert(n as int == (-(up as int)) * d + (d - 1 - r)) by (nonlinear_arith)
                requires
                    m + (d - 1) == d * up + r,
                    n == -m,
            ;
            vstd::arithmetic::div_mod::lemma_fundamental_div_mod_converse(
                n as int,
                d as int,
                -(up as int),
                d - 1 - r,
            );
        }
        -up
    }
}

/// `n / d` rounded towards zero.
pub open spec fn truncated(n: int, d: int) -> int {
    if n >= 0 {
        n / d
    } else {
        -((-n) / d)
    }
}

/// Division that rounds towards zero.
pub fn trunc_div(n: i128, d: i128) -> (q: i128)
    requires
        d > 0,
        n > i128::MIN,
    ensures
        q == truncated(n as int, d as int),
{
    if n >= 0 {
        n / d
    } else {
        -((-n) / d)
    }
}

} // verus!
