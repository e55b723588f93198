//! Whole-number arithmetic for geometry: division that rounds.

use vstd::arithmetic::div_mod::{lemma_fundamental_div_mod, lemma_fundamental_div_mod_converse};
use vstd::prelude::*;

verus! {

/// Largest magnitude of a number that this module divides.
pub const MAX_DIVIDEND: i128 = 0x1000_0000_0000_0000_0000_0000_0000_0000;

/// The whole number nearest to `n / d`, for a positive `d`. A quotient half
/// way between two whole numbers goes to the upper one.
pub open spec fn rounded_quotient(n: int, d: int) -> int {
    (2 * n + d) / (2 * d)
}

/// The rounded quotient is within half a divisor of the true quotient.
pub proof fn lemma_rounded_quotient_is_nearest(n: int, d: int)
    requires
        d > 0,
    ensures
        -d <= 2 * (n - rounded_quotient(n, d) * d) < d,
{
    let q = rounded_quotient(n, d);
    lemma_fundamental_div_mod(2 * n + d, 2 * d);
    let r = (2 * n + d) % (2 * d);
    assert(0 <= r < 2 * d);
    assert(2 * n + d == (2 * d) * q + r);
    assert((2 * d) * q == 2 * (q * d)) by (nonlinear_arith);
}

/// The largest whole number not above `n / d`.
pub fn floor_div(n: i128, d: i128) -> (q: i128)
    requires
        d > 0,
        -MAX_DIVIDEND <= n <= MAX_DIVIDEND,
        d <= MAX_DIVIDEND,
    ensures
        q == n / d,
        -MAX_DIVIDEND <= q <= MAX_DIVIDEND,
{
    if n >= 0 {
        let q = n / d;
        proof {
            lemma_fundamental_div_mod(n as int, d as int);
            assert(0 <= q <= n) by (nonlinear_arith)
                requires
                    n == d * q + (n % d),
                    0 <= n % d < d,
                    d > 0,
                    n >= 0,
            ;
        }
        q
    } else {
        let m: i128 = -n;
        let up: i128 = (m + (d - 1)) / d;
        proof {
            let total = m + d - 1;
            lemma_fundamental_div_mod(total, d as int);
            let r = total % (d as int);
            assert(total == d * up + r);
            assert(n == (-up) * d + (d - 1 - r)) by (nonlinear_arith)
                requires
                    total == d * up + r,
                    total == m + d - 1,
                    n == -m,
            ;
            lemma_fundamental_div_mod_converse(n as int, d as int, -up, d - 1 - r);
            assert(0 <= up <= total) by (nonlinear_arith)
                requires
                    total == d * up + r,
                    0 <= r < d,
                    d > 0,
                    total >= 0,
            ;
            assert(up <= m) by (nonlinear_arith)
                requires
                    total == d * up + r,
                    total == m + d - 1,
                    0 <= r < d,
                    d > 0,
                    m > 0,
                    up >= 0,
            ;
        }
        -up
    }
}

/// The whole number nearest to `n / d`.
pub fn round_div(n: i128, d: i128) -> (q: i128)
    requires
        d > 0,
        -MAX_DIVIDEND / 4 <= n <= MAX_DIVIDEND / 4,
        d <= MAX_DIVIDEND / 4,
    ensures
        q == rounded_quotient(n as int, d as int),
{
    floor_div(2 * n + d, 2 * d)
}

} // verus!
