//! Floor division of the pool balance, and the arithmetic facts behind the
//! rounding policy: shares are computed by floor division and the remainder
//! is never distributed.

use vstd::arithmetic::div_mod::{
    lemma_div_nonincreasing, lemma_div_pos_is_pos, lemma_fundamental_div_mod,
    lemma_mod_division_less_than_divisor,
};
use vstd::arithmetic::mul::lemma_mul_inequality;
use vstd::prelude::*;

verus! {

/// The quotient of a signed balance by a positive divisor stays within the
/// range of the balance's type.
pub proof fn lemma_floor_div_in_range(x: int, d: int)
    requires
        1 <= d,
        i64::MIN <= x <= i64::MAX,
    ensures
        i64::MIN <= x / d <= i64::MAX,
{
    lemma_fundamental_div_mod(x, d);
    lemma_mod_division_less_than_divisor(x, d);
    if x >= 0 {
        lemma_div_pos_is_pos(x, d);
        lemma_div_nonincreasing(x, d);
    } else {
        let q = x / d;
        let r = x % d;
        assert(x <= q <= 0) by (nonlinear_arith)
            requires
                x == d * q + r,
                0 <= r < d,
                1 <= d,
                x < 0,
        ;
    }
}

/// Floor division of a (possibly negative) balance by a positive divisor.
///
/// In specifications `b as int / n as int` is exactly floor division, since
/// the divisor is positive; this is the executable counterpart.  A negative
/// balance yields a negative share: the pool's rounding policy is floor
/// division with the remainder retained, for balances of either sign.
pub fn floor_div(b: i64, n: i64) -> (q: i64)
    requires
        1 <= n,
    ensures
        q == b as int / n as int,
{
    proof {
        lemma_floor_div_in_range(b as int, n as int);
    }
    match b.checked_div_euclid(n) {
        Some(q) => q,
        None => {
            proof {
                assert(false);
            }
            0
        },
    }
}

/// Distributing `m` floor shares of a non-negative balance `b` among `m`
/// participants, with divisor `n >= m`, never pays out more than `b`; what
/// the full `n` shares would leave behind is exactly the remainder `b % n`.
pub proof fn lemma_shares_within_balance(b: int, n: int, m: int)
    requires
        0 <= b,
        1 <= m <= n,
    ensures
        0 <= m * (b / n) <= b,
        b - n * (b / n) == b % n,
        0 <= b % n < n,
{
    lemma_fundamental_div_mod(b, n);
    lemma_mod_division_less_than_divisor(b, n);
    lemma_div_pos_is_pos(b, n);
    lemma_mul_inequality(m, n, b / n);
    assert(0 <= m * (b / n)) by (nonlinear_arith)
        requires
            0 <= m,
            0 <= b / n,
    ;
}

} // verus!
