//! Integer division as the ledger rounds it.

use vstd::prelude::*;

verus! {

/// Division rounded towards zero, by a positive number.
pub open spec fn div_to_zero(a: int, b: int) -> int {
    if a >= 0 {
        a / b
    } else {
        -((-a) / b)
    }
}

/// Divides by a positive number, rounding towards zero.
pub fn div_trunc(a: i128, b: i128) -> (r: i128)
    requires
        b > 0,
        a > i128::MIN,
    ensures
        r == div_to_zero(a as int, b as int),
{
    if a >= 0 {
        a / b
    } else {
        let m: i128 = -a;
        proof {
            assert(0 <= m as int / b as int <= m) by (nonlinear_arith)
                requires
                    m > 0,
                    b > 0,
            ;
        }
        -(m / b)
    }
}

/// What division drops is less than the divisor and on the side of zero: the quotient times the divisor
/// is the number itself up to that, never beyond it, and has its sign.
pub proof fn division_drops_less_than_the_divisor(a: int, b: int)
    requires
        b > 0,
    ensures
        a >= 0 ==> 0 <= b * div_to_zero(a, b) <= a < b * div_to_zero(a, b) + b,
        a <= 0 ==> b * div_to_zero(a, b) - b < a <= b * div_to_zero(a, b) <= 0,
        div_to_zero(-a, b) == -div_to_zero(a, b),
{
    let (p, q) = (a / b, (-a) / b);
    assert(a >= 0 ==> 0 <= b * p <= a < b * p + b) by (nonlinear_arith)
        requires
            b > 0,
            p == a / b,
    ;
    assert(a <= 0 ==> 0 <= b * q <= -a < b * q + b) by (nonlinear_arith)
        requires
            b > 0,
            q == (-a) / b,
    ;
    assert(b * (-q) == -(b * q)) by (nonlinear_arith);
    if a == 0 {
        assert(p == 0 && q == 0) by (nonlinear_arith)
            requires
                b > 0,
                a == 0,
                p == a / b,
                q == (-a) / b,
        ;
    }
}

} // verus!
