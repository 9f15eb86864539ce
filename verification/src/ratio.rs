//! Exact comparison of fractions of machine integers, without overflow:
//! partition scores and modularity values are rationals, and selecting the
//! best partition must compare them exactly.
use vstd::arithmetic::div_mod::lemma_fundamental_div_mod;
use vstd::prelude::*;

verus! {

/// `a/b < c/d`, stated over the cross products.
pub open spec fn frac_lt_spec(a: int, b: int, c: int, d: int) -> bool {
    a * d < c * b
}

/// Compares `a/b` with `c/d` for non-negative numerators by comparing the
/// integer parts and recursing on the reciprocals of the remainders, so no
/// intermediate product is ever formed.
fn frac_lt_nat(a: u128, b: u128, c: u128, d: u128) -> (r: bool)
    requires
        b > 0,
        d > 0,
    ensures
        r == frac_lt_spec(a as int, b as int, c as int, d as int),
    decreases b + d,
{
    let q1 = a / b;
    let r1 = a % b;
    let q2 = c / d;
    let r2 = c % d;
    proof {
        lemma_fundamental_div_mod(a as int, b as int);
        lemma_fundamental_div_mod(c as int, d as int);
    }
    if q1 < q2 {
        proof {
            assert((a as int) * (d as int) < (c as int) * (b as int)) by (nonlinear_arith)
                requires
                    a == b * q1 + r1,
                    c == d * q2 + r2,
                    0 <= r1 < b,
                    0 <= r2 < d,
                    0 <= q1,
                    q1 + 1 <= q2,
            ;
        }
        true
    } else if q2 < q1 {
        proof {
            assert(!((a as int) * (d as int) < (c as int) * (b as int))) by (nonlinear_arith)
                requires
                    a == b * q1 + r1,
                    c == d * q2 + r2,
                    0 <= r1 < b,
                    0 <= r2 < d,
                    0 <= q2,
                    q2 + 1 <= q1,
            ;
        }
        false
    } else if r2 == 0 {
        proof {
            assert(!((a as int) * (d as int) < (c as int) * (b as int))) by (nonlinear_arith)
                requires
                    a == b * q1 + r1,
                    c == d * q2 + r2,
                    q1 == q2,
                    r2 == 0,
                    0 <= r1,
                    0 < b,
                    0 < d,
            ;
        }
        false
    } else if r1 == 0 {
        proof {
            assert((a as int) * (d as int) < (c as int) * (b as int)) by (nonlinear_arith)
                requires
                    a == b * q1 + r1,
                    c == d * q2 + r2,
                    q1 == q2,
                    r1 == 0,
                    0 < r2,
                    0 < b,
                    0 < d,
            ;
        }
        true
    } else {
        let r = frac_lt_nat(d, r2, b, r1);
        proof {
            assert(((a as int) * (d as int) < (c as int) * (b as int)) == ((d as int) * (r1 as int)
                < (b as int) * (r2 as int))) by (nonlinear_arith)
                requires
                    a == b * q1 + r1,
                    c == d * q2 + r2,
                    q1 == q2,
                    0 < r1 < b,
                    0 < r2 < d,
                    0 < b,
                    0 < d,
            ;
        }
        r
    }
}

/// Exact `a/b < c/d` over signed numerators with positive denominators.
pub fn frac_lt(a: i128, b: i128, c: i128, d: i128) -> (r: bool)
    requires
        b > 0,
        d > 0,
        a > i128::MIN,
        c > i128::MIN,
    ensures
        r == frac_lt_spec(a as int, b as int, c as int, d as int),
{
    if a >= 0 && c >= 0 {
        frac_lt_nat(a as u128, b as u128, c as u128, d as u128)
    } else if a < 0 && c >= 0 {
        proof {
            assert((a as int) * (d as int) < 0 <= (c as int) * (b as int)) by (nonlinear_arith)
                requires
                    a < 0,
                    c >= 0,
                    b > 0,
                    d > 0,
            ;
        }
        true
    } else if a >= 0 && c < 0 {
        proof {
            assert((c as int) * (b as int) < 0 <= (a as int) * (d as int)) by (nonlinear_arith)
                requires
                    c < 0,
                    a >= 0,
                    b > 0,
                    d > 0,
            ;
        }
        false
    } else {
        let r = frac_lt_nat((-c) as u128, d as u128, (-a) as u128, b as u128);
        proof {
            assert(((a as int) * (d as int) < (c as int) * (b as int)) == (((-c) as int) * (
            b as int) < ((-a) as int) * (d as int))) by (nonlinear_arith)
                requires
                    a < 0,
                    c < 0,
                    b > 0,
                    d > 0,
            ;
        }
        r
    }
}

} // verus!
