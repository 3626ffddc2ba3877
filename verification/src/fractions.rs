//! Exact comparison of fractions whose cross products may not fit.
use vstd::prelude::*;

verus! {

/// Whether `a / b` is less than `c / d`.
pub open spec fn fraction_lt(a: int, b: int, c: int, d: int) -> bool {
    a * d < c * b
}

proof fn lemma_fraction_step(a: int, b: int, c: int, d: int, q: int, r: int, s: int, t: int)
    requires
        b > 0,
        d > 0,
        a == q * b + r,
        c == s * d + t,
        0 <= r < b,
        0 <= t < d,
    ensures
        q < s ==> a * d < c * b,
        q > s ==> a * d > c * b,
        q == s ==> (a * d < c * b <==> r * d < t * b),
{
    assert(a * d - c * b == (q - s) * (b * d) + (r * d - t * b)) by (nonlinear_arith)
        requires
            a == q * b + r,
            c == s * d + t,
    ;
    assert(0 <= r * d && r * d < b * d) by (nonlinear_arith)
        requires
            0 <= r < b,
            d > 0,
    ;
    assert(0 <= t * b && t * b < b * d) by (nonlinear_arith)
        requires
            0 <= t < d,
            b > 0,
    ;
    if q < s {
        assert((q - s) * (b * d) <= -(b * d)) by (nonlinear_arith)
            requires
                q - s <= -1,
                b * d > 0,
        ;
    }
    if q > s {
        assert((q - s) * (b * d) >= b * d) by (nonlinear_arith)
            requires
                q - s >= 1,
                b * d > 0,
        ;
    }
    if q == s {
        assert((q - s) * (b * d) == 0) by (nonlinear_arith)
            requires
                q - s == 0,
        ;
    }
}

/// Whether `a / b` is less than `c / d`. Compares the whole parts, and then the
/// reciprocals of what is left of both.
pub fn fraction_less(a: u128, b: u128, c: u128, d: u128) -> (r: bool)
    requires
        b > 0,
        d > 0,
    ensures
        r <==> fraction_lt(a as int, b as int, c as int, d as int),
    decreases b + d,
{
    let q: u128 = a / b;
    let x: u128 = a % b;
    let s: u128 = c / d;
    let t: u128 = c % d;
    proof {
        assert(a == q * b + x) by {
            vstd::arithmetic::div_mod::lemma_fundamental_div_mod(a as int, b as int);
            assert(b * q == q * b) by (nonlinear_arith);
        }
        assert(c == s * d + t) by {
            vstd::arithmetic::div_mod::lemma_fundamental_div_mod(c as int, d as int);
            assert(d * s == s * d) by (nonlinear_arith);
        }
        lemma_fraction_step(
            a as int,
            b as int,
            c as int,
            d as int,
            q as int,
            x as int,
            s as int,
            t as int,
        );
    }
    if q < s {
        return true;
    }
    if q > s {
        return false;
    }
    if t == 0 {
        assert(!(x * d < t * b)) by (nonlinear_arith)
            requires
                t == 0,
                x >= 0,
                d > 0,
        ;
        return false;
    }
    if x == 0 {
        assert(x * d < t * b) by (nonlinear_arith)
            requires
                x == 0,
                t > 0,
                b > 0,
        ;
        return true;
    }
    assert(x * d < t * b <==> d * x < b * t) by (nonlinear_arith);
    fraction_less(d, t, b, x)
}

/// The order of fractions is transitive.
pub proof fn lemma_fraction_transitive(a: int, b: int, c: int, d: int, e: int, f: int)
    requires
        b > 0,
        d > 0,
        f > 0,
        !fraction_lt(c, d, a, b),
        !fraction_lt(e, f, c, d),
    ensures
        !fraction_lt(e, f, a, b),
        !fraction_lt(a, b, c, d) && !fraction_lt(c, d, e, f) ==> !fraction_lt(a, b, e, f),
{
    // a / b <= c / d and c / d <= e / f.
    assert(a * f * d <= c * b * f) by (nonlinear_arith)
        requires
            a * d <= c * b,
            f > 0,
    ;
    assert(c * f * b <= e * d * b) by (nonlinear_arith)
        requires
            c * f <= e * d,
            b > 0,
    ;
    assert(a * f <= e * b) by (nonlinear_arith)
        requires
            a * f * d <= c * b * f,
            c * f * b <= e * d * b,
            d > 0,
    ;
    if !fraction_lt(a, b, c, d) && !fraction_lt(c, d, e, f) {
        assert(e * b <= a * f) by (nonlinear_arith)
            requires
                c * b <= a * d,
                e * d <= c * f,
                b > 0,
                d > 0,
                f > 0,
        {
            assert(c * b * f <= a * d * f) by (nonlinear_arith)
                requires
                    c * b <= a * d,
                    f > 0,
            ;
            assert(e * d * b <= c * f * b) by (nonlinear_arith)
                requires
                    e * d <= c * f,
                    b > 0,
            ;
            assert(e * b * d <= a * f * d) by (nonlinear_arith)
                requires
                    c * b * f <= a * d * f,
                    e * d * b <= c * f * b,
            ;
            assert(e * b <= a * f) by (nonlinear_arith)
                requires
                    e * b * d <= a * f * d,
                    d > 0,
            ;
        }
    }
}

} // verus!
