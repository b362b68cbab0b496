use vstd::prelude::*;
use crate::common::PARAM_SCALE;
use crate::geometry::ray::div_floor;

verus! {

/// The denominator of the machine epsilon: the epsilon is `1 / 10000`.
pub const EPSILON_DEN: i64 = 10000;

/// An extended fraction `(numerator, denominator)` with a denominator that is
/// not negative. A denominator of zero stands for plus infinity where the
/// numerator is positive and for minus infinity where it is negative.
pub open spec fn ratio_ok(a: (int, int)) -> bool {
    a.1 >= 0 && (a.1 == 0 ==> a.0 != 0)
}

/// `a <= b` for extended fractions.
pub open spec fn ratio_le(a: (int, int), b: (int, int)) -> bool {
    if a.1 == 0 && b.1 == 0 {
        a.0 <= b.0
    } else {
        a.0 * b.1 <= b.0 * a.1
    }
}

/// Any two extended fractions are comparable.
pub proof fn lemma_ratio_total(a: (int, int), b: (int, int))
    ensures
        ratio_le(a, b) || ratio_le(b, a),
{
}

/// The order of extended fractions is transitive.
pub proof fn lemma_ratio_trans(a: (int, int), b: (int, int), c: (int, int))
    requires
        ratio_ok(a),
        ratio_ok(b),
        ratio_ok(c),
        ratio_le(a, b),
        ratio_le(b, c),
    ensures
        ratio_le(a, c),
{
    let (an, ad) = a;
    let (bn, bd) = b;
    let (cn, cd) = c;
    if bd == 0 {
        if ad == 0 && cd == 0 {
        } else if ad == 0 {
            // a <= b with b infinite and c finite: b is minus infinity, so is a
            assert(an * bd == 0 && bn * ad == 0) by (nonlinear_arith)
                requires
                    bd == 0,
                    ad == 0,
            ;
            assert(bn * cd <= cn * bd) ;
            assert(cn * bd == 0) by (nonlinear_arith)
                requires
                    bd == 0,
            ;
            assert(bn < 0) by (nonlinear_arith)
                requires
                    bn * cd <= 0,
                    cd > 0,
                    bn != 0,
            ;
            assert(an * cd <= cn * ad) by (nonlinear_arith)
                requires
                    an <= bn,
                    bn < 0,
                    cd > 0,
                    ad == 0,
            ;
        } else if cd == 0 {
            assert(an * bd == 0) by (nonlinear_arith)
                requires
                    bd == 0,
            ;
            assert(bn > 0) by (nonlinear_arith)
                requires
                    0 <= bn * ad,
                    ad > 0,
                    bn != 0,
            ;
            assert(an * cd <= cn * ad) by (nonlinear_arith)
                requires
                    bn <= cn,
                    bn > 0,
                    ad > 0,
                    cd == 0,
            ;
        } else {
            // b infinite, a and c finite: a <= b forces b = +inf, b <= c forces b = -inf
            assert(false) by (nonlinear_arith)
                requires
                    an * bd <= bn * ad,
                    bn * cd <= cn * bd,
                    bd == 0,
                    ad > 0,
                    cd > 0,
                    bn != 0,
            ;
        }
    } else {
        if ad == 0 && cd == 0 {
            assert(an < 0) by (nonlinear_arith)
                requires
                    an * bd <= bn * ad,
                    ad == 0,
                    bd > 0,
                    an != 0,
            ;
            assert(cn > 0) by (nonlinear_arith)
                requires
                    bn * cd <= cn * bd,
                    cd == 0,
                    bd > 0,
                    cn != 0,
            ;
        } else {
            assert(an * cd <= cn * ad) by (nonlinear_arith)
                requires
                    an * bd <= bn * ad,
                    bn * cd <= cn * bd,
                    bd > 0,
                    ad >= 0,
                    cd >= 0,
                    ad == 0 ==> an != 0,
                    cd == 0 ==> cn != 0,
            {
                // multiply the first by cd and the second by ad, then cancel bd
                assert((an * bd) * cd <= (bn * ad) * cd);
                assert((bn * cd) * ad <= (cn * bd) * ad);
                assert((an * cd) * bd <= (cn * ad) * bd);
            }
        }
    }
}

/// The product of two bounded numbers is bounded by the product of the bounds.
pub proof fn lemma_mul_bound(a: int, b: int, ba: int, bb: int)
    requires
        -ba <= a <= ba,
        -bb <= b <= bb,
    ensures
        -(ba * bb) <= a * b <= ba * bb,
{
    assert(-(ba * bb) <= a * b <= ba * bb) by (nonlinear_arith)
        requires
            -ba <= a <= ba,
            -bb <= b <= bb,
    ;
}

/// Decides `a <= b` for extended fractions whose cross products fit the machine.
pub fn ratio_le_exec(a: (i128, i128), b: (i128, i128)) -> (r: bool)
    requires
        i128::MIN <= a.0 * b.1 <= i128::MAX,
        i128::MIN <= b.0 * a.1 <= i128::MAX,
    ensures
        r == ratio_le((a.0 as int, a.1 as int), (b.0 as int, b.1 as int)),
{
    if a.1 == 0 && b.1 == 0 {
        a.0 <= b.0
    } else {
        a.0 * b.1 <= b.0 * a.1
    }
}

/// The rounding error bound `n e / (1 - n e)` of `n` operations, for the
/// epsilon `e = 1 / EPSILON_DEN`, as the fraction `n / (EPSILON_DEN - n)`.
pub fn gamma(n: i32) -> (g: (i64, i64))
    ensures
        g.0 == n,
        g.1 == EPSILON_DEN - n,
{
    (n as i64, EPSILON_DEN - n as i64)
}

/// The value `(1 - t) * v1 + t * v2` for a fixed-point `t`, rounded down.
pub open spec fn lerp_of(t: int, v1: int, v2: int) -> int {
    ((PARAM_SCALE - t) * v1 + t * v2) / (PARAM_SCALE as int)
}

/// The value between `v1` and `v2` at the fixed-point position `t`, rounded
/// down.
pub fn lerp(t: i64, v1: i32, v2: i32) -> (r: i128)
    ensures
        r == lerp_of(t as int, v1 as int, v2 as int),
{
    let s: i128 = PARAM_SCALE as i128;
    let t: i128 = t as i128;
    let a: i128 = s - t;
    proof {
        lemma_mul_bound(a as int, v1 as int, 0x1_0000_0000_0000_0000, 0x1_0000_0000);
        lemma_mul_bound(t as int, v2 as int, 0x1_0000_0000_0000_0000, 0x1_0000_0000);
    }
    let x: i128 = a * (v1 as i128) + t * (v2 as i128);
    div_floor(x, s)
}

} // verus!
