//! Congruence modulo `q = 12289`.
use vstd::arithmetic::div_mod::lemma_mod_multiples_basic;
use vstd::prelude::*;

verus! {

/// `a` and `b` are congruent modulo `q`.
pub open spec fn cong(a: int, b: int) -> bool {
    (a - b) % 12289 == 0
}

/// Congruence is kept by products.
pub proof fn lemma_cong_mul(a: int, b: int, c: int, d: int)
    requires
        cong(a, b),
        cong(c, d),
    ensures
        cong(a * c, b * d),
{
    let k = (a - b) / 12289;
    let l = (c - d) / 12289;
    assert(a - b == 12289 * k);
    assert(c - d == 12289 * l);
    assert(a * c - b * d == (k * c + b * l) * 12289) by (nonlinear_arith)
        requires
            a - b == 12289 * k,
            c - d == 12289 * l,
    ;
    lemma_mod_multiples_basic(k * c + b * l, 12289);
}

/// Congruence is kept by a common factor.
pub proof fn lemma_cong_scale(c: int, a: int, b: int)
    requires
        cong(a, b),
    ensures
        cong(c * a, c * b),
{
    lemma_cong_mul(c, c, a, b);
}

/// Congruence is equality of remainders.
pub proof fn law_cong_residue(a: int, b: int)
    ensures
        cong(a, b) <==> a % 12289 == b % 12289,
{
    let (k, l) = (a / 12289, b / 12289);
    let (r, s) = (a % 12289, b % 12289);
    assert(a == 12289 * k + r && b == 12289 * l + s);
    if r == s {
        lemma_mod_multiples_basic(k - l, 12289);
        assert(a - b == (k - l) * 12289);
    }
    if cong(a, b) {
        let m = (a - b) / 12289;
        assert(a - b == 12289 * m);
        assert(r - s == 12289 * (m - k + l));
    }
}

/// A factor with an inverse can be cancelled.
pub proof fn lemma_cong_cancel(c: int, c_inv: int, a: int, b: int)
    requires
        cong(c_inv * c, 1),
        cong(c * a, c * b),
    ensures
        cong(a, b),
{
    lemma_cong_scale(c_inv, c * a, c * b);
    assert(c_inv * (c * a) == (c_inv * c) * a) by (nonlinear_arith);
    assert(c_inv * (c * b) == (c_inv * c) * b) by (nonlinear_arith);
    lemma_cong_mul(c_inv * c, 1, a, a);
    lemma_cong_mul(c_inv * c, 1, b, b);
}

} // verus!
