//! The norm test at the heart of verification.
use vstd::prelude::*;

use crate::codec::{
    decode_pubkey_u32, is_pubkey_body, is_signature_poly, pubkey_coeffs, signed_ints, u16_ints,
    PUBKEY_BODY_LEN,
};
use crate::field::{cong, law_cong_residue, lemma_cong_cancel, lemma_cong_mul, lemma_cong_scale};
use crate::ntt::{
    in_range, ints, inv_ntt, law_values_determine, law_values_exist, lemma_root_of_ring, ntt, root,
    Twiddles, N_INV,
};
use crate::poly::{eval, is_reduced, lemma_eval_cong, lemma_eval_product, product};
use crate::{N, Q};

verus! {

/// Largest squared norm of an acceptable signature.
pub const L2_BOUND: u64 = 34_034_726;

/// The representative of `x` modulo `q` of least absolute value.
pub open spec fn centered(x: int) -> int {
    if x % 12289 > 6144 {
        x % 12289 - 12289
    } else {
        x % 12289
    }
}

/// Contribution of the first `n` coefficients to the squared norm of
/// `(c - t mod q, s2)`.
pub open spec fn norm_sq(c: Seq<int>, t: Seq<int>, s2: Seq<int>, n: nat) -> int
    decreases n,
{
    if n == 0 {
        0
    } else {
        let s1 = centered(c[n - 1] - t[n - 1]);
        norm_sq(c, t, s2, (n - 1) as nat) + s1 * s1 + s2[n - 1] * s2[n - 1]
    }
}

/// `(c - t mod q, s2)` is a short vector.
pub open spec fn is_short(c: Seq<int>, t: Seq<int>, s2: Seq<int>) -> bool {
    norm_sq(c, t, s2, 512) <= L2_BOUND
}

/// A vector is short if and only if the squares of the least absolute values of
/// `c - t` modulo 12289, and those of `s2`, add up to at most 34034726.
pub proof fn law_is_short(c: Seq<int>, t: Seq<int>, s2: Seq<int>)
    requires
        c.len() == 512,
        t.len() == 512,
        s2.len() == 512,
    ensures
        is_short(c, t, s2) <==> Seq::new(
            512,
            |j: int|
                {
                    let d = (c[j] - t[j]) % 12289;
                    let a = if d <= 12289 - d {
                        d
                    } else {
                        12289 - d
                    };
                    a * a + s2[j] * s2[j]
                },
        ).fold_left(0int, |x: int, y: int| x + y) <= 34034726,
{
    let terms = Seq::new(
        512,
        |j: int|
            {
                let d = (c[j] - t[j]) % 12289;
                let a = if d <= 12289 - d {
                    d
                } else {
                    12289 - d
                };
                a * a + s2[j] * s2[j]
            },
    );
    let plus = |x: int, y: int| x + y;
    assert forall|j: int| 0 <= j < 512 implies #[trigger] terms[j] == centered(c[j] - t[j])
        * centered(c[j] - t[j]) + s2[j] * s2[j] by {
        let d = (c[j] - t[j]) % 12289;
        assert((d - 12289) * (d - 12289) == (12289 - d) * (12289 - d)) by (nonlinear_arith);
    }
    lemma_norm_is_fold(c, t, s2, terms, plus);
}

proof fn lemma_norm_is_fold(
    c: Seq<int>,
    t: Seq<int>,
    s2: Seq<int>,
    terms: Seq<int>,
    plus: spec_fn(int, int) -> int,
)
    requires
        forall|j: int|
            0 <= j < terms.len() ==> #[trigger] terms[j] == centered(c[j] - t[j]) * centered(
                c[j] - t[j],
            ) + s2[j] * s2[j],
        forall|x: int, y: int| #[trigger] plus(x, y) == x + y,
    ensures
        norm_sq(c, t, s2, terms.len()) == terms.fold_left(0int, plus),
    decreases terms.len(),
{
    if terms.len() > 0 {
        let fewer = terms.drop_last();
        assert forall|j: int| 0 <= j < fewer.len() implies #[trigger] fewer[j] == centered(
            c[j] - t[j],
        ) * centered(c[j] - t[j]) + s2[j] * s2[j] by {
            assert(terms[j] == fewer[j]);
        }
        lemma_norm_is_fold(c, t, s2, fewer, plus);
        assert(terms[terms.len() - 1] == terms.last());
    }
}

/// The transform of `h`, times `1 / 512`.
pub open spec fn prepared_coeffs(h: Seq<int>) -> Seq<int> {
    Seq::new(512, |i: int| (eval(h, root(i)) * N_INV) % 12289)
}

/// Every prepared coefficient is below `q`, so that 16 bits hold it.
pub proof fn law_prepared_reduced(h: Seq<int>)
    ensures
        is_reduced(prepared_coeffs(h)),
{
}

/// Prepared coefficient `i` is the number below 12289 whose multiple by 512 is
/// the value of the polynomial at root `i`.
pub proof fn law_prepared_at(h: Seq<int>, i: int)
    requires
        0 <= i < 512,
    ensures
        prepared_coeffs(h).len() == 512,
        0 <= prepared_coeffs(h)[i] < 12289,
        (512 * prepared_coeffs(h)[i] - eval(h, root(i))) % 12289 == 0,
{
    lemma_scale_back(eval(h, root(i)));
}

proof fn lemma_scale_back(v: int)
    ensures
        (512 * ((v * N_INV) % 12289) - v) % 12289 == 0,
{
    let p = (v * 12265) % 12289;
    lemma_cong_scale(512, p, v * 12265);
    assert(512 * (v * 12265) == v + 12289 * (511 * v)) by (nonlinear_arith);
}

/// A reduced polynomial is determined by its prepared form.
pub proof fn law_preparation_injective(g: Seq<int>, h: Seq<int>)
    requires
        is_reduced(g),
        is_reduced(h),
        prepared_coeffs(g) == prepared_coeffs(h),
    ensures
        g == h,
{
    assert forall|i: int| 0 <= i < 512 implies cong(
        eval(g, #[trigger] root(i)),
        eval(h, root(i)),
    ) by {
        let (x, y) = (eval(g, root(i)), eval(h, root(i)));
        assert(prepared_coeffs(g)[i] == (x * N_INV) % 12289);
        assert(prepared_coeffs(h)[i] == (y * N_INV) % 12289);
        lemma_cancel_n_inv(x, y);
    }
    law_values_determine(g, h);
}

proof fn lemma_cancel_n_inv(x: int, y: int)
    requires
        (x * N_INV) % 12289 == (y * N_INV) % 12289,
    ensures
        cong(x, y),
{
    law_cong_residue(x * 12265, y * 12265);
    assert(x * 12265 == 12265 * x && y * 12265 == 12265 * y);
    assert(cong(512 * 12265int, 1));
    lemma_cong_cancel(12265, 512, x, y);
}

/// `t` is the polynomial whose transform is, position by position, 512 times
/// the product of `p` and the transform of `s2`.
pub open spec fn is_scaled_product(p: Seq<int>, s2: Seq<int>, t: Seq<int>) -> bool {
    &&& is_reduced(t)
    &&& forall|i: int|
        0 <= i < 512 ==> cong(
            eval(t, #[trigger] root(i)),
            512 * (p[i] * eval(s2, root(i))),
        )
}

/// The one polynomial `t` with `is_scaled_product(p, s2, t)`.
pub open spec fn scaled_product(p: Seq<int>, s2: Seq<int>) -> Seq<int> {
    choose|t: Seq<int>| is_scaled_product(p, s2, t)
}

/// There is a scaled product for any prepared coefficients.
pub proof fn law_scaled_product_exists(p: Seq<int>, s2: Seq<int>)
    ensures
        is_scaled_product(p, s2, scaled_product(p, s2)),
{
    let y = Seq::new(512, |i: int| p[i] * eval(s2, root(i)));
    law_values_exist(y);
    let t = choose|t: Seq<int>| #[trigger]
        is_reduced(t) && forall|i: int|
            0 <= i < 512 ==> cong(eval(t, #[trigger] root(i)), 512 * y[i]);
    assert forall|i: int| 0 <= i < 512 implies cong(
        eval(t, #[trigger] root(i)),
        512 * (p[i] * eval(s2, root(i))),
    ) by {
        assert(cong(eval(t, root(i)), 512 * y[i]));
    }
    assert(is_scaled_product(p, s2, t));
}

/// The scaled product is reduced, and its value at root `i` is, modulo 12289,
/// 512 times coefficient `i` of `p` times the value of `s2`.
pub proof fn law_scaled_product_at(p: Seq<int>, s2: Seq<int>, i: int)
    requires
        0 <= i < 512,
    ensures
        scaled_product(p, s2).len() == 512,
        forall|j: int| 0 <= j < 512 ==> 0 <= #[trigger] scaled_product(p, s2)[j] < 12289,
        (eval(scaled_product(p, s2), root(i)) - 512 * (p[i] * eval(s2, root(i)))) % 12289 == 0,
{
    law_scaled_product_exists(p, s2);
    let t = scaled_product(p, s2);
    assert(cong(eval(t, root(i)), 512 * (p[i] * eval(s2, root(i)))));
}

/// The scaled product is the only polynomial with its defining property.
pub proof fn law_scaled_product_unique(p: Seq<int>, s2: Seq<int>, t: Seq<int>)
    requires
        is_scaled_product(p, s2, t),
    ensures
        scaled_product(p, s2) == t,
{
    let u = scaled_product(p, s2);
    assert(is_scaled_product(p, s2, u));
    assert forall|i: int| 0 <= i < 512 implies cong(
        eval(t, #[trigger] root(i)),
        eval(u, root(i)),
    ) by {
        assert(cong(eval(u, root(i)), 512 * (p[i] * eval(s2, root(i)))));
    }
    law_values_determine(t, u);
}

/// With a prepared public key, the scaled product is the product in the ring.
pub proof fn law_prepared_product(h: Seq<int>, s2: Seq<int>)
    requires
        h.len() == 512,
        s2.len() == 512,
    ensures
        scaled_product(prepared_coeffs(h), s2) == product(s2, h),
{
    let p = prepared_coeffs(h);
    let t = product(s2, h);
    assert forall|i: int| 0 <= i < 512 implies cong(
        eval(t, #[trigger] root(i)),
        512 * (p[i] * eval(s2, root(i))),
    ) by {
        let z = root(i);
        let (x, y) = (eval(s2, z), eval(h, z));
        lemma_root_of_ring(i);
        lemma_eval_product(s2, h, z);
        lemma_cong_mul(p[i], y * 12265, x, x);
        lemma_cong_scale(512, p[i] * x, (y * 12265) * x);
        assert(512 * ((y * 12265) * x) == x * y + 12289 * (511 * (x * y))) by (nonlinear_arith);
    }
    law_scaled_product_unique(p, s2, t);
}

/// Squared norm test, with an early exit once the bound is passed.
#[verifier::spinoff_prover]
fn norm_within(t: &[u32; 512], c: &[u16; 512], s2: &[i16; 512]) -> (r: bool)
    requires
        in_range(t@),
        forall|i: int| 0 <= i < 512 ==> #[trigger] c@[i] < 12289,
        is_signature_poly(signed_ints(s2@)),
    ensures
        r == is_short(u16_ints(c@), ints(t@), signed_ints(s2@)),
{
    let ghost (cs, ts, ss) = (u16_ints(c@), ints(t@), signed_ints(s2@));
    let mut sum: u64 = 0;
    let mut j: usize = 0;
    while j < N
        invariant
            in_range(t@),
            forall|i: int| 0 <= i < 512 ==> #[trigger] c@[i] < 12289,
            is_signature_poly(ss),
            cs == u16_ints(c@),
            ts == ints(t@),
            ss == signed_ints(s2@),
            j <= 512,
            sum == norm_sq(cs, ts, ss, j as nat),
            sum <= L2_BOUND,
        decreases 512 - j,
    {
        assert(c@[j as int] < 12289);
        assert(t@[j as int] < 12289);
        assert(-2047 <= ss[j as int] <= 2047);
        let d: u32 = (c[j] as u32 + Q - t[j]) % Q;
        let s1: u64 = if d > 6144 {
            (Q - d) as u64
        } else {
            d as u64
        };
        let s: i64 = s2[j] as i64;
        let a: u64 = if s < 0 {
            (-s) as u64
        } else {
            s as u64
        };
        proof {
            let e = centered(cs[j as int] - ts[j as int]);
            assert(e == s1 || e == -s1);
            assert((-(s1 as int)) * (-(s1 as int)) == s1 * s1) by (nonlinear_arith);
            assert((-(a as int)) * (-(a as int)) == a * a) by (nonlinear_arith);
            assert(s1 * s1 <= 6144 * 6144) by (nonlinear_arith)
                requires
                    s1 <= 6144,
            ;
            assert(a * a <= 2047 * 2047) by (nonlinear_arith)
                requires
                    a <= 2047,
            ;
        }
        sum += s1 * s1 + a * a;
        j += 1;
        if sum > L2_BOUND {
            proof {
                lemma_norm_grows(cs, ts, ss, j as nat, 512);
            }
            return false;
        }
    }
    true
}

proof fn lemma_norm_grows(c: Seq<int>, t: Seq<int>, s2: Seq<int>, n: nat, m: nat)
    requires
        n <= m,
    ensures
        norm_sq(c, t, s2, n) <= norm_sq(c, t, s2, m),
    decreases m,
{
    if n < m {
        lemma_norm_grows(c, t, s2, n, (m - 1) as nat);
        let s1 = centered(c[m - 1] - t[m - 1]);
        let a = s2[m - 1];
        assert(s1 * s1 >= 0) by (nonlinear_arith);
        assert(a * a >= 0) by (nonlinear_arith);
    }
}

/// Norm test against a prepared public key, whose entries count modulo `q`.
#[verifier::spinoff_prover]
pub fn norm_check_with_prepared(p: &[u16; 512], s2: &[i16; 512], c: &[u16; 512]) -> (r: bool)
    requires
        is_signature_poly(signed_ints(s2@)),
        forall|i: int| 0 <= i < 512 ==> #[trigger] c@[i] < 12289,
    ensures
        r == is_short(
            u16_ints(c@),
            scaled_product(u16_ints(p@), signed_ints(s2@)),
            signed_ints(s2@),
        ),
{
    let ghost ss = signed_ints(s2@);
    let ghost ps = u16_ints(p@);
    let mut buf: [u32; 512] = [0; 512];
    let mut j: usize = 0;
    while j < N
        invariant
            j <= 512,
            is_signature_poly(ss),
            ss == signed_ints(s2@),
            in_range(buf@),
            forall|i: int| 0 <= i < j ==> cong(#[trigger] buf@[i] as int, ss[i]),
        decreases 512 - j,
    {
        assert(-2047 <= ss[j as int] <= 2047);
        buf[j] = ((s2[j] as i32 + 12289) as u32) % Q;
        j += 1;
    }
    let ghost a = ints(buf@);
    let tw = Twiddles::new();
    ntt(&mut buf, &tw);
    let ghost values = buf@;
    let mut k: usize = 0;
    while k < N
        invariant
            k <= 512,
            in_range(buf@),
            ps == u16_ints(p@),
            forall|i: int|
                0 <= i < k ==> cong(#[trigger] buf@[i] as int, ps[i] * values[i]),
            forall|i: int| k <= i < 512 ==> #[trigger] buf@[i] == values[i],
        decreases 512 - k,
    {
        let x: u32 = buf[k];
        let y: u32 = p[k] as u32;
        assert(y * x <= 65535 * 12288) by (nonlinear_arith)
            requires
                x < 12289,
                y <= 65535,
        ;
        buf[k] = (y * x) % Q;
        k += 1;
    }
    let ghost pointwise = buf@;
    inv_ntt(&mut buf, &tw);
    proof {
        let t = ints(buf@);
        assert forall|i: int| 0 <= i < 512 implies cong(
            eval(t, #[trigger] root(i)),
            512 * (ps[i] * eval(ss, root(i))),
        ) by {
            let z = root(i);
            assert(values[i] == eval(a, z) % 12289);
            assert forall|j: int| 0 <= j < 512 implies cong(#[trigger] a[j], ss[j]) by {
                assert(a[j] as int == a[j]);
            }
            lemma_eval_cong(a, ss, z);
            lemma_cong_scale(ps[i], values[i] as int, eval(ss, z));
            assert(cong(pointwise[i] as int, ps[i] * values[i]));
            lemma_cong_scale(512, pointwise[i] as int, ps[i] * eval(ss, z));
        }
        assert(is_scaled_product(ps, ss, t));
        law_scaled_product_unique(ps, ss, t);
    }
    norm_within(&buf, c, s2)
}

/// Scales a transformed public key by `1 / 512` and narrows it.
pub fn fold_n_inv(h: &[u32; 512]) -> (packed: [u16; 512])
    requires
        in_range(h@),
    ensures
        forall|i: int| 0 <= i < 512 ==> #[trigger] packed@[i] == (h@[i] * N_INV) % 12289,
{
    let mut packed: [u16; 512] = [0; 512];
    let mut k: usize = 0;
    while k < N
        invariant
            k <= 512,
            in_range(h@),
            forall|i: int| 0 <= i < k ==> #[trigger] packed@[i] == (h@[i] * N_INV) % 12289,
        decreases 512 - k,
    {
        packed[k] = (h[k] as u64 * N_INV as u64 % Q as u64) as u16;
        k += 1;
    }
    packed
}

/// Transforms an unpacked public key.
#[verifier::spinoff_prover]
pub fn prepare_coeffs(h: &mut [u32; 512]) -> (packed: [u16; 512])
    requires
        in_range(old(h)@),
    ensures
        u16_ints(packed@) == prepared_coeffs(ints(old(h)@)),
{
    let ghost a = ints(h@);
    let tw = Twiddles::new();
    ntt(h, &tw);
    let packed = fold_n_inv(h);
    proof {
        assert forall|i: int| 0 <= i < 512 implies #[trigger] u16_ints(packed@)[i]
            == prepared_coeffs(a)[i] by {
            let v = eval(a, root(i));
            assert(h@[i] == v % 12289);
            lemma_cong_mul(v % 12289, v, 12265, 12265);
            law_cong_residue((v % 12289) * 12265, v * 12265);
            assert(prepared_coeffs(a)[i] == (v * N_INV) % 12289);
            assert(packed@[i] == (h@[i] * N_INV) % 12289);
        }
        assert(u16_ints(packed@) =~= prepared_coeffs(a));
    }
    packed
}

/// Norm test against a packed public key.
pub fn check_norm(pk_data: &[u8], s2: &[i16; 512], c: &[u16; 512]) -> (r: bool)
    requires
        pk_data@.len() == PUBKEY_BODY_LEN,
        is_signature_poly(signed_ints(s2@)),
        forall|i: int| 0 <= i < 512 ==> #[trigger] c@[i] < 12289,
    ensures
        r == (is_pubkey_body(pk_data@) && is_short(
            u16_ints(c@),
            product(signed_ints(s2@), pubkey_coeffs(pk_data@)),
            signed_ints(s2@),
        )),
{
    let mut h: [u32; 512] = [0; 512];
    if !decode_pubkey_u32(pk_data, &mut h) {
        return false;
    }
    let packed = prepare_coeffs(&mut h);
    proof {
        law_prepared_product(pubkey_coeffs(pk_data@), signed_ints(s2@));
    }
    norm_check_with_prepared(&packed, s2, c)
}

} // verus!
