//! Polynomials over `Z_q`: evaluation, and the product modulo `x^512 + 1`.
use vstd::arithmetic::power::{lemma_pow_adds, pow};
use vstd::prelude::*;

use crate::field::{cong, lemma_cong_mul, lemma_cong_scale};

verus! {

/// Value at `z` of the polynomial with coefficients `a`, lowest degree first.
pub open spec fn eval(a: Seq<int>, z: int) -> int
    decreases a.len(),
{
    if a.len() == 0 {
        0
    } else {
        eval(a.drop_last(), z) + a.last() * pow(z, (a.len() - 1) as nat)
    }
}

/// A polynomial of degree below 512 with coefficients in `[0, q)`.
pub open spec fn is_reduced(a: Seq<int>) -> bool {
    &&& a.len() == 512
    &&& forall|j: int| 0 <= j < 512 ==> 0 <= #[trigger] a[j] < 12289
}

/// Coefficient `j` of `x^i * h` modulo `x^512 + 1`.
pub open spec fn shifted(h: Seq<int>, i: int, j: int) -> int {
    if j >= i {
        h[j - i]
    } else {
        -h[512 + j - i]
    }
}

/// Sum over `i < n` of `f[i]` times coefficient `j` of `x^i * h`.
pub open spec fn product_coeff(f: Seq<int>, h: Seq<int>, j: int, n: nat) -> int
    decreases n,
{
    if n == 0 {
        0
    } else {
        product_coeff(f, h, j, (n - 1) as nat) + f[n - 1] * shifted(h, n - 1, j)
    }
}

/// The product of `f` and `h` in `Z_q[x] / (x^512 + 1)`.
pub open spec fn product(f: Seq<int>, h: Seq<int>) -> Seq<int> {
    Seq::new(512, |j: int| product_coeff(f, h, j, 512) % 12289)
}

/// A further coefficient adds its multiple of the next power.
pub proof fn law_eval_push(a: Seq<int>, c: int, z: int)
    ensures
        eval(Seq::<int>::empty(), z) == 0,
        eval(a.push(c), z) == eval(a, z) + c * pow(z, a.len()),
{
    assert(a.push(c).drop_last() =~= a);
}

/// Multiplying by `x^i` moves coefficients up by `i` places, and those that pass
/// the top come back at the bottom with the opposite sign.
pub proof fn law_product_monomial(h: Seq<int>, i: int, j: int)
    requires
        h.len() == 512,
        0 <= i < 512,
        0 <= j < 512,
    ensures
        ({
            let monomial = Seq::new(
                512,
                |k: int|
                    if k == i {
                        1int
                    } else {
                        0
                    },
            );
            &&& product(monomial, h).len() == 512
            &&& product(monomial, h)[j] == (if i <= j {
                h[j - i]
            } else {
                -h[j - i + 512]
            }) % 12289
        }),
{
    let f = Seq::new(
        512,
        |k: int|
            if k == i {
                1int
            } else {
                0
            },
    );
    lemma_product_monomial(f, h, i, j, 512);
}

proof fn lemma_product_monomial(f: Seq<int>, h: Seq<int>, i: int, j: int, n: nat)
    requires
        n <= 512,
        0 <= i < 512,
        forall|k: int|
            0 <= k < 512 ==> #[trigger] f[k] == if k == i {
                1int
            } else {
                0
            },
    ensures
        product_coeff(f, h, j, n) == if i < n {
            shifted(h, i, j)
        } else {
            0
        },
    decreases n,
{
    if n > 0 {
        lemma_product_monomial(f, h, i, j, (n - 1) as nat);
        let x = shifted(h, n - 1, j);
        assert(1 * x == x && 0 * x == 0);
        assert(f[n - 1] == if n - 1 == i {
            1int
        } else {
            0
        });
    }
}

/// The product is linear in its first factor, modulo 12289, and reduced.
pub proof fn law_product_linear(f: Seq<int>, g: Seq<int>, c: int, h: Seq<int>, j: int)
    requires
        f.len() == 512,
        g.len() == 512,
        0 <= j < 512,
    ensures
        ({
            let sum = Seq::new(512, |k: int| f[k] + c * g[k]);
            (product(sum, h)[j] - (product(f, h)[j] + c * product(g, h)[j])) % 12289 == 0
        }),
        0 <= product(f, h)[j] < 12289,
{
    let sum = Seq::new(512, |k: int| f[k] + c * g[k]);
    lemma_product_linear(f, g, sum, c, h, j, 512);
    let (x, y) = (product_coeff(f, h, j, 512), product_coeff(g, h, j, 512));
    lemma_cong_scale(c, y % 12289, y);
    assert(cong(x + c * y, x % 12289 + c * (y % 12289)));
}

proof fn lemma_product_linear(
    f: Seq<int>,
    g: Seq<int>,
    sum: Seq<int>,
    c: int,
    h: Seq<int>,
    j: int,
    n: nat,
)
    requires
        n <= 512,
        forall|k: int| 0 <= k < 512 ==> #[trigger] sum[k] == f[k] + c * g[k],
    ensures
        product_coeff(sum, h, j, n) == product_coeff(f, h, j, n) + c * product_coeff(g, h, j, n),
    decreases n,
{
    if n > 0 {
        lemma_product_linear(f, g, sum, c, h, j, (n - 1) as nat);
        let (a, b, s, y) = (
            f[n - 1],
            g[n - 1],
            shifted(h, n - 1, j),
            product_coeff(g, h, j, (n - 1) as nat),
        );
        assert(sum[n - 1] == a + c * b);
        assert((a + c * b) * s == a * s + c * (b * s)) by (nonlinear_arith);
        assert(c * (y + b * s) == c * y + c * (b * s)) by (nonlinear_arith);
    } else {
        assert(c * 0 == 0);
    }
}

pub proof fn lemma_eval_split(a: Seq<int>, b: Seq<int>, z: int)
    ensures
        eval(a + b, z) == eval(a, z) + pow(z, a.len()) * eval(b, z),
    decreases b.len(),
{
    if b.len() == 0 {
        assert(a + b =~= a);
    } else {
        let n = (b.len() - 1) as nat;
        let p = pow(z, a.len());
        let r = pow(z, n);
        lemma_eval_split(a, b.drop_last(), z);
        assert((a + b).drop_last() =~= a + b.drop_last());
        lemma_pow_adds(z, a.len(), n);
        let x = eval(b.drop_last(), z);
        let c = b.last();
        assert(p * (x + c * r) == p * x + c * (p * r)) by (nonlinear_arith);
    }
}

pub proof fn lemma_eval_cong(a: Seq<int>, b: Seq<int>, z: int)
    requires
        a.len() == b.len(),
        forall|j: int| 0 <= j < a.len() ==> cong(#[trigger] a[j], b[j]),
    ensures
        cong(eval(a, z), eval(b, z)),
    decreases a.len(),
{
    if a.len() > 0 {
        lemma_eval_cong(a.drop_last(), b.drop_last(), z);
        let p = pow(z, (a.len() - 1) as nat);
        assert(cong(a[a.len() - 1], b[a.len() - 1]));
        lemma_cong_mul(a.last(), b.last(), p, p);
    }
}

pub proof fn lemma_eval_linear(a: Seq<int>, b: Seq<int>, w: int, z: int)
    requires
        a.len() == b.len(),
    ensures
        eval(Seq::new(a.len(), |j: int| a[j] + w * b[j]), z) == eval(a, z) + w * eval(b, z),
    decreases a.len(),
{
    let c = Seq::new(a.len(), |j: int| a[j] + w * b[j]);
    if a.len() > 0 {
        let n = (a.len() - 1) as nat;
        let p = pow(z, n);
        let a0 = a.drop_last();
        let b0 = b.drop_last();
        lemma_eval_linear(a0, b0, w, z);
        assert(c.drop_last() =~= Seq::new(n, |j: int| a0[j] + w * b0[j]));
        let (x, y, u, v) = (eval(a0, z), eval(b0, z), a.last(), b.last());
        assert(x + w * y + (u + w * v) * p == x + u * p + w * (y + v * p)) by (nonlinear_arith);
    }
}

/// Multiplying by `x^i` modulo `x^512 + 1` multiplies the value at a root of
/// `x^512 + 1` by the `i`-th power of the root.
proof fn lemma_eval_shifted(h: Seq<int>, i: int, z: int)
    requires
        h.len() == 512,
        0 <= i < 512,
        cong(pow(z, 512), -1),
    ensures
        cong(eval(Seq::new(512, |j: int| shifted(h, i, j)), z), pow(z, i as nat) * eval(h, z)),
{
    let s = Seq::new(512, |j: int| shifted(h, i, j));
    let lo = h.take(512 - i);
    let hi = h.skip(512 - i);
    let zero = Seq::new(hi.len(), |j: int| 0int);
    let neg = Seq::new(hi.len(), |j: int| zero[j] + (-1) * hi[j]);
    assert(s =~= neg + lo);
    assert(h =~= lo + hi);
    lemma_eval_split(neg, lo, z);
    lemma_eval_split(lo, hi, z);
    lemma_eval_linear(zero, hi, -1, z);
    lemma_eval_zero(zero, z);
    let p = pow(z, i as nat);
    let r = pow(z, (512 - i) as nat);
    let (x, y) = (eval(lo, z), eval(hi, z));
    lemma_pow_adds(z, i as nat, (512 - i) as nat);
    assert(p * (x + r * y) == p * x + (p * r) * y) by (nonlinear_arith);
    lemma_cong_mul(p * r, -1, y, y);
}

pub proof fn lemma_eval_zero(a: Seq<int>, z: int)
    requires
        forall|j: int| 0 <= j < a.len() ==> #[trigger] a[j] == 0,
    ensures
        eval(a, z) == 0,
    decreases a.len(),
{
    if a.len() > 0 {
        lemma_eval_zero(a.drop_last(), z);
        assert(a.last() == 0);
    }
}

proof fn lemma_eval_partial_product(f: Seq<int>, h: Seq<int>, z: int, n: nat)
    requires
        f.len() == 512,
        h.len() == 512,
        n <= 512,
        cong(pow(z, 512), -1),
    ensures
        cong(
            eval(Seq::new(512, |j: int| product_coeff(f, h, j, n)), z),
            eval(f.take(n as int), z) * eval(h, z),
        ),
    decreases n,
{
    let p = Seq::new(512, |j: int| product_coeff(f, h, j, n));
    if n == 0 {
        lemma_eval_zero(p, z);
        assert(f.take(0).len() == 0);
        assert(eval(f.take(0), z) == 0);
    } else {
        let m = (n - 1) as nat;
        let p0 = Seq::new(512, |j: int| product_coeff(f, h, j, m));
        let s = Seq::new(512, |j: int| shifted(h, m as int, j));
        lemma_eval_partial_product(f, h, z, m);
        lemma_eval_shifted(h, m as int, z);
        assert(p =~= Seq::new(512, |j: int| p0[j] + f[m as int] * s[j]));
        lemma_eval_linear(p0, s, f[m as int], z);
        assert(f.take(n as int).drop_last() =~= f.take(m as int));
        let (e, v, w, c) = (eval(f.take(m as int), z), eval(h, z), pow(z, m), f[m as int]);
        lemma_cong_scale(c, eval(s, z), w * v);
        assert((e + c * w) * v == e * v + c * (w * v)) by (nonlinear_arith);
    }
}

/// At a root of `x^512 + 1`, the value of a product is the product of values.
pub proof fn lemma_eval_product(f: Seq<int>, h: Seq<int>, z: int)
    requires
        f.len() == 512,
        h.len() == 512,
        cong(pow(z, 512), -1),
    ensures
        cong(eval(product(f, h), z), eval(f, z) * eval(h, z)),
{
    let p = Seq::new(512, |j: int| product_coeff(f, h, j, 512));
    lemma_eval_partial_product(f, h, z, 512);
    assert(f.take(512) =~= f);
    lemma_eval_cong(product(f, h), p, z);
}

} // verus!
