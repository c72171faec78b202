//! Number-theoretic transform for `Z_q[x] / (x^512 + 1)`.
//!
//! `x^512 + 1` splits into linear factors along a binary tree: the node with
//! number `k` (the root is 1, the children of `k` are `2k` and `2k + 1`) stands
//! for `x^len - v^e`, where `v = 49` is a primitive 1024th root of unity, and
//! its children for `x^(len/2) - v^(e/2)` and `x^(len/2) + v^(e/2)`. The forward
//! transform reduces a polynomial down the tree, so coefficient `i` becomes its
//! value at `root(i)`. The inverse transform walks back up.
use vstd::arithmetic::power::{lemma_pow1, lemma_pow_adds, pow};
use vstd::prelude::*;

use crate::field::{cong, lemma_cong_cancel, lemma_cong_mul, lemma_cong_scale};
use crate::poly::{
    eval, is_reduced, lemma_eval_cong, lemma_eval_linear, lemma_eval_split, lemma_eval_zero,
};
use crate::{N, Q};

verus! {

/// `1 / 512` modulo `q`.
pub const N_INV: u32 = 12265;

/// Primitive 1024th root of unity modulo `q`.
pub const PSI: u32 = 49;

/// The lowest `bits` bits of `i` in reverse order.
pub open spec fn reversed(i: int, bits: nat) -> int
    decreases bits,
{
    if bits == 0 {
        0
    } else {
        reversed(i / 2, (bits - 1) as nat) + (i % 2) * pow(2, (bits - 1) as nat)
    }
}

/// The root of `x^512 + 1` that belongs to position `i` of a transform.
pub open spec fn root(i: int) -> int {
    pow(49, (2 * reversed(i, 9) + 1) as nat)
}

/// Exponent of `PSI` in the factor of tree node `k`.
spec fn node_exp(k: int) -> nat
    decreases k,
{
    if k <= 1 {
        512
    } else if k % 2 == 0 {
        node_exp(k / 2) / 2
    } else {
        node_exp(k / 2) / 2 + 512
    }
}

/// What the upper half of node `k` is multiplied by on the way down.
spec fn zeta(k: int) -> int {
    pow(49, node_exp(k) / 2)
}

spec fn is_size(len: int) -> bool {
    len == 1 || len == 2 || len == 4 || len == 8 || len == 16 || len == 32 || len == 64 || len
        == 128 || len == 256 || len == 512
}

/// Node `k` covers positions `s .. s + len`.
spec fn is_block(k: int, s: int, len: int) -> bool {
    &&& is_size(len)
    &&& 1 <= k
    &&& 0 <= s
    &&& s + len <= 512
    &&& k * len == 512 + s
    &&& node_exp(k) as int % len == 0
}

#[verifier::spinoff_prover]
proof fn lemma_children(k: int, s: int, len: int)
    requires
        is_block(k, s, len),
        len > 1,
    ensures
        k < 512,
        is_block(2 * k, s, len / 2),
        is_block(2 * k + 1, s + len / 2, len / 2),
        node_exp(2 * k) == node_exp(k) / 2,
        node_exp(2 * k + 1) == node_exp(k) / 2 + 512,
        node_exp(k) % 2 == 0,
{
    let t = len / 2;
    assert(len == 2 * t);
    assert((2 * k) * t == k * (2 * t)) by (nonlinear_arith);
    assert((2 * k + 1) * t == k * (2 * t) + t) by (nonlinear_arith);
    assert(k < 512) by (nonlinear_arith)
        requires
            k * len <= 1024 - len,
            len >= 2,
            k >= 1,
    ;
    assert((2 * k) / 2 == k);
    assert((2 * k + 1) / 2 == k);
    lemma_half_multiple(node_exp(k) as int, len);
}

/// Half of a multiple of `len`, and that plus 512, are multiples of `len / 2`.
proof fn lemma_half_multiple(e: int, len: int)
    requires
        is_size(len),
        len > 1,
        0 <= e,
        e % len == 0,
    ensures
        e % 2 == 0,
        (e / 2) % (len / 2) == 0,
        (e / 2 + 512) % (len / 2) == 0,
{
    if len == 2 {
        assert((e / 2) % 1 == 0 && (e / 2 + 512) % 1 == 0);
    } else if len == 4 {
        assert((e / 2) % 2 == 0 && (e / 2 + 512) % 2 == 0);
    } else if len == 8 {
        assert((e / 2) % 4 == 0 && (e / 2 + 512) % 4 == 0);
    } else if len == 16 {
        assert((e / 2) % 8 == 0 && (e / 2 + 512) % 8 == 0);
    } else if len == 32 {
        assert((e / 2) % 16 == 0 && (e / 2 + 512) % 16 == 0);
    } else if len == 64 {
        assert((e / 2) % 32 == 0 && (e / 2 + 512) % 32 == 0);
    } else if len == 128 {
        assert((e / 2) % 64 == 0 && (e / 2 + 512) % 64 == 0);
    } else if len == 256 {
        assert((e / 2) % 128 == 0 && (e / 2 + 512) % 128 == 0);
    } else {
        assert(len == 512);
        assert((e / 2) % 256 == 0 && (e / 2 + 512) % 256 == 0);
    }
}

proof fn lemma_psi_square(e: nat, x: int, y: int)
    requires
        cong(pow(49, e), x),
        cong(x * x, y),
    ensures
        cong(pow(49, e + e), y),
{
    lemma_pow_adds(49, e, e);
    lemma_cong_mul(pow(49, e), x, pow(49, e), x);
}

proof fn lemma_psi()
    ensures
        cong(pow(49, 512), -1),
{
    lemma_pow1(49);
    lemma_psi_square(1, 49, 2401);
    lemma_psi_square(2, 2401, 1260);
    lemma_psi_square(4, 1260, 2319);
    lemma_psi_square(8, 2319, 7468);
    lemma_psi_square(16, 7468, 3542);
    lemma_psi_square(32, 3542, 10984);
    lemma_psi_square(64, 10984, 7143);
    lemma_psi_square(128, 7143, 10810);
    lemma_psi_square(256, 10810, -1);
}

/// The leaf under position `i` of a node with `bits` levels above it.
proof fn lemma_node_exp(i: int, bits: nat)
    requires
        bits <= 9,
        0 <= i < pow(2, bits),
    ensures
        node_exp(pow(2, bits) + i) == pow(2, (9 - bits) as nat) * (2 * reversed(i, bits) + 1),
    decreases bits,
{
    vstd::arithmetic::power::lemma_pow0(2);
    if bits == 0 {
        lemma_pow_nine();
    } else {
        let b = (bits - 1) as nat;
        let c = (9 - bits) as nat;
        lemma_pow1(2);
        lemma_pow_adds(2, b, 1);
        lemma_pow_adds(2, c, 1);
        lemma_pow_adds(2, c, b);
        lemma_pow_adds(2, c + b, 1);
        lemma_pow_nine();
        lemma_node_exp(i / 2, b);
        let k = pow(2, bits) + i;
        assert(k / 2 == pow(2, b) + i / 2);
        assert(k % 2 == i % 2);
        vstd::arithmetic::power::lemma_pow_positive(2, b);
        vstd::arithmetic::power::lemma_pow_positive(2, c);
        let (r, u, v) = (reversed(i / 2, b), pow(2, c), pow(2, b));
        assert(pow(2, (c + 1) as nat) == 2 * u);
        assert((2 * u) * (2 * r + 1) == 2 * (u * (2 * r + 1))) by (nonlinear_arith);
        assert(node_exp(k / 2) == 2 * (u * (2 * r + 1)));
        assert(u * (2 * (r + 0 * v) + 1) == u * (2 * r + 1)) by (nonlinear_arith);
        assert(u * (2 * (r + 1 * v) + 1) == u * (2 * r + 1) + 2 * (u * v)) by (nonlinear_arith);
        assert(2 * (u * v) == 512);
    }
}

proof fn lemma_pow_nine()
    ensures
        pow(2, 9) == 512,
        pow(2, 8) == 256,
{
    reveal_with_fuel(pow, 10);
}

/// The root of position `i` is the root of its leaf.
proof fn lemma_leaf(i: int)
    requires
        0 <= i < 512,
    ensures
        root(i) == pow(49, node_exp(512 + i)),
{
    lemma_pow_nine();
    vstd::arithmetic::power::lemma_pow0(2);
    lemma_node_exp(i, 9);
}

/// Every root under a node is a root of the factor of the node.
proof fn lemma_roots(k: int, s: int, len: int, i: int)
    requires
        is_block(k, s, len),
        s <= i < s + len,
    ensures
        cong(pow(root(i), len as nat), pow(49, node_exp(k))),
    decreases len,
{
    lemma_psi();
    if len == 1 {
        lemma_leaf(i);
        lemma_pow1(root(i));
        assert(k == 512 + s) by (nonlinear_arith)
            requires
                k * len == 512 + s,
                len == 1,
        ;
    } else {
        lemma_children(k, s, len);
        let t = len / 2;
        let e = node_exp(k) / 2;
        let z = pow(root(i), t as nat);
        lemma_pow_adds(root(i), t as nat, t as nat);
        lemma_pow_adds(49, e, e);
        if i < s + t {
            lemma_roots(2 * k, s, t, i);
            lemma_cong_mul(z, pow(49, e), z, pow(49, e));
        } else {
            lemma_roots(2 * k + 1, s + t, t, i);
            let v = pow(49, (e + 512) as nat);
            lemma_pow_adds(49, e, 512);
            lemma_cong_scale(pow(49, e), pow(49, 512), -1);
            lemma_cong_mul(z, -pow(49, e), z, -pow(49, e));
            assert((-pow(49, e)) * (-pow(49, e)) == pow(49, e) * pow(49, e)) by (nonlinear_arith);
        }
    }
}

/// The roots under the children of a node, raised to the size of a child.
proof fn lemma_halves(k: int, s: int, len: int, i: int)
    requires
        is_block(k, s, len),
        len > 1,
        s <= i < s + len,
    ensures
        i < s + len / 2 ==> cong(pow(root(i), (len / 2) as nat), zeta(k)),
        i >= s + len / 2 ==> cong(pow(root(i), (len / 2) as nat), -zeta(k)),
{
    lemma_children(k, s, len);
    lemma_psi();
    let t = len / 2;
    let e = node_exp(k) / 2;
    if i < s + t {
        lemma_roots(2 * k, s, t, i);
    } else {
        lemma_roots(2 * k + 1, s + t, t, i);
        lemma_pow_adds(49, e, 512);
        lemma_cong_scale(pow(49, e), pow(49, 512), -1);
    }
}

/// `root(i)` is a root of `x^512 + 1`.
pub proof fn lemma_root_of_ring(i: int)
    requires
        0 <= i < 512,
    ensures
        cong(pow(root(i), 512), -1),
{
    lemma_psi();
    lemma_roots(1, 0, 512, i);
}

/// Position `i` of a transform belongs to the power of 49 whose exponent is odd
/// and has the nine binary digits of `i`, in reverse order, above the lowest.
pub proof fn law_root_at(i: int)
    requires
        0 <= i < 512,
    ensures
        ({
            let r = (i % 2) * 256 + (i / 2 % 2) * 128 + (i / 4 % 2) * 64 + (i / 8 % 2) * 32 + (i
                / 16 % 2) * 16 + (i / 32 % 2) * 8 + (i / 64 % 2) * 4 + (i / 128 % 2) * 2 + i / 256;
            root(i) == pow(49, (2 * r + 1) as nat)
        }),
{
    reveal_with_fuel(reversed, 10);
    assert(pow(2, 8) == 256 && pow(2, 7) == 128 && pow(2, 6) == 64 && pow(2, 5) == 32 && pow(2, 4)
        == 16 && pow(2, 3) == 8 && pow(2, 2) == 4 && pow(2, 1) == 2 && pow(2, 0) == 1) by {
        reveal_with_fuel(pow, 10);
    }
    assert(i / 2 / 2 == i / 4);
    assert(i / 4 / 2 == i / 8);
    assert(i / 8 / 2 == i / 16);
    assert(i / 16 / 2 == i / 32);
    assert(i / 32 / 2 == i / 64);
    assert(i / 64 / 2 == i / 128);
    assert(i / 128 / 2 == i / 256);
    assert(i / 256 % 2 == i / 256);
}

/// Coefficients keep their place and value, and are in range if and only if
/// there are 512 and none reaches 12289.
pub proof fn law_ints_at(r: Seq<u32>, i: int)
    requires
        0 <= i < r.len(),
    ensures
        ints(r).len() == r.len(),
        ints(r)[i] == r[i],
        in_range(r) <==> r.len() == 512 && forall|j: int|
            0 <= j < 512 ==> #[trigger] r[j] < 12289,
{
}

/// Coefficients as integers.
pub open spec fn ints(r: Seq<u32>) -> Seq<int> {
    Seq::new(r.len(), |i: int| r[i] as int)
}

/// 512 coefficients in `[0, q)`.
pub open spec fn in_range(r: Seq<u32>) -> bool {
    &&& r.len() == 512
    &&& forall|i: int| 0 <= i < 512 ==> #[trigger] r[i] < 12289
}

/// Factors of the butterflies, by tree node.
pub struct Twiddles {
    forward: [u32; 512],
    inverse: [u32; 512],
}

impl Twiddles {
    /// Node `k` holds the factor of its split and the inverse of the factor.
    pub closed spec fn wf(&self) -> bool {
        forall|k: int|
            1 <= k < 512 ==> {
                &&& #[trigger] self.forward@[k] < 12289
                &&& self.inverse@[k] < 12289
                &&& cong(self.forward@[k] as int, zeta(k))
                &&& cong(self.inverse@[k] * self.forward@[k], 1)
            }
    }

    /// Tabulates the factors.
    #[verifier::spinoff_prover]
    pub fn new() -> (r: Self)
        ensures
            r.wf(),
    {
        let mut powers: [u32; 513] = [0; 513];
        powers[0] = 1;
        let mut e: usize = 0;
        proof {
            vstd::arithmetic::power::lemma_pow0(49);
        }
        while e < 512
            invariant
                e <= 512,
                forall|i: int|
                    0 <= i <= e ==> #[trigger] powers@[i] < 12289 && cong(
                        powers@[i] as int,
                        pow(49, i as nat),
                    ),
            decreases 512 - e,
        {
            proof {
                lemma_pow1(49);
                lemma_pow_adds(49, e as nat, 1);
                assert(powers@[e as int] < 12289);
                lemma_cong_mul(powers@[e as int] as int, pow(49, e as nat), 49, 49);
            }
            let next: u32 = (powers[e] * PSI) % Q;
            e += 1;
            powers[e] = next;
        }

        // Half the exponent of each node.
        let mut exps: [usize; 512] = [0; 512];
        let mut forward: [u32; 512] = [0; 512];
        let mut inverse: [u32; 512] = [0; 512];
        let mut k: usize = 1;
        while k < 512
            invariant
                1 <= k <= 512,
                forall|i: int|
                    0 <= i <= 512 ==> #[trigger] powers@[i] < 12289 && cong(
                        powers@[i] as int,
                        pow(49, i as nat),
                    ),
                forall|i: int| 1 <= i < k ==> #[trigger] exps@[i] == node_exp(i) / 2,
                forall|i: int|
                    1 <= i < k ==> {
                        &&& #[trigger] forward@[i] < 12289
                        &&& inverse@[i] < 12289
                        &&& cong(forward@[i] as int, zeta(i))
                        &&& cong(inverse@[i] * forward@[i], 1)
                    },
            decreases 512 - k,
        {
            proof {
                lemma_node_exp_bound(k as int);
                assert(k > 1 ==> exps@[k as int / 2] == node_exp(k as int / 2) / 2);
            }
            let exp: usize = if k == 1 {
                256
            } else if k % 2 == 0 {
                exps[k / 2] / 2
            } else {
                exps[k / 2] / 2 + 256
            };
            assert(exp == node_exp(k as int) / 2);
            proof {
                let (a, b) = (powers@[exp as int], powers@[512 - exp]);
                lemma_psi();
                lemma_pow_adds(49, exp as nat, (512 - exp) as nat);
                assert(powers@[exp as int] < 12289);
                assert(powers@[512 - exp] < 12289);
                lemma_cong_mul(
                    a as int,
                    pow(49, exp as nat),
                    b as int,
                    pow(49, (512 - exp) as nat),
                );
                lemma_cong_scale(a as int, (12289 - b) % 12289, -b);
                assert(a * (-b) == -(a * b)) by (nonlinear_arith);
                assert(a * ((12289 - b) % 12289) == ((12289 - b) % 12289) * a)
                    by (nonlinear_arith);
            }
            exps[k] = exp;
            forward[k] = powers[exp];
            inverse[k] = (Q - powers[512 - exp]) % Q;
            assert(cong(inverse@[k as int] * forward@[k as int], 1));
            k += 1;
        }
        let r = Self { forward, inverse };
        assert forall|i: int| 1 <= i < 512 implies {
            &&& #[trigger] r.forward@[i] < 12289
            &&& r.inverse@[i] < 12289
            &&& cong(r.forward@[i] as int, zeta(i))
            &&& cong(r.inverse@[i] * r.forward@[i], 1)
        } by {
            assert(forward@[i] < 12289);
        }
        r
    }
}

/// Node exponents are below 1024, and halve along the tree.
proof fn lemma_node_exp_bound(k: int)
    requires
        1 <= k,
    ensures
        node_exp(k) < 1024,
        k > 1 ==> node_exp(k) / 2 == if k % 2 == 0 {
            node_exp(k / 2) / 2 / 2
        } else {
            node_exp(k / 2) / 2 / 2 + 256
        },
    decreases k,
{
    if k > 1 {
        lemma_node_exp_bound(k / 2);
    }
}

// ---------------------------------------------------------------------------
// Forward transform
// ---------------------------------------------------------------------------

/// Reduces the block `s .. s + 2t` into its two children, with factor `w`.
fn split_block(r: &mut [u32; 512], w: u32, s: usize, t: usize)
    requires
        in_range(old(r)@),
        w < 12289,
        s + 2 * t <= 512,
    ensures
        in_range(final(r)@),
        forall|p: int|
            s <= p < s + t ==> cong(
                #[trigger] final(r)@[p] as int,
                old(r)@[p] + w * old(r)@[p + t],
            ),
        forall|p: int|
            s + t <= p < s + 2 * t ==> cong(
                #[trigger] final(r)@[p] as int,
                old(r)@[p - t] - w * old(r)@[p],
            ),
        forall|p: int|
            0 <= p < 512 && !(s <= p < s + 2 * t) ==> #[trigger] final(r)@[p] == old(r)@[p],
{
    let mut j: usize = 0;
    while j < t
        invariant
            j <= t,
            s + 2 * t <= 512,
            w < 12289,
            in_range(r@),
            in_range(old(r)@),
            forall|p: int|
                s <= p < s + j ==> cong(#[trigger] r@[p] as int, old(r)@[p] + w * old(r)@[p + t]),
            forall|p: int|
                s + t <= p < s + t + j ==> cong(
                    #[trigger] r@[p] as int,
                    old(r)@[p - t] - w * old(r)@[p],
                ),
            forall|p: int|
                0 <= p < 512 && !(s <= p < s + j) && !(s + t <= p < s + t + j)
                    ==> #[trigger] r@[p] == old(r)@[p],
        decreases t - j,
    {
        let u: u32 = r[s + j];
        let x: u32 = r[s + t + j];
        assert(w * x <= 12288 * 12288) by (nonlinear_arith)
            requires
                w < 12289,
                x < 12289,
        ;
        let v: u32 = (w * x) % Q;
        r[s + j] = (u + v) % Q;
        r[s + t + j] = (u + Q - v) % Q;
        j += 1;
    }
}

/// The value at `z` of a block, from a child of the block.
proof fn lemma_split_eval(a: Seq<int>, c: Seq<int>, w: int, t: int, z: int)
    requires
        0 < t,
        a.len() == 2 * t,
        c.len() == t,
        forall|j: int| 0 <= j < t ==> cong(#[trigger] c[j], a[j] + w * a[t + j]),
        cong(pow(z, t as nat), w),
    ensures
        cong(eval(c, z), eval(a, z)),
{
    let lo = a.take(t);
    let hi = a.skip(t);
    assert(a =~= lo + hi);
    lemma_eval_split(lo, hi, z);
    let d = Seq::new(lo.len(), |j: int| lo[j] + w * hi[j]);
    lemma_eval_linear(lo, hi, w, z);
    lemma_eval_cong(c, d, z);
    lemma_cong_mul(pow(z, t as nat), w, eval(hi, z), eval(hi, z));
}

/// Transforms the block of node `k`, positions `s .. s + len`.
#[verifier::spinoff_prover]
fn forward_block(r: &mut [u32; 512], tw: &Twiddles, k: usize, s: usize, len: usize)
    requires
        tw.wf(),
        in_range(old(r)@),
        is_block(k as int, s as int, len as int),
    ensures
        in_range(final(r)@),
        forall|i: int|
            s <= i < s + len ==> cong(
                #[trigger] final(r)@[i] as int,
                eval(ints(old(r)@).subrange(s as int, s + len), root(i)),
            ),
        forall|i: int|
            0 <= i < 512 && !(s <= i < s + len) ==> #[trigger] final(r)@[i] == old(r)@[i],
    decreases len,
{
    let ghost start = r@;
    let ghost a = ints(start).subrange(s as int, s + len);
    if len == 1 {
        proof {
            vstd::arithmetic::power::lemma_pow0(root(s as int));
            assert(a.len() == 1);
            assert(a.drop_last().len() == 0);
            assert(eval(a.drop_last(), root(s as int)) == 0);
            assert(eval(a, root(s as int)) == a[0] * 1);
        }
    } else {
        proof {
            lemma_children(k as int, s as int, len as int);
            assert(tw.forward@[k as int] < 12289);
        }
        let t: usize = len / 2;
        let w: u32 = tw.forward[k];
        split_block(r, w, s, t);
        let ghost mid = r@;
        let ghost left = ints(mid).subrange(s as int, s + t);
        let ghost right = ints(mid).subrange(s + t, s + len);
        forward_block(r, tw, 2 * k, s, t);
        let ghost mid2 = r@;
        assert(ints(mid2).subrange(s + t, s + len) =~= right);
        forward_block(r, tw, 2 * k + 1, s + t, t);
        proof {
            assert forall|j: int| 0 <= j < t implies cong(
                #[trigger] left[j],
                a[j] + w * a[t + j],
            ) by {
                assert(left[j] == mid[s + j]);
            }
            assert forall|j: int| 0 <= j < t implies cong(
                #[trigger] right[j],
                a[j] + (-w) * a[t + j],
            ) by {
                assert(right[j] == mid[s + t + j]);
                let b = a[t + j];
                assert((-w) * b == -(w * b)) by (nonlinear_arith);
            }
            assert forall|i: int| s <= i < s + len implies cong(
                #[trigger] r@[i] as int,
                eval(a, root(i)),
            ) by {
                lemma_halves(k as int, s as int, len as int, i);
                if i < s + t {
                    assert(r@[i] == mid2[i]);
                    lemma_split_eval(a, left, w as int, t as int, root(i));
                } else {
                    lemma_split_eval(a, right, -w, t as int, root(i));
                }
            }
        }
    }
}

/// Forward transform: position `i` receives the value of the polynomial at
/// `root(i)`.
pub fn ntt(r: &mut [u32; 512], tw: &Twiddles)
    requires
        tw.wf(),
        in_range(old(r)@),
    ensures
        in_range(final(r)@),
        forall|i: int|
            0 <= i < 512 ==> #[trigger] final(r)@[i] == eval(ints(old(r)@), root(i)) % 12289,
{
    let ghost a = ints(r@);
    proof {
        assert(a.subrange(0, 512) =~= a);
    }
    forward_block(r, tw, 1, 0, N);
    assert forall|i: int| 0 <= i < 512 implies #[trigger] r@[i] == eval(a, root(i)) % 12289 by {
        assert(cong(r@[i] as int, eval(a, root(i))));
    }
}

// ---------------------------------------------------------------------------
// Inverse transform
// ---------------------------------------------------------------------------

/// Joins the children of the block `s .. s + 2t`, with factor `w`.
fn join_block(r: &mut [u32; 512], w: u32, s: usize, t: usize)
    requires
        in_range(old(r)@),
        w < 12289,
        s + 2 * t <= 512,
    ensures
        in_range(final(r)@),
        forall|p: int|
            s <= p < s + t ==> cong(#[trigger] final(r)@[p] as int, old(r)@[p] + old(r)@[p + t]),
        forall|p: int|
            s + t <= p < s + 2 * t ==> cong(
                #[trigger] final(r)@[p] as int,
                w * (old(r)@[p - t] - old(r)@[p]),
            ),
        forall|p: int|
            0 <= p < 512 && !(s <= p < s + 2 * t) ==> #[trigger] final(r)@[p] == old(r)@[p],
{
    let mut j: usize = 0;
    while j < t
        invariant
            j <= t,
            s + 2 * t <= 512,
            w < 12289,
            in_range(r@),
            in_range(old(r)@),
            forall|p: int|
                s <= p < s + j ==> cong(#[trigger] r@[p] as int, old(r)@[p] + old(r)@[p + t]),
            forall|p: int|
                s + t <= p < s + t + j ==> cong(
                    #[trigger] r@[p] as int,
                    w * (old(r)@[p - t] - old(r)@[p]),
                ),
            forall|p: int|
                0 <= p < 512 && !(s <= p < s + j) && !(s + t <= p < s + t + j)
                    ==> #[trigger] r@[p] == old(r)@[p],
        decreases t - j,
    {
        let u: u32 = r[s + j];
        let v: u32 = r[s + t + j];
        let d: u32 = (u + Q - v) % Q;
        proof {
            assert(w * d <= 12288 * 12288) by (nonlinear_arith)
                requires
                    w < 12289,
                    d < 12289,
            ;
            lemma_cong_scale(w as int, d as int, u - v);
        }
        r[s + j] = (u + v) % Q;
        r[s + t + j] = (w * d) % Q;
        j += 1;
    }
}

/// The value at `z` of a joined block, from its children `l` and `h`. The
/// factor is `w`, its inverse `v`, and `z^t` is `w` or `-w`.
#[verifier::spinoff_prover]
proof fn lemma_join_eval(
    c: Seq<int>,
    l: Seq<int>,
    h: Seq<int>,
    w: int,
    v: int,
    t: int,
    z: int,
)
    requires
        0 < t,
        c.len() == 2 * t,
        l.len() == t,
        h.len() == t,
        forall|j: int| 0 <= j < t ==> cong(#[trigger] c[j], l[j] + h[j]),
        forall|j: int| t <= j < 2 * t ==> cong(#[trigger] c[j], v * (l[j - t] - h[j - t])),
        cong(v * w, 1),
    ensures
        cong(pow(z, t as nat), w) ==> cong(eval(c, z), 2 * eval(l, z)),
        cong(pow(z, t as nat), -w) ==> cong(eval(c, z), 2 * eval(h, z)),
{
    let lo = c.take(t);
    let hi = c.skip(t);
    assert(c =~= lo + hi);
    lemma_eval_split(lo, hi, z);
    let p = pow(z, t as nat);
    let (x, y) = (eval(l, z), eval(h, z));

    let sum = Seq::new(l.len(), |j: int| l[j] + 1 * h[j]);
    lemma_eval_linear(l, h, 1, z);
    lemma_eval_cong(lo, sum, z);

    let diff = Seq::new(l.len(), |j: int| l[j] + (-1) * h[j]);
    lemma_eval_linear(l, h, -1, z);
    let zero = Seq::new(l.len(), |j: int| 0int);
    let scaled = Seq::new(zero.len(), |j: int| zero[j] + v * diff[j]);
    lemma_eval_linear(zero, diff, v, z);
    lemma_eval_zero(zero, z);
    assert forall|j: int| 0 <= j < t implies cong(#[trigger] hi[j], scaled[j]) by {
        assert(hi[j] == c[t + j]);
    }
    lemma_eval_cong(hi, scaled, z);
    assert(cong(eval(hi, z), v * (x - y)));

    lemma_cong_scale(p, eval(hi, z), v * (x - y));
    assert(p * (v * (x - y)) == (p * v) * (x - y)) by (nonlinear_arith);
    assert(w * v == v * w) by (nonlinear_arith);
    if cong(p, w) {
        lemma_cong_mul(p, w, v, v);
        lemma_cong_mul(p * v, 1, x - y, x - y);
    }
    if cong(p, -w) {
        lemma_cong_mul(p, -w, v, v);
        assert((-w) * v == -(v * w)) by (nonlinear_arith);
        lemma_cong_mul(p * v, -1, x - y, x - y);
    }
}

/// Undoes `forward_block`, up to the factor `len`.
#[verifier::spinoff_prover]
fn inverse_block(r: &mut [u32; 512], tw: &Twiddles, k: usize, s: usize, len: usize)
    requires
        tw.wf(),
        in_range(old(r)@),
        is_block(k as int, s as int, len as int),
    ensures
        in_range(final(r)@),
        forall|i: int|
            s <= i < s + len ==> cong(
                eval(ints(final(r)@).subrange(s as int, s + len), #[trigger] root(i)),
                len * old(r)@[i],
            ),
        forall|i: int|
            0 <= i < 512 && !(s <= i < s + len) ==> #[trigger] final(r)@[i] == old(r)@[i],
    decreases len,
{
    let ghost start = r@;
    if len == 1 {
        proof {
            let a = ints(start).subrange(s as int, s + len);
            vstd::arithmetic::power::lemma_pow0(root(s as int));
            assert(a.len() == 1);
            assert(a.drop_last().len() == 0);
            assert(eval(a.drop_last(), root(s as int)) == 0);
            assert(eval(a, root(s as int)) == a[0] * 1);
        }
    } else {
        proof {
            lemma_children(k as int, s as int, len as int);
            assert(tw.forward@[k as int] < 12289);
        }
        let t: usize = len / 2;
        let v: u32 = tw.inverse[k];
        inverse_block(r, tw, 2 * k, s, t);
        let ghost mid = r@;
        let ghost left = ints(mid).subrange(s as int, s + t);
        inverse_block(r, tw, 2 * k + 1, s + t, t);
        let ghost mid2 = r@;
        let ghost right = ints(mid2).subrange(s + t, s + len);
        assert(ints(mid2).subrange(s as int, s + t) =~= left);
        join_block(r, v, s, t);
        proof {
            let w = tw.forward@[k as int];
            let c = ints(r@).subrange(s as int, s + len);
            assert forall|j: int| 0 <= j < t implies cong(
                #[trigger] c[j],
                left[j] + right[j],
            ) by {
                assert(c[j] == r@[s + j]);
                assert(left[j] == mid2[s + j]);
                assert(right[j] == mid2[s + j + t]);
            }
            assert forall|j: int| t <= j < 2 * t implies cong(
                #[trigger] c[j],
                v * (left[j - t] - right[j - t]),
            ) by {
                assert(c[j] == r@[s + j]);
                assert(left[j - t] == mid2[s + j - t]);
                assert(right[j - t] == mid2[s + j]);
            }
            assert forall|i: int| s <= i < s + len implies cong(
                eval(c, #[trigger] root(i)),
                len * start[i],
            ) by {
                let z = root(i);
                lemma_halves(k as int, s as int, len as int, i);
                lemma_join_eval(c, left, right, w as int, v as int, t as int, z);
                let p = pow(z, t as nat);
                let x = start[i];
                assert(len * x == 2 * (t * x)) by (nonlinear_arith)
                    requires
                        len == 2 * t,
                ;
                if i < s + t {
                    assert(cong(eval(left, z), t * x));
                } else {
                    assert(mid[i] == start[i]);
                    assert(cong(eval(right, z), t * x));
                }
            }
        }
    }
}

/// Inverse transform without the factor `1 / 512`: the value of the result at
/// `root(i)` is 512 times position `i`.
pub fn inv_ntt(r: &mut [u32; 512], tw: &Twiddles)
    requires
        tw.wf(),
        in_range(old(r)@),
    ensures
        in_range(final(r)@),
        forall|i: int|
            0 <= i < 512 ==> cong(eval(ints(final(r)@), #[trigger] root(i)), 512 * old(r)@[i]),
{
    inverse_block(r, tw, 1, 0, N);
    proof {
        assert(ints(r@).subrange(0, 512) =~= ints(r@));
    }
}

// ---------------------------------------------------------------------------
// The transform loses nothing
// ---------------------------------------------------------------------------

proof fn lemma_injective_block(a: Seq<int>, b: Seq<int>, k: int, s: int, len: int)
    requires
        is_block(k, s, len),
        a.len() == len,
        b.len() == len,
        forall|i: int| s <= i < s + len ==> cong(eval(a, #[trigger] root(i)), eval(b, root(i))),
    ensures
        forall|j: int| 0 <= j < len ==> cong(#[trigger] a[j], b[j]),
    decreases len,
{
    if len == 1 {
        let z = root(s);
        vstd::arithmetic::power::lemma_pow0(z);
        assert(a.drop_last().len() == 0 && b.drop_last().len() == 0);
        assert(eval(a.drop_last(), z) == 0 && eval(b.drop_last(), z) == 0);
        assert(eval(a, z) == a[0] * 1);
        assert(eval(b, z) == b[0] * 1);
    } else {
        lemma_children(k, s, len);
        let t = len / 2;
        let w = zeta(k);
        let al = Seq::new(t as nat, |j: int| a[j] + w * a[t + j]);
        let bl = Seq::new(t as nat, |j: int| b[j] + w * b[t + j]);
        let ar = Seq::new(t as nat, |j: int| a[j] + (-w) * a[t + j]);
        let br = Seq::new(t as nat, |j: int| b[j] + (-w) * b[t + j]);
        assert forall|i: int| s <= i < s + t implies cong(
            eval(al, #[trigger] root(i)),
            eval(bl, root(i)),
        ) by {
            lemma_halves(k, s, len, i);
            lemma_split_eval(a, al, w, t, root(i));
            lemma_split_eval(b, bl, w, t, root(i));
        }
        assert forall|i: int| s + t <= i < s + len implies cong(
            eval(ar, #[trigger] root(i)),
            eval(br, root(i)),
        ) by {
            lemma_halves(k, s, len, i);
            lemma_split_eval(a, ar, -w, t, root(i));
            lemma_split_eval(b, br, -w, t, root(i));
        }
        lemma_injective_block(al, bl, 2 * k, s, t);
        lemma_injective_block(ar, br, 2 * k + 1, s + t, t);
        lemma_zeta_inverse(k);
        let v = -pow(49, (512 - node_exp(k) / 2) as nat);
        assert forall|j: int| 0 <= j < len implies cong(#[trigger] a[j], b[j]) by {
            let i = if j < t {
                j
            } else {
                j - t
            };
            let (x, y) = (a[t + i], b[t + i]);
            assert(cong(al[i], bl[i]));
            assert(cong(ar[i], br[i]));
            assert((-w) * x == -(w * x)) by (nonlinear_arith);
            assert((-w) * y == -(w * y)) by (nonlinear_arith);
            if j < t {
                lemma_cong_cancel(2, 6145, a[i], b[i]);
            } else {
                lemma_cong_cancel(2, 6145, w * x, w * y);
                lemma_cong_cancel(w, v, x, y);
            }
        }
    }
}

proof fn lemma_zeta_inverse(k: int)
    requires
        1 <= k,
    ensures
        node_exp(k) / 2 <= 512,
        cong(-pow(49, (512 - node_exp(k) / 2) as nat) * zeta(k), 1),
{
    lemma_node_exp_bound(k);
    let e = node_exp(k) / 2;
    let (x, y) = (pow(49, (512 - e) as nat), pow(49, e));
    lemma_psi();
    lemma_pow_adds(49, (512 - e) as nat, e);
    assert((-x) * y == -(x * y)) by (nonlinear_arith);
}

/// A reduced polynomial is determined by its values at the 512 roots.
pub proof fn law_values_determine(a: Seq<int>, b: Seq<int>)
    requires
        is_reduced(a),
        is_reduced(b),
        forall|i: int| 0 <= i < 512 ==> cong(eval(a, #[trigger] root(i)), eval(b, root(i))),
    ensures
        a == b,
{
    lemma_injective_block(a, b, 1, 0, 512);
    assert forall|j: int| 0 <= j < 512 implies a[j] == b[j] by {
        assert(cong(a[j], b[j]));
        assert(0 <= b[j] < 12289);
    }
    assert(a =~= b);
}

/// A polynomial whose values on a block are `len` times given ones.
proof fn lemma_interpolate_block(y: Seq<int>, k: int, s: int, len: int) -> (c: Seq<int>)
    requires
        is_block(k, s, len),
        y.len() == 512,
    ensures
        c.len() == len,
        forall|i: int| s <= i < s + len ==> cong(eval(c, #[trigger] root(i)), len * y[i]),
    decreases len,
{
    if len == 1 {
        let c = seq![y[s]];
        vstd::arithmetic::power::lemma_pow0(root(s));
        assert(c.drop_last().len() == 0);
        assert(eval(c.drop_last(), root(s)) == 0);
        assert(eval(c, root(s)) == y[s] * 1);
        c
    } else {
        lemma_children(k, s, len);
        lemma_zeta_inverse(k);
        let t = len / 2;
        let w = zeta(k);
        let v = -pow(49, (512 - node_exp(k) / 2) as nat);
        let l = lemma_interpolate_block(y, 2 * k, s, t);
        let h = lemma_interpolate_block(y, 2 * k + 1, s + t, t);
        let c = Seq::new(
            len as nat,
            |j: int|
                if j < t {
                    l[j] + h[j]
                } else {
                    v * (l[j - t] - h[j - t])
                },
        );
        assert forall|i: int| s <= i < s + len implies cong(
            eval(c, #[trigger] root(i)),
            len * y[i],
        ) by {
            let z = root(i);
            let x = y[i];
            lemma_halves(k, s, len, i);
            lemma_join_eval(c, l, h, w, v, t, z);
            assert(len * x == 2 * (t * x)) by (nonlinear_arith)
                requires
                    len == 2 * t,
            ;
            if i < s + t {
                assert(cong(eval(l, z), t * x));
            } else {
                assert(cong(eval(h, z), t * x));
            }
        }
        c
    }
}

/// Any 512 numbers are, up to the factor 512, the values of some reduced
/// polynomial at the roots.
pub proof fn law_values_exist(y: Seq<int>)
    requires
        y.len() == 512,
    ensures
        exists|t: Seq<int>| #[trigger]
            is_reduced(t) && forall|i: int|
                0 <= i < 512 ==> cong(eval(t, #[trigger] root(i)), 512 * y[i]),
{
    let c = lemma_interpolate_block(y, 1, 0, 512);
    let t = Seq::new(512, |j: int| c[j] % 12289);
    assert forall|i: int| 0 <= i < 512 implies cong(eval(t, #[trigger] root(i)), 512 * y[i]) by {
        lemma_eval_cong(t, c, root(i));
        assert(cong(eval(c, root(i)), 512 * y[i]));
    }
    assert(is_reduced(t));
}

/// The inverse transform undoes the transform, up to the factor 512.
pub proof fn law_inverse_undoes(a: Seq<int>, t: Seq<int>)
    requires
        is_reduced(a),
        is_reduced(t),
        forall|i: int|
            0 <= i < 512 ==> cong(
                eval(t, #[trigger] root(i)),
                512 * (eval(a, root(i)) % 12289),
            ),
    ensures
        t == Seq::new(512, |j: int| (512 * a[j]) % 12289),
{
    let b = Seq::new(512, |j: int| (512 * a[j]) % 12289);
    let zero = Seq::new(512, |j: int| 0int);
    let c = Seq::new(512, |j: int| zero[j] + 512 * a[j]);
    assert forall|i: int| 0 <= i < 512 implies cong(
        eval(t, #[trigger] root(i)),
        eval(b, root(i)),
    ) by {
        let z = root(i);
        lemma_eval_linear(zero, a, 512, z);
        lemma_eval_zero(zero, z);
        lemma_eval_cong(b, c, z);
        lemma_cong_scale(512, eval(a, z) % 12289, eval(a, z));
    }
    law_values_determine(t, b);
}

} // verus!
