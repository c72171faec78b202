//! SHAKE-256 over Keccak-f[1600].
//!
//! The permutation is stated step by step (theta, rho, pi, chi, iota) on a
//! sequence of 25 lanes, lane `(x, y)` at index `x + 5 * y`. The executable
//! round works on a lane-complemented state and is proved equal to it.
use vstd::arithmetic::power2::{lemma2_to64, lemma2_to64_rest, pow2};
use vstd::bits::{lemma_u64_shl_is_mul, lemma_u64_shr_is_div};
use vstd::prelude::*;

verus! {

/// Round constants of the iota step.
pub const RC: [u64; 24] = [
    0x0000000000000001,
    0x0000000000008082,
    0x800000000000808a,
    0x8000000080008000,
    0x000000000000808b,
    0x0000000080000001,
    0x8000000080008081,
    0x8000000000008009,
    0x000000000000008a,
    0x0000000000000088,
    0x0000000080008009,
    0x000000008000000a,
    0x000000008000808b,
    0x800000000000008b,
    0x8000000000008089,
    0x8000000000008003,
    0x8000000000008002,
    0x8000000000000080,
    0x000000000000800a,
    0x800000008000000a,
    0x8000000080008081,
    0x8000000000008080,
    0x0000000080000001,
    0x8000000080008008,
];

/// Rotation offsets of the rho step, by lane index.
pub const RHO: [u64; 25] = [
    0, 1, 62, 28, 27,
    36, 44, 6, 55, 20,
    3, 10, 43, 25, 39,
    41, 45, 15, 21, 8,
    18, 2, 61, 56, 14,
];

/// Bytes absorbed or squeezed between two permutations.
pub const RATE: usize = 136;

/// Lanes that make up the rate.
pub const RATE_LANES: usize = 17;

// ---------------------------------------------------------------------------
// Keccak-f[1600] on lanes
// ---------------------------------------------------------------------------

/// `x` rotated left by `n < 64` bits.
pub open spec fn rotl(x: u64, n: u64) -> u64 {
    if n == 0 {
        x
    } else {
        (x << n) | (x >> ((64 - n) as u64))
    }
}

/// XOR of the five lanes of column `x`.
pub open spec fn column_parity(s: Seq<u64>, x: int) -> u64 {
    s[x] ^ s[x + 5] ^ s[x + 10] ^ s[x + 15] ^ s[x + 20]
}

/// What theta adds to every lane of column `x`.
pub open spec fn theta_effect(s: Seq<u64>, x: int) -> u64 {
    column_parity(s, (x + 4) % 5) ^ rotl(column_parity(s, (x + 1) % 5), 1)
}

pub open spec fn theta(s: Seq<u64>) -> Seq<u64> {
    Seq::new(25, |i: int| s[i] ^ theta_effect(s, i % 5))
}

pub open spec fn rho(s: Seq<u64>) -> Seq<u64> {
    Seq::new(25, |i: int| rotl(s[i], RHO@[i]))
}

/// Lane `(x, y)` of the result is lane `(x + 3y, x)` of the argument.
pub open spec fn pi(s: Seq<u64>) -> Seq<u64> {
    Seq::new(25, |i: int| s[(i % 5 + 3 * (i / 5)) % 5 + 5 * (i % 5)])
}

pub open spec fn chi(s: Seq<u64>) -> Seq<u64> {
    Seq::new(
        25,
        |i: int|
            s[i] ^ (!s[(i % 5 + 1) % 5 + 5 * (i / 5)] & s[(i % 5 + 2) % 5 + 5 * (i / 5)]),
    )
}

pub open spec fn iota(s: Seq<u64>, rc: u64) -> Seq<u64> {
    s.update(0, s[0] ^ rc)
}

/// One round of Keccak-f[1600].
pub open spec fn keccak_round(s: Seq<u64>, rc: u64) -> Seq<u64> {
    iota(chi(pi(rho(theta(s)))), rc)
}

/// The first `n` rounds of Keccak-f[1600].
pub open spec fn keccak_rounds(s: Seq<u64>, n: nat) -> Seq<u64>
    decreases n,
{
    if n == 0 {
        s
    } else {
        keccak_round(keccak_rounds(s, (n - 1) as nat), RC@[n - 1])
    }
}

/// The permutation Keccak-f[1600].
#[verifier::opaque]
pub open spec fn keccak_f(s: Seq<u64>) -> Seq<u64> {
    keccak_rounds(s, 24)
}

/// Rotating left by `n` takes bit `z - n` to bit `z`, counted modulo 64.
pub proof fn law_rotl_bit(x: u64, n: u64, z: u64)
    requires
        n < 64,
        z < 64,
    ensures
        (rotl(x, n) >> z) & 1 == (x >> (((z + 64 - n) % 64) as u64)) & 1,
{
    let from = ((z + 64 - n) % 64) as u64;
    if n == 0 {
        assert(from == z);
    } else {
        let m = (64 - n) as u64;
        assert((((x << n) | (x >> m)) >> z) & 1 == (x >> from) & 1) by (bit_vector)
            requires
                0 < n < 64,
                z < 64,
                m == 64 - n,
                from == (if z >= n {
                    z - n
                } else {
                    z + 64 - n
                }),
        ;
    }
}

/// One round, lane by lane. Column parities are added to the lanes of the
/// neighbouring columns; lane `(x, y)`, rotated, goes to `(y, 2x + 3y)`; every
/// lane then takes in the two after it in its row; the round constant goes into
/// the first lane.
#[verifier::spinoff_prover]
pub proof fn law_keccak_round(s: Seq<u64>, rc: u64, b: Seq<u64>, j: int)
    requires
        s.len() == 25,
        b.len() == 25,
        0 <= j < 25,
        forall|i: int|
            0 <= i < 25 ==> b[i / 5 + 5 * ((2 * (i % 5) + 3 * (i / 5)) % 5)] == rotl(
                s[i] ^ ({
                    let x = (i % 5 + 4) % 5;
                    s[x] ^ s[x + 5] ^ s[x + 10] ^ s[x + 15] ^ s[x + 20]
                } ^ rotl(
                    {
                        let x = (i % 5 + 1) % 5;
                        s[x] ^ s[x + 5] ^ s[x + 10] ^ s[x + 15] ^ s[x + 20]
                    },
                    1,
                )),
                #[trigger] RHO@[i],
            ),
    ensures
        keccak_round(s, rc).len() == 25,
        keccak_round(s, rc)[j] == (b[j] ^ (!b[(j + 1) % 5 + 5 * (j / 5)] & b[(j + 2) % 5 + 5 * (j
            / 5)])) ^ (if j == 0 {
            rc
        } else {
            0
        }),
{
    let moved = pi(rho(theta(s)));
    assert forall|k: int| 0 <= k < 25 implies #[trigger] moved[k] == b[k] by {
        let i = (k % 5 + 3 * (k / 5)) % 5 + 5 * (k % 5);
        lemma_pi_index(k);
        lemma_moved_lane(s, k);
        let offset = RHO@[i];
        assert(b[k] == rotl(s[i] ^ theta_effect(s, i % 5), offset));
    }
    assert(moved =~= b);
    lemma_chi_iota(b, rc, j);
}

proof fn lemma_moved_lane(s: Seq<u64>, k: int)
    requires
        0 <= k < 25,
    ensures
        ({
            let i = (k % 5 + 3 * (k / 5)) % 5 + 5 * (k % 5);
            pi(rho(theta(s)))[k] == rotl(s[i] ^ theta_effect(s, i % 5), RHO@[i])
        }),
{
    let i = (k % 5 + 3 * (k / 5)) % 5 + 5 * (k % 5);
    lemma_pi_index(k);
    let (a, b) = (theta(s), rho(theta(s)));
    assert(a[i] == s[i] ^ theta_effect(s, i % 5));
    assert(b[i] == rotl(a[i], RHO@[i]));
    assert(pi(b)[k] == b[i]);
}

proof fn lemma_chi_iota(b: Seq<u64>, rc: u64, j: int)
    requires
        b.len() == 25,
        0 <= j < 25,
    ensures
        iota(chi(b), rc).len() == 25,
        iota(chi(b), rc)[j] == (b[j] ^ (!b[(j + 1) % 5 + 5 * (j / 5)] & b[(j + 2) % 5 + 5 * (j
            / 5)])) ^ (if j == 0 {
            rc
        } else {
            0
        }),
{
    assert((j % 5 + 1) % 5 == (j + 1) % 5 && (j % 5 + 2) % 5 == (j + 2) % 5);
    let e = chi(b)[j];
    assert(e ^ 0u64 == e) by (bit_vector);
}

/// The lane that pi takes to place `k`.
proof fn lemma_pi_index(k: int)
    requires
        0 <= k < 25,
    ensures
        ({
            let i = (k % 5 + 3 * (k / 5)) % 5 + 5 * (k % 5);
            &&& 0 <= i < 25
            &&& i / 5 + 5 * ((2 * (i % 5) + 3 * (i / 5)) % 5) == k
        }),
{
    let (x, y) = (k % 5, k / 5);
    let u = (x + 3 * y) % 5;
    let i = u + 5 * x;
    let w = (x + 3 * y) / 5;
    assert(2 * u + 3 * x == 5 * (x + y - 2 * w) + y);
    assert(i % 5 == u && i / 5 == x);
}

/// Keccak-f[1600] is one round for each constant, in order.
pub proof fn law_keccak_f(s: Seq<u64>)
    requires
        s.len() == 25,
    ensures
        keccak_f(s).len() == 25,
        keccak_f(s) == RC@.fold_left(s, |a: Seq<u64>, rc: u64| keccak_round(a, rc)),
{
    let f = |a: Seq<u64>, rc: u64| keccak_round(a, rc);
    lemma_keccak_f_len(s);
    reveal(keccak_f);
    lemma_rounds_fold(s, RC@, f);
}

proof fn lemma_rounds_fold(s: Seq<u64>, rcs: Seq<u64>, f: spec_fn(Seq<u64>, u64) -> Seq<u64>)
    requires
        rcs.len() <= 24,
        forall|i: int| 0 <= i < rcs.len() ==> #[trigger] rcs[i] == RC@[i],
        forall|a: Seq<u64>, rc: u64| #[trigger] f(a, rc) == keccak_round(a, rc),
    ensures
        keccak_rounds(s, rcs.len()) == rcs.fold_left(s, f),
    decreases rcs.len(),
{
    if rcs.len() > 0 {
        let fewer = rcs.drop_last();
        assert forall|i: int| 0 <= i < fewer.len() implies #[trigger] fewer[i] == RC@[i] by {
            assert(rcs[i] == fewer[i]);
        }
        lemma_rounds_fold(s, fewer, f);
        assert(rcs[rcs.len() - 1] == rcs.last());
    }
}

// ---------------------------------------------------------------------------
// Lane complementing
// ---------------------------------------------------------------------------

/// Lanes that the executable rounds hold complemented.
spec fn is_complemented(i: int) -> bool {
    i == 1 || i == 2 || i == 8 || i == 12 || i == 17 || i == 20
}

spec fn complement(s: Seq<u64>) -> Seq<u64> {
    Seq::new(25, |i: int| if is_complemented(i) { !s[i] } else { s[i] })
}

proof fn lemma_complement_involutive(s: Seq<u64>)
    requires
        s.len() == 25,
    ensures
        complement(complement(s)) == s,
{
    assert forall|x: u64| #[trigger] (!(!x)) == x by {
        assert(!(!x) == x) by (bit_vector);
    }
    assert(complement(complement(s)) =~= s);
}

proof fn lemma_parity_not(a: u64, b: u64, c: u64, d: u64, e: u64)
    by (bit_vector)
    ensures
        a ^ b ^ c ^ d ^ !e == !(a ^ b ^ c ^ d ^ e),
        !a ^ b ^ c ^ d ^ e == !(a ^ b ^ c ^ d ^ e),
        a ^ !b ^ c ^ d ^ e == !(a ^ b ^ c ^ d ^ e),
        !a ^ b ^ !c ^ !d ^ e == !(a ^ b ^ c ^ d ^ e),
{
}

proof fn lemma_xor_not(a: u64, b: u64)
    by (bit_vector)
    ensures
        !a ^ b == !(a ^ b),
        a ^ !b == !(a ^ b),
        !a ^ !b == a ^ b,
        !(!a) == a,
{
}

proof fn lemma_rotl_not(x: u64, n: u64)
    requires
        n < 64,
    ensures
        rotl(!x, n) == !rotl(x, n),
{
    if n != 0 {
        let m = (64 - n) as u64;
        assert((!x << n) | (!x >> m) == !((x << n) | (x >> m))) by (bit_vector)
            requires
                0 < n < 64,
                m == 64 - n,
        ;
    }
}

/// Chi on row 0 with lanes 0, 2, 3 complemented on entry and 1, 2 on exit.
proof fn lemma_chi_row0(b0: u64, b1: u64, b2: u64, b3: u64, b4: u64)
    by (bit_vector)
    ensures
        !b0 ^ (b1 | !b2) == b0 ^ (!b1 & b2),
        b1 ^ (!(!b2) | !b3) == !(b1 ^ (!b2 & b3)),
        !b2 ^ (!b3 & b4) == !(b2 ^ (!b3 & b4)),
        !b3 ^ (b4 | !b0) == b3 ^ (!b4 & b0),
        b4 ^ (!b0 & b1) == b4 ^ (!b0 & b1),
{
}

/// Chi on row 1 with lanes 0, 2 complemented on entry and 3 on exit.
proof fn lemma_chi_row1(b0: u64, b1: u64, b2: u64, b3: u64, b4: u64)
    by (bit_vector)
    ensures
        !b0 ^ (b1 | !b2) == b0 ^ (!b1 & b2),
        b1 ^ (!b2 & b3) == b1 ^ (!b2 & b3),
        !(!b2) ^ b4 ^ (b3 & b4) == b2 ^ (!b3 & b4),
        b3 ^ (b4 | !b0) == !(b3 ^ (!b4 & b0)),
        b4 ^ (!b0 & b1) == b4 ^ (!b0 & b1),
{
}

/// Chi on row 2 with lanes 0, 2 complemented on entry and 2 on exit.
proof fn lemma_chi_row2(b0: u64, b1: u64, b2: u64, b3: u64, b4: u64)
    by (bit_vector)
    ensures
        !b0 ^ (b1 | !b2) == b0 ^ (!b1 & b2),
        b1 ^ (!b2 & b3) == b1 ^ (!b2 & b3),
        !b2 ^ b4 ^ (b3 & b4) == !(b2 ^ (!b3 & b4)),
        b3 ^ !(b4 | !b0) == b3 ^ (!b4 & b0),
        b4 ^ (!b0 & b1) == b4 ^ (!b0 & b1),
{
}

/// Chi on row 3 with lanes 1, 3, 4 complemented on entry and 2 on exit.
proof fn lemma_chi_row3(b0: u64, b1: u64, b2: u64, b3: u64, b4: u64)
    by (bit_vector)
    ensures
        b0 ^ (!b1 & b2) == b0 ^ (!b1 & b2),
        !b1 ^ (b2 | !b3) == b1 ^ (!b2 & b3),
        b2 ^ (!(!b3) | !b4) == !(b2 ^ (!b3 & b4)),
        !(!b3) ^ (!b4 & b0) == b3 ^ (!b4 & b0),
        !b4 ^ (b0 | !b1) == b4 ^ (!b0 & b1),
{
}

/// Chi on row 4 with lanes 0, 3 complemented on entry and 0 on exit.
proof fn lemma_chi_row4(b0: u64, b1: u64, b2: u64, b3: u64, b4: u64)
    by (bit_vector)
    ensures
        !b0 ^ b2 ^ (b1 & b2) == !(b0 ^ (!b1 & b2)),
        b1 ^ !(b2 | !b3) == b1 ^ (!b2 & b3),
        b2 ^ (!b3 & b4) == b2 ^ (!b3 & b4),
        !b3 ^ (b4 | !b0) == b3 ^ (!b4 & b0),
        b4 ^ (!b0 & b1) == b4 ^ (!b0 & b1),
{
}

/// `x` rotated left by `n` bits, `0 < n < 64`.
fn rotate(x: u64, n: u64) -> (r: u64)
    requires
        0 < n < 64,
    ensures
        r == rotl(x, n),
{
    (x << n) | (x >> (64 - n))
}

/// Theta effects seen through the complemented lanes: columns 0 and 3 come out
/// complemented.
proof fn lemma_theta_effects(a: Seq<u64>)
    requires
        a.len() == 25,
    ensures
        column_parity(a, 4) ^ rotl(column_parity(a, 1), 1) == !theta_effect(complement(a), 0),
        column_parity(a, 0) ^ rotl(column_parity(a, 2), 1) == theta_effect(complement(a), 1),
        column_parity(a, 1) ^ rotl(column_parity(a, 3), 1) == theta_effect(complement(a), 2),
        column_parity(a, 2) ^ rotl(column_parity(a, 4), 1) == !theta_effect(complement(a), 3),
        column_parity(a, 3) ^ rotl(column_parity(a, 0), 1) == theta_effect(complement(a), 4),
{
    let l = complement(a);
    lemma_parity_not(a[0], a[5], a[10], a[15], a[20]);
    lemma_parity_not(a[1], a[6], a[11], a[16], a[21]);
    lemma_parity_not(a[2], a[7], a[12], a[17], a[22]);
    lemma_parity_not(a[3], a[8], a[13], a[18], a[23]);
    let p0 = column_parity(a, 0);
    let p1 = column_parity(a, 1);
    let p2 = column_parity(a, 2);
    let p3 = column_parity(a, 3);
    let p4 = column_parity(a, 4);
    assert(column_parity(l, 0) == !p0);
    assert(column_parity(l, 1) == !p1);
    assert(column_parity(l, 2) == !p2);
    assert(column_parity(l, 3) == !p3);
    assert(column_parity(l, 4) == p4);
    lemma_rotl_not(p0, 1);
    lemma_rotl_not(p1, 1);
    lemma_rotl_not(p2, 1);
    lemma_rotl_not(p3, 1);
    lemma_xor_not(p4, rotl(p1, 1));
    lemma_xor_not(p0, rotl(p2, 1));
    lemma_xor_not(p1, rotl(p3, 1));
    lemma_xor_not(p2, rotl(p4, 1));
    lemma_xor_not(p3, rotl(p0, 1));
    lemma_xor_not(p4 ^ rotl(p1, 1), 0);
    lemma_xor_not(p2 ^ rotl(p4, 1), 0);
}

/// A lane after theta and rho, from the stored lane `i` of `a` and the stored
/// theta effect `d` of its column.
proof fn lemma_lane(a: Seq<u64>, i: int, d: u64)
    requires
        a.len() == 25,
        0 <= i < 25,
        i % 5 == 0 || i % 5 == 3 ==> d == !theta_effect(complement(a), i % 5),
        !(i % 5 == 0 || i % 5 == 3) ==> d == theta_effect(complement(a), i % 5),
    ensures
        ({
            let t = rotl(complement(a)[i] ^ theta_effect(complement(a), i % 5), RHO@[i]);
            rotl(a[i] ^ d, RHO@[i]) == if is_complemented(i) != (i % 5 == 0 || i % 5 == 3) {
                !t
            } else {
                t
            }
        }),
{
    let v = theta_effect(complement(a), i % 5);
    let w = complement(a)[i];
    lemma_xor_not(a[i], v);
    lemma_xor_not(w, v);
    assert(RHO@[i] < 64);
    lemma_rotl_not(w ^ v, RHO@[i]);
}

/// One round on a lane-complemented state.
#[verifier::spinoff_prover]
fn round(s: &mut [u64; 25], rc: u64)
    ensures
        complement(final(s)@) == keccak_round(complement(old(s)@), rc),
{
    let ghost a = s@;
    let ghost l = complement(s@);
    let ghost b = pi(rho(theta(l)));
    let ghost e = chi(b);

    // theta: column parities
    let c0: u64 = s[0] ^ s[5] ^ s[10] ^ s[15] ^ s[20];
    let c1: u64 = s[1] ^ s[6] ^ s[11] ^ s[16] ^ s[21];
    let c2: u64 = s[2] ^ s[7] ^ s[12] ^ s[17] ^ s[22];
    let c3: u64 = s[3] ^ s[8] ^ s[13] ^ s[18] ^ s[23];
    let c4: u64 = s[4] ^ s[9] ^ s[14] ^ s[19] ^ s[24];

    let d0: u64 = c4 ^ rotate(c1, 1);
    let d1: u64 = c0 ^ rotate(c2, 1);
    let d2: u64 = c1 ^ rotate(c3, 1);
    let d3: u64 = c2 ^ rotate(c4, 1);
    let d4: u64 = c3 ^ rotate(c0, 1);

    proof {
        assert forall|x: u64| #[trigger] (!(!x)) == x by {
            lemma_xor_not(x, x);
        }
        lemma_theta_effects(a);
    }

    // Row 0 overwrites lanes that later rows still read.
    let s3: u64 = s[3];
    let s1: u64 = s[1];
    let s4: u64 = s[4];
    let s2: u64 = s[2];
    // Row 0
    {
        let b0: u64 = s[0] ^ d0;
        let b1: u64 = rotate(s[6] ^ d1, 44);
        let b2: u64 = rotate(s[12] ^ d2, 43);
        let b3: u64 = rotate(s[18] ^ d3, 21);
        let b4: u64 = rotate(s[24] ^ d4, 14);
        proof {
            lemma_lane(a, 0, d0);
            assert(b[0] == rotl(l[0] ^ theta_effect(l, 0), RHO@[0]));
            lemma_lane(a, 6, d1);
            assert(b[1] == rotl(l[6] ^ theta_effect(l, 1), RHO@[6]));
            lemma_lane(a, 12, d2);
            assert(b[2] == rotl(l[12] ^ theta_effect(l, 2), RHO@[12]));
            lemma_lane(a, 18, d3);
            assert(b[3] == rotl(l[18] ^ theta_effect(l, 3), RHO@[18]));
            lemma_lane(a, 24, d4);
            assert(b[4] == rotl(l[24] ^ theta_effect(l, 4), RHO@[24]));
            lemma_chi_row0(b[0], b[1], b[2], b[3], b[4]);
            assert(b0 == !b[0]);
            assert(b1 == b[1]);
            assert(b2 == !b[2]);
            assert(b3 == !b[3]);
            assert(b4 == b[4]);
        }
        s[0] = b0 ^ (b1 | b2) ^ rc;
        s[1] = b1 ^ ((!b2) | b3);
        s[2] = b2 ^ (b3 & b4);
        s[3] = b3 ^ (b4 | b0);
        s[4] = b4 ^ (b0 & b1);
        proof {
            assert(s@[0] == e[0] ^ rc);
            assert(s@[1] == !e[1]);
            assert(s@[2] == !e[2]);
            assert(s@[3] == e[3]);
            assert(s@[4] == e[4]);
        }
    }
    // Row 1 overwrites lanes that later rows still read.
    let s7: u64 = s[7];
    let s5: u64 = s[5];
    let s8: u64 = s[8];
    // Row 1
    {
        let b0: u64 = rotate(s3 ^ d3, 28);
        let b1: u64 = rotate(s[9] ^ d4, 20);
        let b2: u64 = rotate(s[10] ^ d0, 3);
        let b3: u64 = rotate(s[16] ^ d1, 45);
        let b4: u64 = rotate(s[22] ^ d2, 61);
        proof {
            lemma_lane(a, 3, d3);
            assert(b[5] == rotl(l[3] ^ theta_effect(l, 3), RHO@[3]));
            lemma_lane(a, 9, d4);
            assert(b[6] == rotl(l[9] ^ theta_effect(l, 4), RHO@[9]));
            lemma_lane(a, 10, d0);
            assert(b[7] == rotl(l[10] ^ theta_effect(l, 0), RHO@[10]));
            lemma_lane(a, 16, d1);
            assert(b[8] == rotl(l[16] ^ theta_effect(l, 1), RHO@[16]));
            lemma_lane(a, 22, d2);
            assert(b[9] == rotl(l[22] ^ theta_effect(l, 2), RHO@[22]));
            lemma_chi_row1(b[5], b[6], b[7], b[8], b[9]);
            assert(b0 == !b[5]);
            assert(b1 == b[6]);
            assert(b2 == !b[7]);
            assert(b3 == b[8]);
            assert(b4 == b[9]);
        }
        s[5] = b0 ^ (b1 | b2);
        s[6] = b1 ^ (b2 & b3);
        s[7] = (!b2) ^ b4 ^ (b3 & b4);
        s[8] = b3 ^ (b4 | b0);
        s[9] = b4 ^ (b0 & b1);
        proof {
            assert(s@[5] == e[5]);
            assert(s@[6] == e[6]);
            assert(s@[7] == e[7]);
            assert(s@[8] == !e[8]);
            assert(s@[9] == e[9]);
        }
    }
    // Row 2 overwrites lanes that later rows still read.
    let s11: u64 = s[11];
    let s14: u64 = s[14];
    // Row 2
    {
        let b0: u64 = rotate(s1 ^ d1, 1);
        let b1: u64 = rotate(s7 ^ d2, 6);
        let b2: u64 = rotate(s[13] ^ d3, 25);
        let b3: u64 = rotate(s[19] ^ d4, 8);
        let b4: u64 = rotate(s[20] ^ d0, 18);
        proof {
            lemma_lane(a, 1, d1);
            assert(b[10] == rotl(l[1] ^ theta_effect(l, 1), RHO@[1]));
            lemma_lane(a, 7, d2);
            assert(b[11] == rotl(l[7] ^ theta_effect(l, 2), RHO@[7]));
            lemma_lane(a, 13, d3);
            assert(b[12] == rotl(l[13] ^ theta_effect(l, 3), RHO@[13]));
            lemma_lane(a, 19, d4);
            assert(b[13] == rotl(l[19] ^ theta_effect(l, 4), RHO@[19]));
            lemma_lane(a, 20, d0);
            assert(b[14] == rotl(l[20] ^ theta_effect(l, 0), RHO@[20]));
            lemma_chi_row2(b[10], b[11], b[12], b[13], b[14]);
            assert(b0 == !b[10]);
            assert(b1 == b[11]);
            assert(b2 == !b[12]);
            assert(b3 == b[13]);
            assert(b4 == b[14]);
        }
        s[10] = b0 ^ (b1 | b2);
        s[11] = b1 ^ (b2 & b3);
        s[12] = b2 ^ b4 ^ (b3 & b4);
        s[13] = b3 ^ !(b4 | b0);
        s[14] = b4 ^ (b0 & b1);
        proof {
            assert(s@[10] == e[10]);
            assert(s@[11] == e[11]);
            assert(s@[12] == !e[12]);
            assert(s@[13] == e[13]);
            assert(s@[14] == e[14]);
        }
    }
    // Row 3 overwrites lanes that later rows still read.
    let s15: u64 = s[15];
    // Row 3
    {
        let b0: u64 = rotate(s4 ^ d4, 27);
        let b1: u64 = rotate(s5 ^ d0, 36);
        let b2: u64 = rotate(s11 ^ d1, 10);
        let b3: u64 = rotate(s[17] ^ d2, 15);
        let b4: u64 = rotate(s[23] ^ d3, 56);
        proof {
            lemma_lane(a, 4, d4);
            assert(b[15] == rotl(l[4] ^ theta_effect(l, 4), RHO@[4]));
            lemma_lane(a, 5, d0);
            assert(b[16] == rotl(l[5] ^ theta_effect(l, 0), RHO@[5]));
            lemma_lane(a, 11, d1);
            assert(b[17] == rotl(l[11] ^ theta_effect(l, 1), RHO@[11]));
            lemma_lane(a, 17, d2);
            assert(b[18] == rotl(l[17] ^ theta_effect(l, 2), RHO@[17]));
            lemma_lane(a, 23, d3);
            assert(b[19] == rotl(l[23] ^ theta_effect(l, 3), RHO@[23]));
            lemma_chi_row3(b[15], b[16], b[17], b[18], b[19]);
            assert(b0 == b[15]);
            assert(b1 == !b[16]);
            assert(b2 == b[17]);
            assert(b3 == !b[18]);
            assert(b4 == !b[19]);
        }
        s[15] = b0 ^ (b1 & b2);
        s[16] = b1 ^ (b2 | b3);
        s[17] = b2 ^ ((!b3) | b4);
        s[18] = (!b3) ^ (b4 & b0);
        s[19] = b4 ^ (b0 | b1);
        proof {
            assert(s@[15] == e[15]);
            assert(s@[16] == e[16]);
            assert(s@[17] == !e[17]);
            assert(s@[18] == e[18]);
            assert(s@[19] == e[19]);
        }
    }
    // Row 4
    {
        let b0: u64 = rotate(s2 ^ d2, 62);
        let b1: u64 = rotate(s8 ^ d3, 55);
        let b2: u64 = rotate(s14 ^ d4, 39);
        let b3: u64 = rotate(s15 ^ d0, 41);
        let b4: u64 = rotate(s[21] ^ d1, 2);
        proof {
            lemma_lane(a, 2, d2);
            assert(b[20] == rotl(l[2] ^ theta_effect(l, 2), RHO@[2]));
            lemma_lane(a, 8, d3);
            assert(b[21] == rotl(l[8] ^ theta_effect(l, 3), RHO@[8]));
            lemma_lane(a, 14, d4);
            assert(b[22] == rotl(l[14] ^ theta_effect(l, 4), RHO@[14]));
            lemma_lane(a, 15, d0);
            assert(b[23] == rotl(l[15] ^ theta_effect(l, 0), RHO@[15]));
            lemma_lane(a, 21, d1);
            assert(b[24] == rotl(l[21] ^ theta_effect(l, 1), RHO@[21]));
            lemma_chi_row4(b[20], b[21], b[22], b[23], b[24]);
            assert(b0 == !b[20]);
            assert(b1 == b[21]);
            assert(b2 == b[22]);
            assert(b3 == !b[23]);
            assert(b4 == b[24]);
        }
        s[20] = b0 ^ b2 ^ (b1 & b2);
        s[21] = b1 ^ !(b2 | b3);
        s[22] = b2 ^ (b3 & b4);
        s[23] = b3 ^ (b4 | b0);
        s[24] = b4 ^ (b0 & b1);
        proof {
            assert(s@[20] == !e[20]);
            assert(s@[21] == e[21]);
            assert(s@[22] == e[22]);
            assert(s@[23] == e[23]);
            assert(s@[24] == e[24]);
        }
    }
    proof {
        assert(complement(s@) =~= iota(e, rc));
    }
}

/// Keccak-f[1600] in place.
///
/// Six lanes are complemented on entry and restored on exit. The pattern is
/// kept by every round, and saves most of the negations of chi.
pub fn keccak_f1600(s: &mut [u64; 25])
    ensures
        final(s)@ == keccak_f(old(s)@),
{
    let ghost start = s@;
    complement_lanes(s);
    proof {
        lemma_complement_involutive(start);
    }
    let mut i: usize = 0;
    while i < 24
        invariant
            i <= 24,
            complement(s@) == keccak_rounds(start, i as nat),
        decreases 24 - i,
    {
        round(s, RC[i]);
        i += 1;
    }
    proof {
        reveal(keccak_f);
        lemma_complement_involutive(s@);
    }
    complement_lanes(s);
}

fn complement_lanes(s: &mut [u64; 25])
    ensures
        final(s)@ == complement(old(s)@),
{
    s[1] = !s[1];
    s[2] = !s[2];
    s[8] = !s[8];
    s[12] = !s[12];
    s[17] = !s[17];
    s[20] = !s[20];
    assert(s@ =~= complement(old(s)@));
}

// ---------------------------------------------------------------------------
// The sponge
// ---------------------------------------------------------------------------

/// State of a SHAKE-256 sponge: 25 lanes and the next byte of the rate to
/// absorb into or squeeze from.
#[verifier::ext_equal]
pub struct Sponge {
    pub lanes: Seq<u64>,
    pub pos: int,
}

/// Lane state with `byte` XORed into byte `pos` of the rate, little-endian
/// within a lane.
pub open spec fn xor_byte(lanes: Seq<u64>, pos: int, byte: u8) -> Seq<u64> {
    lanes.update(pos / 8, lanes[pos / 8] ^ ((byte as u64) << ((8 * (pos % 8)) as u64)))
}

/// Byte `pos` of the lane state, little-endian within a lane.
pub open spec fn lane_byte(lanes: Seq<u64>, pos: int) -> u8 {
    ((lanes[pos / 8] >> ((8 * (pos % 8)) as u64)) & 0xff) as u8
}

impl Sponge {
    /// 25 lanes, and a position within the rate.
    pub open spec fn wf(self) -> bool {
        &&& self.lanes.len() == 25
        &&& 0 <= self.pos < RATE
    }

    /// The empty sponge.
    pub open spec fn empty() -> Sponge {
        Sponge { lanes: Seq::new(25, |i: int| 0u64), pos: 0 }
    }

    /// The position moved on by one byte; the end of the rate permutes the
    /// state and starts over.
    pub open spec fn step(self) -> Sponge {
        if self.pos + 1 == RATE {
            Sponge { lanes: keccak_f(self.lanes), pos: 0 }
        } else {
            Sponge { lanes: self.lanes, pos: self.pos + 1 }
        }
    }

    pub open spec fn absorb_byte(self, byte: u8) -> Sponge {
        Sponge { lanes: xor_byte(self.lanes, self.pos, byte), pos: self.pos }.step()
    }

    /// The bytes of `data` absorbed one after another.
    pub open spec fn absorb(self, data: Seq<u8>) -> Sponge
        decreases data.len(),
    {
        if data.len() == 0 {
            self
        } else {
            self.absorb(data.drop_last()).absorb_byte(data.last())
        }
    }

    /// Domain bits and padding of SHAKE-256, then a permutation.
    pub open spec fn finalize(self) -> Sponge {
        Sponge {
            lanes: keccak_f(xor_byte(xor_byte(self.lanes, self.pos, 0x1f), RATE - 1, 0x80)),
            pos: 0,
        }
    }

    /// The sponge after `n` bytes have been squeezed.
    pub open spec fn skip(self, n: nat) -> Sponge
        decreases n,
    {
        if n == 0 {
            self
        } else {
            self.skip((n - 1) as nat).step()
        }
    }

    /// The next `n` bytes of output.
    pub open spec fn squeeze(self, n: nat) -> Seq<u8> {
        Seq::new(n, |i: int| self.skip(i as nat).next_byte())
    }

    /// The next byte of output.
    pub open spec fn next_byte(self) -> u8 {
        lane_byte(self.lanes, self.pos)
    }

    /// The state permuted, at the same position.
    pub open spec fn permute(self) -> Sponge {
        Sponge { lanes: keccak_f(self.lanes), pos: self.pos }
    }
}

/// A round keeps the number of lanes.
proof fn lemma_rounds_len(s: Seq<u64>, n: nat)
    requires
        s.len() == 25,
    ensures
        keccak_rounds(s, n).len() == 25,
    decreases n,
{
    if n > 0 {
        lemma_rounds_len(s, (n - 1) as nat);
    }
}

/// The permutation keeps the number of lanes.
proof fn lemma_keccak_f_len(s: Seq<u64>)
    requires
        s.len() == 25,
    ensures
        keccak_f(s).len() == 25,
{
    reveal(keccak_f);
    lemma_rounds_len(s, 24);
}

/// Absorbing keeps a sponge well formed.
pub proof fn lemma_absorb_wf(sp: Sponge, data: Seq<u8>)
    requires
        sp.wf(),
    ensures
        sp.absorb(data).wf(),
    decreases data.len(),
{
    if data.len() > 0 {
        lemma_absorb_wf(sp, data.drop_last());
        let before = sp.absorb(data.drop_last());
        lemma_keccak_f_len(xor_byte(before.lanes, before.pos, data.last()));
    }
}

/// An empty sponge is all zero; absorbing nothing changes nothing; absorbing one
/// byte changes the state by that byte at its place, moves on by one place, and
/// permutes at the end of the rate.
pub proof fn law_absorb_byte(sp: Sponge, byte: u8, x: Seq<u64>)
    requires
        sp.lanes.len() == 25,
        0 <= sp.pos < 136,
        x.len() == 25,
        forall|l: int| 0 <= l < 25 && l != sp.pos / 8 ==> #[trigger] x[l] == sp.lanes[l],
        (x[sp.pos / 8] ^ sp.lanes[sp.pos / 8]) as int == byte * pow2((8 * (sp.pos % 8)) as nat),
    ensures
        Sponge::empty() == (Sponge { lanes: Seq::new(25, |l: int| 0u64), pos: 0 }),
        sp.absorb(Seq::<u8>::empty()) == sp,
        sp.absorb(seq![byte]) == (if sp.pos == 135 {
            Sponge { lanes: keccak_f(x), pos: 0 }
        } else {
            Sponge { lanes: x, pos: sp.pos + 1 }
        }),
{
    let l = sp.pos / 8;
    let shift = (8 * (sp.pos % 8)) as u64;
    let (u, v) = (x[l], sp.lanes[l]);
    lemma2_to64();
    lemma2_to64_rest();
    let b = byte as u64;
    assert(b * pow2(shift as nat) <= u64::MAX) by {
        assert(shift == 0 || shift == 8 || shift == 16 || shift == 24 || shift == 32 || shift == 40
            || shift == 48 || shift == 56);
    }
    lemma_u64_shl_is_mul(b, shift);
    let d = b << shift;
    assert(u == v ^ d) by (bit_vector)
        requires
            u ^ v == d,
    ;
    assert(xor_byte(sp.lanes, sp.pos, byte) =~= x);
    assert(seq![byte].drop_last() =~= Seq::<u8>::empty());
    assert(sp.absorb(Seq::<u8>::empty()) == sp);
    assert(sp.absorb(seq![byte]) == sp.absorb_byte(byte));
}

/// A byte of a lane, as a digit to the base 256.
pub proof fn lemma_lane_byte(lanes: Seq<u64>, pos: int)
    requires
        0 <= pos,
    ensures
        lane_byte(lanes, pos) == (lanes[pos / 8] as int / pow2((8 * (pos % 8)) as nat) as int)
            % 256,
{
    let shift = (8 * (pos % 8)) as u64;
    let w = lanes[pos / 8];
    lemma_u64_shr_is_div(w, shift);
    let y = w >> shift;
    assert(y & 0xff == y % 256) by (bit_vector);
}

/// Output is read from the rate as it stands, byte by byte and the low byte of a
/// lane first, and the state is permuted whenever the rate is used up.
pub proof fn law_squeeze_at(sp: Sponge, states: Seq<Seq<u64>>, n: nat, i: int)
    requires
        0 <= sp.pos < 136,
        (sp.pos + n) / 136 < states.len(),
        states[0] == sp.lanes,
        forall|k: int| 1 <= k < states.len() ==> #[trigger] states[k] == keccak_f(states[k - 1]),
        0 <= i < n,
    ensures
        sp.squeeze(n).len() == n,
        sp.squeeze(n)[i] == (states[(sp.pos + i) / 136][(sp.pos + i) % 136 / 8] as int / pow2(
            (8 * ((sp.pos + i) % 8)) as nat,
        ) as int) % 256,
        sp.skip(n) == (Sponge { lanes: states[(sp.pos + n) / 136], pos: (sp.pos + n) % 136 }),
        sp.permute() == (Sponge { lanes: keccak_f(sp.lanes), pos: sp.pos }),
{
    lemma_skip_states(sp, states, n);
    lemma_skip_states(sp, states, i as nat);
    let p = (sp.pos + i) % 136;
    assert(p % 8 == (sp.pos + i) % 8);
    lemma_lane_byte(states[(sp.pos + i) / 136], p);
}

proof fn lemma_skip_states(sp: Sponge, states: Seq<Seq<u64>>, n: nat)
    requires
        0 <= sp.pos < 136,
        (sp.pos + n) / 136 < states.len(),
        states[0] == sp.lanes,
        forall|k: int| 1 <= k < states.len() ==> #[trigger] states[k] == keccak_f(states[k - 1]),
    ensures
        sp.skip(n) == (Sponge { lanes: states[(sp.pos + n) / 136], pos: (sp.pos + n) % 136 }),
    decreases n,
{
    if n > 0 {
        lemma_skip_states(sp, states, (n - 1) as nat);
        let (q, r) = ((sp.pos + n - 1) / 136, (sp.pos + n - 1) % 136);
        if r == 135 {
            assert((sp.pos + n) / 136 == q + 1 && (sp.pos + n) % 136 == 0);
            assert(states[q + 1] == keccak_f(states[q + 1 - 1]));
        } else {
            assert((sp.pos + n) / 136 == q && (sp.pos + n) % 136 == r + 1);
        }
    }
}

/// Absorbing two strings in turn is absorbing their concatenation.
pub proof fn law_absorb_concat(sp: Sponge, a: Seq<u8>, b: Seq<u8>)
    ensures
        sp.absorb(a).absorb(b) == sp.absorb(a + b),
    decreases b.len(),
{
    if b.len() == 0 {
        assert(a + b =~= a);
    } else {
        law_absorb_concat(sp, a, b.drop_last());
        assert((a + b).drop_last() =~= a + b.drop_last());
    }
}

/// Skipping `n` bytes and then `m` is skipping `n + m`.
proof fn lemma_skip_add(sp: Sponge, n: nat, m: nat)
    ensures
        sp.skip(n).skip(m) == sp.skip(n + m),
    decreases m,
{
    if m > 0 {
        lemma_skip_add(sp, n, (m - 1) as nat);
    }
}

/// Squeezing `n` bytes and then `m` gives the same bytes, and leaves the same
/// sponge, as squeezing `n + m` at once.
pub proof fn law_squeeze_concat(sp: Sponge, n: nat, m: nat)
    ensures
        sp.squeeze(n) + sp.skip(n).squeeze(m) == sp.squeeze(n + m),
        sp.skip(n).skip(m) == sp.skip(n + m),
{
    lemma_skip_add(sp, n, m);
    assert forall|i: int| 0 <= i < m implies #[trigger] sp.skip(n).skip(i as nat)
        == sp.skip((n + i) as nat) by {
        lemma_skip_add(sp, n, i as nat);
    }
    assert(sp.squeeze(n) + sp.skip(n).squeeze(m) =~= sp.squeeze(n + m));
}

/// The permutation applied `n` times.
pub open spec fn permuted(lanes: Seq<u64>, n: nat) -> Seq<u64>
    decreases n,
{
    if n == 0 {
        lanes
    } else {
        keccak_f(permuted(lanes, (n - 1) as nat))
    }
}

/// Output byte `n` lies in block `n / 136`.
pub proof fn lemma_skip_blocks(sp: Sponge, n: nat)
    requires
        sp.pos == 0,
    ensures
        sp.skip(n) == (Sponge { lanes: permuted(sp.lanes, n / 136), pos: (n % 136) as int }),
    decreases n,
{
    if n > 0 {
        lemma_skip_blocks(sp, (n - 1) as nat);
    }
}

/// Eight bytes as a lane, least significant byte first.
pub open spec fn lane_of(b: Seq<u8>) -> u64 {
    (b[0] as u64) | ((b[1] as u64) << 8) | ((b[2] as u64) << 16) | ((b[3] as u64) << 24) | ((
    b[4] as u64) << 32) | ((b[5] as u64) << 40) | ((b[6] as u64) << 48) | ((b[7] as u64) << 56)
}

pub proof fn lemma_absorb_take(sp: Sponge, data: Seq<u8>, i: int)
    requires
        0 <= i < data.len(),
    ensures
        sp.absorb(data.take(i + 1)) == sp.absorb(data.take(i)).absorb_byte(data[i]),
{
    assert(data.take(i + 1).drop_last() =~= data.take(i));
}

proof fn lemma_lane_xor(
    w: u64,
    b0: u8,
    b1: u8,
    b2: u8,
    b3: u8,
    b4: u8,
    b5: u8,
    b6: u8,
    b7: u8,
)
    by (bit_vector)
    ensures
        (((((((w ^ ((b0 as u64) << 0)) ^ ((b1 as u64) << 8)) ^ ((b2 as u64) << 16)) ^ ((b3 as u64)
            << 24)) ^ ((b4 as u64) << 32)) ^ ((b5 as u64) << 40)) ^ ((b6 as u64) << 48)) ^ ((
        b7 as u64) << 56) == w ^ ((b0 as u64) | ((b1 as u64) << 8) | ((b2 as u64) << 16) | ((
        b3 as u64) << 24) | ((b4 as u64) << 32) | ((b5 as u64) << 40) | ((b6 as u64) << 48) | ((
        b7 as u64) << 56)),
{
}

/// Eight bytes absorbed at a lane boundary are one lane XORed in.
pub proof fn lemma_absorb_chunk(sp: Sponge, chunk: Seq<u8>)
    requires
        sp.wf(),
        sp.pos % 8 == 0,
        chunk.len() == 8,
    ensures
        ({
            let lanes = sp.lanes.update(sp.pos / 8, sp.lanes[sp.pos / 8] ^ lane_of(chunk));
            sp.absorb(chunk) == if sp.pos + 8 == RATE {
                Sponge { lanes: keccak_f(lanes), pos: 0 }
            } else {
                Sponge { lanes, pos: sp.pos + 8 }
            }
        }),
{
    let j = sp.pos / 8;
    assert(chunk.take(0) =~= Seq::<u8>::empty());
    assert(chunk.take(8) =~= chunk);
    lemma_absorb_take(sp, chunk, 0);
    lemma_absorb_take(sp, chunk, 1);
    lemma_absorb_take(sp, chunk, 2);
    lemma_absorb_take(sp, chunk, 3);
    lemma_absorb_take(sp, chunk, 4);
    lemma_absorb_take(sp, chunk, 5);
    lemma_absorb_take(sp, chunk, 6);
    lemma_absorb_take(sp, chunk, 7);
    let w0 = sp.lanes[j];
    let w1 = w0 ^ ((chunk[0] as u64) << 0);
    let w2 = w1 ^ ((chunk[1] as u64) << 8);
    let w3 = w2 ^ ((chunk[2] as u64) << 16);
    let w4 = w3 ^ ((chunk[3] as u64) << 24);
    let w5 = w4 ^ ((chunk[4] as u64) << 32);
    let w6 = w5 ^ ((chunk[5] as u64) << 40);
    let w7 = w6 ^ ((chunk[6] as u64) << 48);
    let w8 = w7 ^ ((chunk[7] as u64) << 56);
    assert(sp.absorb(chunk.take(1)) =~= Sponge { lanes: sp.lanes.update(j, w1), pos: sp.pos + 1 });
    assert(sp.absorb(chunk.take(2)) =~= Sponge { lanes: sp.lanes.update(j, w2), pos: sp.pos + 2 });
    assert(sp.absorb(chunk.take(3)) =~= Sponge { lanes: sp.lanes.update(j, w3), pos: sp.pos + 3 });
    assert(sp.absorb(chunk.take(4)) =~= Sponge { lanes: sp.lanes.update(j, w4), pos: sp.pos + 4 });
    assert(sp.absorb(chunk.take(5)) =~= Sponge { lanes: sp.lanes.update(j, w5), pos: sp.pos + 5 });
    assert(sp.absorb(chunk.take(6)) =~= Sponge { lanes: sp.lanes.update(j, w6), pos: sp.pos + 6 });
    assert(sp.absorb(chunk.take(7)) =~= Sponge { lanes: sp.lanes.update(j, w7), pos: sp.pos + 7 });
    let lanes = sp.lanes.update(j, w8);
    assert(xor_byte(sp.lanes.update(j, w7), sp.pos + 7, chunk[7]) =~= lanes);
    lemma_lane_xor(
        w0,
        chunk[0],
        chunk[1],
        chunk[2],
        chunk[3],
        chunk[4],
        chunk[5],
        chunk[6],
        chunk[7],
    );
}

/// Loads eight bytes of `data` at `i` as a lane.
fn load_lane(data: &[u8], i: usize) -> (r: u64)
    requires
        i + 8 <= data@.len(),
    ensures
        r == lane_of(data@.subrange(i as int, i + 8)),
{
    (data[i] as u64) | ((data[i + 1] as u64) << 8) | ((data[i + 2] as u64) << 16) | ((
    data[i + 3] as u64) << 24) | ((data[i + 4] as u64) << 32) | ((data[i + 5] as u64) << 40) | ((
    data[i + 6] as u64) << 48) | ((data[i + 7] as u64) << 56)
}

/// Incremental SHAKE-256.
pub struct Shake256 {
    state: [u64; 25],
    pos: usize,
}

impl View for Shake256 {
    type V = Sponge;

    closed spec fn view(&self) -> Sponge {
        Sponge { lanes: self.state@, pos: self.pos as int }
    }
}

impl Shake256 {
    /// An empty sponge.
    pub fn new() -> (r: Self)
        ensures
            r@ == Sponge::empty(),
            r@.wf(),
    {
        let r = Self { state: [0; 25], pos: 0 };
        assert(r@ =~= Sponge::empty());
        r
    }

    /// Absorbs one byte.
    fn absorb_byte(&mut self, byte: u8)
        requires
            old(self)@.wf(),
        ensures
            final(self)@ == old(self)@.absorb_byte(byte),
            final(self)@.wf(),
    {
        let lane: usize = self.pos / 8;
        let shift: u64 = 8 * (self.pos % 8) as u64;
        self.state[lane] = self.state[lane] ^ ((byte as u64) << shift);
        self.step();
    }

    /// Moves on by one byte of the rate.
    fn step(&mut self)
        requires
            old(self)@.wf(),
        ensures
            final(self)@ == old(self)@.step(),
            final(self)@.wf(),
    {
        self.pos += 1;
        if self.pos == RATE {
            keccak_f1600(&mut self.state);
            self.pos = 0;
        }
    }

    /// Absorbs `data`.
    ///
    /// Bytes are taken one at a time up to a lane boundary, then eight at a
    /// time straight into a lane, then one at a time for the tail.
    pub fn absorb(&mut self, data: &[u8])
        requires
            old(self)@.wf(),
        ensures
            final(self)@ == old(self)@.absorb(data@),
            final(self)@.wf(),
    {
        let mut i: usize = 0;
        let len: usize = data.len();
        let ghost start = self@;
        proof {
            assert(data@.take(0) =~= Seq::<u8>::empty());
        }

        while i < len && self.pos % 8 != 0
            invariant
                i <= len == data@.len(),
                self@.wf(),
                self@ == start.absorb(data@.take(i as int)),
            decreases len - i,
        {
            proof {
                lemma_absorb_take(start, data@, i as int);
            }
            self.absorb_byte(data[i]);
            i += 1;
        }

        while i < len && len - i >= 8
            invariant
                i <= len == data@.len(),
                self@.wf(),
                i < len ==> self@.pos % 8 == 0,
                self@ == start.absorb(data@.take(i as int)),
            decreases len - i,
        {
            let ghost chunk = data@.subrange(i as int, i + 8);
            let ghost before = self@;
            let word: u64 = load_lane(data, i);
            let lane: usize = self.pos / 8;
            self.state[lane] = self.state[lane] ^ word;
            self.pos += 8;
            if self.pos == RATE {
                keccak_f1600(&mut self.state);
                self.pos = 0;
            }
            proof {
                lemma_absorb_chunk(before, chunk);
                law_absorb_concat(start, data@.take(i as int), chunk);
                assert(data@.take(i as int) + chunk =~= data@.take(i + 8));
                lemma_absorb_wf(before, chunk);
            }
            i += 8;
        }

        while i < len
            invariant
                i <= len == data@.len(),
                self@.wf(),
                self@ == start.absorb(data@.take(i as int)),
            decreases len - i,
        {
            proof {
                lemma_absorb_take(start, data@, i as int);
            }
            self.absorb_byte(data[i]);
            i += 1;
        }
        proof {
            assert(data@.take(i as int) =~= data@);
        }
    }

    /// Pads, and permutes for the first time, after which output can be drawn.
    pub fn finalize(&mut self)
        requires
            old(self)@.wf(),
        ensures
            final(self)@ == old(self)@.finalize(),
            final(self)@.wf(),
    {
        let lane: usize = self.pos / 8;
        let shift: u64 = 8 * (self.pos % 8) as u64;
        self.state[lane] = self.state[lane] ^ (0x1fu64 << shift);
        let last: usize = RATE - 1;
        let last_shift: u64 = 8 * (last % 8) as u64;
        self.state[last / 8] = self.state[last / 8] ^ (0x80u64 << last_shift);
        keccak_f1600(&mut self.state);
        self.pos = 0;
    }

    /// The lanes of the rate. The byte at offset `b` of a lane is
    /// `(lane >> (8 * b)) & 0xff`.
    pub fn rate_lanes(&self) -> (r: &[u64])
        requires
            self@.wf(),
        ensures
            r@ == self@.lanes.take(RATE_LANES as int),
    {
        vstd::slice::slice_subrange(vstd::array::array_as_slice(&self.state), 0, RATE_LANES)
    }

    /// Applies the permutation, for callers that drain the rate themselves.
    pub fn permute(&mut self)
        requires
            old(self)@.wf(),
        ensures
            final(self)@ == old(self)@.permute(),
            final(self)@.wf(),
    {
        keccak_f1600(&mut self.state);
    }

    /// Fills `out` with the next bytes of output.
    pub fn squeeze(&mut self, out: &mut [u8])
        requires
            old(self)@.wf(),
        ensures
            final(out)@ == old(self)@.squeeze(old(out)@.len()),
            final(self)@ == old(self)@.skip(old(out)@.len()),
            final(self)@.wf(),
    {
        let len: usize = out.len();
        let ghost start = self@;
        let mut i: usize = 0;
        while i < len
            invariant
                i <= len == out@.len() == old(out)@.len(),
                self@.wf(),
                self@ == start.skip(i as nat),
                forall|j: int| 0 <= j < i ==> out@[j] == #[trigger] start.squeeze(len as nat)[j],
            decreases len - i,
        {
            let lane: usize = self.pos / 8;
            let shift: u64 = 8 * (self.pos % 8) as u64;
            let word: u64 = self.state[lane] >> shift;
            proof {
                assert(word & 0xff <= 0xff) by (bit_vector);
            }
            out[i] = (word & 0xff) as u8;
            self.step();
            i += 1;
        }
        assert(out@ =~= start.squeeze(len as nat));
    }
}

} // verus!
