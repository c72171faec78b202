//! Wire formats: 14-bit packed public keys, compressed signatures, and the
//! hash of a message to a point of the ring.
use vstd::arithmetic::div_mod::{
    lemma_fundamental_div_mod_converse, lemma_hoist_over_denominator,
};
use vstd::arithmetic::power2::{lemma_pow2_pos, pow2};
use vstd::bits::{lemma_u32_low_bits_mask_is_mod, lemma_u32_shr_is_div, low_bits_mask};
use vstd::prelude::*;

use crate::bits::{
    law_bits_determine, law_bytes_exist, lemma_number_bits_len, lemma_number_bits_of_value,
    lemma_value_bound, lemma_value_concat, lemma_value_of_byte, lemma_value_of_number_bits,
    lemma_value_take, number_bits, read_bit, to_bits, value, zeros,
};
use crate::keccak::{
    lane_byte, law_absorb_concat, lemma_skip_blocks, permuted, Shake256, Sponge, RATE_LANES,
};
use crate::ntt::{in_range, ints};
use crate::poly::is_reduced;
use crate::shake::{law_sponge_is_shake256, shake256};
use crate::{N, Q};

verus! {

/// Length of a packed public key, without its header.
pub const PUBKEY_BODY_LEN: usize = 896;

// ---------------------------------------------------------------------------
// Public keys
// ---------------------------------------------------------------------------

/// The coefficients of a packed public key: 512 numbers of 14 bits.
pub open spec fn pubkey_coeffs(body: Seq<u8>) -> Seq<int> {
    Seq::new(512, |i: int| value(to_bits(body).subrange(14 * i, 14 * i + 14)))
}

/// A packed public key whose coefficients are all below `q`.
pub open spec fn is_pubkey_body(body: Seq<u8>) -> bool {
    &&& body.len() == PUBKEY_BODY_LEN
    &&& forall|i: int| 0 <= i < 512 ==> #[trigger] pubkey_coeffs(body)[i] < 12289
}

/// Seven bytes hold four coefficients: read as one number with the high byte
/// first, they are the coefficients as digits to the base `2^14`.
#[verifier::spinoff_prover]
pub proof fn law_packed_group(body: Seq<u8>, g: int)
    requires
        body.len() == 896,
        0 <= g < 128,
    ensures
        pubkey_coeffs(body).len() == 512,
        forall|i: int| 0 <= i < 512 ==> 0 <= #[trigger] pubkey_coeffs(body)[i] < 0x4000,
        ((pubkey_coeffs(body)[4 * g] * 0x4000 + pubkey_coeffs(body)[4 * g + 1]) * 0x4000
            + pubkey_coeffs(body)[4 * g + 2]) * 0x4000 + pubkey_coeffs(body)[4 * g + 3] == (((((
        body[7 * g] * 256 + body[7 * g + 1]) * 256 + body[7 * g + 2]) * 256 + body[7 * g + 3])
            * 256 + body[7 * g + 4]) * 256 + body[7 * g + 5]) * 256 + body[7 * g + 6],
{
    let bits = to_bits(body);
    vstd::arithmetic::power2::lemma2_to64();
    assert forall|i: int| 0 <= i < 512 implies 0 <= #[trigger] pubkey_coeffs(body)[i] < 0x4000 by {
        lemma_value_bound(bits.subrange(14 * i, 14 * i + 14));
    }
    lemma_value_extend(bits, 56 * g, 56 * g, 14);
    lemma_value_extend(bits, 56 * g, 56 * g + 14, 14);
    lemma_value_extend(bits, 56 * g, 56 * g + 28, 14);
    lemma_value_extend(bits, 56 * g, 56 * g + 42, 14);
    lemma_value_extend(bits, 56 * g, 56 * g, 8);
    lemma_value_extend(bits, 56 * g, 56 * g + 8, 8);
    lemma_value_extend(bits, 56 * g, 56 * g + 16, 8);
    lemma_value_extend(bits, 56 * g, 56 * g + 24, 8);
    lemma_value_extend(bits, 56 * g, 56 * g + 32, 8);
    lemma_value_extend(bits, 56 * g, 56 * g + 40, 8);
    lemma_value_extend(bits, 56 * g, 56 * g + 48, 8);
    lemma_value_of_byte(body, 7 * g);
    lemma_value_of_byte(body, 7 * g + 1);
    lemma_value_of_byte(body, 7 * g + 2);
    lemma_value_of_byte(body, 7 * g + 3);
    lemma_value_of_byte(body, 7 * g + 4);
    lemma_value_of_byte(body, 7 * g + 5);
    lemma_value_of_byte(body, 7 * g + 6);
    assert(bits.subrange(56 * g, 56 * g).len() == 0);
    assert(value(bits.subrange(56 * g, 56 * g)) == 0);
    let c = pubkey_coeffs(body);
    assert(c[4 * g] == value(bits.subrange(56 * g, 56 * g + 14)));
    assert(c[4 * g + 1] == value(bits.subrange(56 * g + 14, 56 * g + 14 + 14)));
    assert(c[4 * g + 2] == value(bits.subrange(56 * g + 28, 56 * g + 28 + 14)));
    assert(c[4 * g + 3] == value(bits.subrange(56 * g + 42, 56 * g + 42 + 14)));
}

proof fn lemma_value_extend(bits: Seq<bool>, from: int, mid: int, n: nat)
    requires
        0 <= from <= mid,
        mid + n <= bits.len(),
    ensures
        value(bits.subrange(from, mid + n)) == value(bits.subrange(from, mid)) * pow2(n) + value(
            bits.subrange(mid, mid + n),
        ),
{
    lemma_value_concat(bits.subrange(from, mid), bits.subrange(mid, mid + n));
    assert(bits.subrange(from, mid) + bits.subrange(mid, mid + n) =~= bits.subrange(
        from,
        mid + n,
    ));
}

/// A packed public key is well formed if and only if it has 896 bytes and no
/// coefficient reaches `q`.
pub proof fn law_pubkey_body(body: Seq<u8>)
    ensures
        is_pubkey_body(body) <==> body.len() == 896 && forall|i: int|
            0 <= i < 512 ==> #[trigger] pubkey_coeffs(body)[i] < 12289,
{
}

/// A packed public key is determined by its coefficients.
pub proof fn law_packing_injective(a: Seq<u8>, b: Seq<u8>)
    requires
        a.len() == PUBKEY_BODY_LEN,
        b.len() == PUBKEY_BODY_LEN,
        pubkey_coeffs(a) == pubkey_coeffs(b),
    ensures
        a == b,
{
    let (x, y) = (to_bits(a), to_bits(b));
    assert forall|k: int| 0 <= k < x.len() implies x[k] == y[k] by {
        let i = k / 14;
        let (u, v) = (x.subrange(14 * i, 14 * i + 14), y.subrange(14 * i, 14 * i + 14));
        assert(pubkey_coeffs(a)[i] == value(u));
        assert(pubkey_coeffs(b)[i] == value(v));
        lemma_number_bits_of_value(u);
        lemma_number_bits_of_value(v);
        assert(u[k - 14 * i] == v[k - 14 * i]);
    }
    assert(x =~= y);
    law_bits_determine(a, b);
}

/// Every reduced polynomial is that of a packed public key.
pub proof fn law_packing_exists(h: Seq<int>)
    requires
        is_reduced(h),
    ensures
        exists|body: Seq<u8>| #[trigger] is_pubkey_body(body) && pubkey_coeffs(body) == h,
{
    let bits = Seq::new(7168, |k: int| number_bits(h[k / 14], 14)[k % 14]);
    law_bytes_exist(bits);
    let body = choose|body: Seq<u8>| #[trigger] to_bits(body) == bits;
    assert(to_bits(body).len() == 8 * body.len());
    vstd::arithmetic::power2::lemma2_to64();
    assert forall|i: int| 0 <= i < 512 implies #[trigger] pubkey_coeffs(body)[i] == h[i] by {
        let word = number_bits(h[i], 14);
        assert(0 <= h[i] < 12289);
        lemma_number_bits_len(h[i], 14);
        lemma_value_of_number_bits(h[i], 14);
        assert forall|j: int| 0 <= j < 14 implies bits.subrange(14 * i, 14 * i + 14)[j]
            == word[j] by {
            assert((14 * i + j) / 14 == i && (14 * i + j) % 14 == j);
        }
        assert(bits.subrange(14 * i, 14 * i + 14) =~= word);
    }
    assert(pubkey_coeffs(body) =~= h);
    assert(is_pubkey_body(body));
}

/// The lowest `l` bits of `acc`.
spec fn low(acc: u32, l: u32) -> u32 {
    acc & (((1u32 << l) - 1) as u32)
}

proof fn lemma_low_append(acc: u32, l: u32, byte: u8)
    requires
        l < 14,
    ensures
        low((acc << 8) | (byte as u32), (l + 8) as u32) == low(acc, l) * 256 + byte,
{
    let m = (l + 8) as u32;
    assert((((acc << 8) | (byte as u32)) & (((1u32 << m) - 1) as u32)) == (acc & (((1u32 << l)
        - 1) as u32)) * 256 + byte) by (bit_vector)
        requires
            l < 14,
            m == l + 8,
    ;
}

/// Taking 14 bits off the top of the lowest `l + 14` bits.
proof fn lemma_low_take(acc: u32, l: u32, hi: int, lo: int)
    requires
        l < 8,
        low(acc, (l + 14) as u32) == hi * pow2(l as nat) + lo,
        0 <= lo < pow2(l as nat),
    ensures
        (acc >> l) & 0x3fff == hi,
        low(acc, l) == lo,
{
    let m = (l + 14) as u32;
    let v = low(acc, m);
    assert((acc >> l) & 0x3fff == (acc & (((1u32 << m) - 1) as u32)) >> l) by (bit_vector)
        requires
            l < 8,
            m == l + 14,
    ;
    assert(acc & (((1u32 << l) - 1) as u32) == (acc & (((1u32 << m) - 1) as u32)) & (((1u32 << l)
        - 1) as u32)) by (bit_vector)
        requires
            l < 8,
            m == l + 14,
    ;
    lemma_shift_is_pow2(l);
    lemma_u32_shr_is_div(v, l);
    lemma_u32_low_bits_mask_is_mod(v, l as nat);
    lemma_pow2_pos(l as nat);
    lemma_fundamental_div_mod_converse(v as int, pow2(l as nat) as int, hi, lo);
}

proof fn lemma_shift_is_pow2(l: u32)
    requires
        l < 8,
    ensures
        (1u32 << l) == pow2(l as nat),
        ((1u32 << l) - 1) as u32 == low_bits_mask(l as nat) as u32,
        pow2(l as nat) <= 128,
{
    vstd::arithmetic::power2::lemma2_to64();
    assert(1u32 << 0 == 1 && 1u32 << 1 == 2 && 1u32 << 2 == 4 && 1u32 << 3 == 8 && 1u32 << 4 == 16
        && 1u32 << 5 == 32 && 1u32 << 6 == 64 && 1u32 << 7 == 128) by (bit_vector);
}

/// One byte more of a packed public key: `l` pending bits become `l + 8`.
proof fn lemma_pubkey_byte(body: Seq<u8>, from: int, i: int, acc: u32, l: u32)
    requires
        0 <= i < body.len(),
        l < 14,
        0 <= from,
        8 * i == from + l,
        low(acc, l) == value(to_bits(body).subrange(from, 8 * i)),
    ensures
        low((acc << 8) | (body[i] as u32), (l + 8) as u32) == value(
            to_bits(body).subrange(from, 8 * i + 8),
        ),
{
    let bits = to_bits(body);
    let before = bits.subrange(from, 8 * i);
    let byte_bits = bits.subrange(8 * i, 8 * i + 8);
    lemma_low_append(acc, l, body[i]);
    lemma_value_of_byte(body, i);
    lemma_value_concat(before, byte_bits);
    assert(bits.subrange(from, 8 * i + 8) =~= before + byte_bits);
    vstd::arithmetic::power2::lemma2_to64();
}

/// One coefficient out of a packed public key: `l + 14` pending bits become `l`.
proof fn lemma_pubkey_coeff(body: Seq<u8>, from: int, i: int, acc: u32, l: u32)
    requires
        0 <= i <= body.len(),
        l < 8,
        0 <= from,
        8 * i == from + 14 + l,
        low(acc, (l + 14) as u32) == value(to_bits(body).subrange(from, 8 * i)),
    ensures
        (acc >> l) & 0x3fff == value(to_bits(body).subrange(from, from + 14)),
        low(acc, l) == value(to_bits(body).subrange(from + 14, 8 * i)),
{
    let bits = to_bits(body);
    let hi = bits.subrange(from, from + 14);
    let lo = bits.subrange(from + 14, 8 * i);
    assert(bits.subrange(from, 8 * i) =~= hi + lo);
    lemma_value_concat(hi, lo);
    lemma_value_bound(lo);
    lemma_low_take(acc, l, value(hi), value(lo));
}

/// Unpacks a public key. On `false` some coefficient is not below `q`, and `h`
/// is unspecified.
#[verifier::spinoff_prover]
pub fn decode_pubkey_u32(body: &[u8], h: &mut [u32; 512]) -> (ok: bool)
    requires
        body@.len() == PUBKEY_BODY_LEN,
    ensures
        ok == is_pubkey_body(body@),
        ok ==> ints(final(h)@) == pubkey_coeffs(body@) && in_range(final(h)@),
{
    let ghost bits = to_bits(body@);
    let ghost want = pubkey_coeffs(body@);
    let mut acc: u32 = 0;
    let mut acc_len: u32 = 0;
    let mut idx_in: usize = 0;
    let mut idx_out: usize = 0;
    proof {
        assert(low(0, 0) == 0) by {
            assert(0u32 & (((1u32 << 0) - 1) as u32) == 0) by (bit_vector);
        }
        assert(bits.subrange(0, 0).len() == 0);
    }
    while idx_out < N
        invariant
            body@.len() == PUBKEY_BODY_LEN,
            bits == to_bits(body@),
            want == pubkey_coeffs(body@),
            idx_out <= 512,
            acc_len < 14,
            8 * idx_in == 14 * idx_out + acc_len,
            low(acc, acc_len) == value(bits.subrange(14 * idx_out, 8 * idx_in)),
            want.len() == 512,
            forall|i: int| 0 <= i < idx_out ==> #[trigger] h@[i] == want[i],
            forall|i: int| 0 <= i < idx_out ==> #[trigger] h@[i] < 12289,
        decreases 896 - idx_in,
    {
        proof {
            lemma_pubkey_byte(body@, 14 * idx_out, idx_in as int, acc, acc_len);
        }
        acc = (acc << 8) | body[idx_in] as u32;
        idx_in += 1;
        acc_len += 8;
        if acc_len >= 14 {
            acc_len -= 14;
            proof {
                lemma_pubkey_coeff(body@, 14 * idx_out, idx_in as int, acc, acc_len);
            }
            let w: u32 = (acc >> acc_len) & 0x3fff;
            assert(w == want[idx_out as int]);
            if w >= Q {
                return false;
            }
            let ghost before = h@;
            h[idx_out] = w;
            idx_out += 1;
            assert(h@ =~= before.update(idx_out - 1, w));
        }
    }
    assert(ints(h@) =~= want);
    assert forall|i: int| 0 <= i < 512 implies #[trigger] want[i] < 12289 by {
        assert(h@[i] == want[i]);
    }
    true
}

// ---------------------------------------------------------------------------
// Compressed signatures
// ---------------------------------------------------------------------------

/// Length of the compressed part of a signature.
pub const COMPRESSED_LEN: usize = 625;

/// Bits of the compressed part of a signature.
pub const COMPRESSED_BITS: usize = 5000;

/// Code word of a coefficient: the sign, the low seven bits of the absolute
/// value, then the rest of the absolute value in unary.
pub open spec fn code_word(v: int) -> Seq<bool> {
    let m = if v < 0 {
        -v
    } else {
        v
    };
    seq![v < 0] + number_bits(m % 128, 7) + zeros((m / 128) as nat) + seq![true]
}

/// The code words of all coefficients, one after another.
pub open spec fn compress(s: Seq<int>) -> Seq<bool>
    decreases s.len(),
{
    if s.len() == 0 {
        Seq::empty()
    } else {
        compress(s.drop_last()) + code_word(s.last())
    }
}

/// 512 coefficients of absolute value at most 2047.
pub open spec fn is_signature_poly(s: Seq<int>) -> bool {
    &&& s.len() == 512
    &&& forall|i: int| 0 <= i < 512 ==> -2047 <= #[trigger] s[i] <= 2047
}

/// `comp` holds the code words of `s`, followed by zero bits only.
pub open spec fn is_compressed(comp: Seq<u8>, s: Seq<int>) -> bool {
    &&& is_signature_poly(s)
    &&& compress(s).len() <= 8 * comp.len()
    &&& to_bits(comp) == compress(s) + zeros((8 * comp.len() - compress(s).len()) as nat)
}

/// The polynomial that `comp` holds, if it holds one.
pub open spec fn decompressed(comp: Seq<u8>) -> Option<Seq<int>> {
    if exists|s: Seq<int>| is_compressed(comp, s) {
        Some(choose|s: Seq<int>| is_compressed(comp, s))
    } else {
        None
    }
}

/// Bit by bit, the code word of a coefficient: the sign, seven binary digits of
/// the absolute value, a zero for every 128 in it, and a one.
pub proof fn law_code_word_at(v: int, j: int)
    ensures
        ({
            let m = if v < 0 {
                -v
            } else {
                v
            };
            let w = code_word(v);
            &&& w.len() == 9 + m / 128
            &&& w[0] == (v < 0)
            &&& w[1] == ((m / 64) % 2 == 1)
            &&& w[2] == ((m / 32) % 2 == 1)
            &&& w[3] == ((m / 16) % 2 == 1)
            &&& w[4] == ((m / 8) % 2 == 1)
            &&& w[5] == ((m / 4) % 2 == 1)
            &&& w[6] == ((m / 2) % 2 == 1)
            &&& w[7] == (m % 2 == 1)
            &&& 8 <= j < 8 + m / 128 ==> !w[j]
            &&& w[8 + m / 128]
        }),
{
    let m = if v < 0 {
        -v
    } else {
        v
    };
    let d = number_bits(m % 128, 7);
    lemma_number_bits_digits(m % 128);
    lemma_number_bits_len(m % 128, 7);
    lemma_low_digits(m);
    lemma_word_parts(v < 0, d, (m / 128) as nat, j);
}

proof fn lemma_word_parts(sign: bool, d: Seq<bool>, k: nat, j: int)
    requires
        d.len() == 7,
    ensures
        ({
            let w = seq![sign] + d + zeros(k) + seq![true];
            &&& w.len() == 9 + k
            &&& w[0] == sign
            &&& w[1] == d[0]
            &&& w[2] == d[1]
            &&& w[3] == d[2]
            &&& w[4] == d[3]
            &&& w[5] == d[4]
            &&& w[6] == d[5]
            &&& w[7] == d[6]
            &&& 8 <= j < 8 + k ==> !w[j]
            &&& w[8 + k as int]
        }),
{
}

proof fn lemma_low_digit(q: int, r: int, d: int, h: int)
    requires
        0 < d,
        d * (2 * h) == 128,
    ensures
        ((128 * q + r) / d) % 2 == (r / d) % 2,
{
    assert(128 * q + r == d * (2 * (h * q)) + r) by (nonlinear_arith)
        requires
            d * (2 * h) == 128,
    ;
    lemma_hoist_over_denominator(r, 2 * (h * q), d as nat);
    assert(d * (2 * (h * q)) == (2 * (h * q)) * d) by (nonlinear_arith);
}

proof fn lemma_low_digits(m: int)
    requires
        0 <= m,
    ensures
        (m % 128) / 64 % 2 == m / 64 % 2,
        (m % 128) / 32 % 2 == m / 32 % 2,
        (m % 128) / 16 % 2 == m / 16 % 2,
        (m % 128) / 8 % 2 == m / 8 % 2,
        (m % 128) / 4 % 2 == m / 4 % 2,
        (m % 128) / 2 % 2 == m / 2 % 2,
        (m % 128) % 2 == m % 2,
{
    let q = m / 128;
    let r = m % 128;
    lemma_low_digit(q, r, 64, 1);
    lemma_low_digit(q, r, 32, 2);
    lemma_low_digit(q, r, 16, 4);
    lemma_low_digit(q, r, 8, 8);
    lemma_low_digit(q, r, 4, 16);
    lemma_low_digit(q, r, 2, 32);
    lemma_low_digit(q, r, 1, 64);
}

proof fn lemma_number_bits_digits(n: int)
    requires
        0 <= n < 128,
    ensures
        ({
            let d = number_bits(n, 7);
            &&& d[0] == ((n / 64) % 2 == 1)
            &&& d[1] == ((n / 32) % 2 == 1)
            &&& d[2] == ((n / 16) % 2 == 1)
            &&& d[3] == ((n / 8) % 2 == 1)
            &&& d[4] == ((n / 4) % 2 == 1)
            &&& d[5] == ((n / 2) % 2 == 1)
            &&& d[6] == (n % 2 == 1)
        }),
{
    reveal_with_fuel(number_bits, 8);
    lemma_number_bits_len(n / 2, 6);
    lemma_number_bits_len(n / 2 / 2, 5);
    lemma_number_bits_len(n / 2 / 2 / 2, 4);
    lemma_number_bits_len(n / 2 / 2 / 2 / 2, 3);
    lemma_number_bits_len(n / 2 / 2 / 2 / 2 / 2, 2);
    lemma_number_bits_len(n / 2 / 2 / 2 / 2 / 2 / 2, 1);
}

/// Compressing takes the coefficients one after another: the compressed form of
/// a concatenation is the concatenation of compressed forms.
pub proof fn law_compress_concat(s: Seq<int>, t: Seq<int>, v: int)
    ensures
        compress(Seq::<int>::empty()) == Seq::<bool>::empty(),
        compress(seq![v]) == code_word(v),
        compress(s + t) == compress(s) + compress(t),
    decreases t.len(),
{
    assert(seq![v].drop_last() =~= Seq::<int>::empty());
    assert(compress(Seq::<int>::empty()) =~= Seq::<bool>::empty());
    assert(compress(seq![v]) =~= code_word(v));
    if t.len() == 0 {
        assert(s + t =~= s);
        assert(compress(s) + compress(t) =~= compress(s));
    } else {
        law_compress_concat(s, t.drop_last(), v);
        assert((s + t).drop_last() =~= s + t.drop_last());
        assert(compress(s + t) =~= compress(s) + compress(t));
    }
}

/// 625 bytes hold a polynomial if and only if its 512 coefficients have
/// absolute values up to 2047, their code words come first, and only zero bits
/// follow.
pub proof fn law_decompressed(comp: Seq<u8>, s: Seq<int>)
    requires
        comp.len() == 625,
    ensures
        decompressed(comp) == Some(s) <==> {
            &&& s.len() == 512
            &&& forall|i: int| 0 <= i < 512 ==> -2047 <= #[trigger] s[i] <= 2047
            &&& compress(s).len() <= 5000
            &&& forall|k: int|
                0 <= k < compress(s).len() ==> #[trigger] to_bits(comp)[k] == compress(s)[k]
            &&& forall|k: int| compress(s).len() <= k < 5000 ==> !#[trigger] to_bits(comp)[k]
        },
{
    let bits = to_bits(comp);
    let word = compress(s);
    if decompressed(comp) == Some(s) {
        let c = choose|c: Seq<int>| is_compressed(comp, c);
        assert(is_compressed(comp, c) && c == s);
    } else if s.len() == 512 && (forall|i: int| 0 <= i < 512 ==> -2047 <= #[trigger] s[i] <= 2047)
        && word.len() <= 5000 && (forall|k: int|
        0 <= k < word.len() ==> #[trigger] bits[k] == word[k]) && (forall|k: int|
        word.len() <= k < 5000 ==> !#[trigger] bits[k]) {
        assert(bits =~= word + zeros((8 * comp.len() - word.len()) as nat));
        assert(is_compressed(comp, s));
        law_decompression_unique(comp, s, s);
    }
}

/// `word` occurs in `bits` at position `pos`.
spec fn occurs(bits: Seq<bool>, pos: int, word: Seq<bool>) -> bool {
    &&& 0 <= pos
    &&& pos + word.len() <= bits.len()
    &&& forall|k: int| 0 <= k < word.len() ==> #[trigger] bits[pos + k] == word[k]
}

/// What a code word consists of.
proof fn lemma_code_word(v: int)
    ensures
        ({
            let m = if v < 0 {
                -v
            } else {
                v
            };
            let w = code_word(v);
            &&& w.len() == 9 + m / 128
            &&& w[0] == (v < 0)
            &&& w.subrange(1, 8) == number_bits(m % 128, 7)
            &&& value(w.subrange(1, 8)) == m % 128
            &&& forall|k: int| 8 <= k < 8 + m / 128 ==> !#[trigger] w[k]
            &&& w[8 + m / 128]
        }),
{
    let m = if v < 0 {
        -v
    } else {
        v
    };
    lemma_number_bits_len(m % 128, 7);
    vstd::arithmetic::power2::lemma2_to64();
    lemma_value_of_number_bits(m % 128, 7);
    assert(code_word(v).subrange(1, 8) =~= number_bits(m % 128, 7));
}

/// At most one coefficient has its code word at a given position.
proof fn lemma_code_word_unique(bits: Seq<bool>, pos: int, v: int, w: int)
    requires
        occurs(bits, pos, code_word(v)),
        occurs(bits, pos, code_word(w)),
    ensures
        v == w,
{
    let m = if v < 0 {
        -v
    } else {
        v
    };
    let n = if w < 0 {
        -w
    } else {
        w
    };
    lemma_code_word(v);
    lemma_code_word(w);
    assert(bits[pos + 0] == (v < 0));
    assert(bits[pos + 0] == (w < 0));
    assert forall|k: int| 1 <= k < 8 implies code_word(v)[k] == code_word(w)[k] by {
        assert(bits[pos + k] == code_word(v)[k]);
        assert(bits[pos + k] == code_word(w)[k]);
    }
    assert(code_word(v).subrange(1, 8) =~= code_word(w).subrange(1, 8));
    if m / 128 < n / 128 {
        assert(bits[pos + (8 + m / 128)] == code_word(v)[8 + m / 128]);
        assert(bits[pos + (8 + m / 128)] == code_word(w)[8 + m / 128]);
    }
    if n / 128 < m / 128 {
        assert(bits[pos + (8 + n / 128)] == code_word(v)[8 + n / 128]);
        assert(bits[pos + (8 + n / 128)] == code_word(w)[8 + n / 128]);
    }
}

/// The first `u` coefficients, and the code word of the next, inside the whole.
proof fn lemma_compress_prefix(s: Seq<int>, u: int)
    requires
        0 <= u < s.len(),
    ensures
        occurs(compress(s), 0, compress(s.take(u))),
        occurs(compress(s), compress(s.take(u)).len() as int, code_word(s[u])),
    decreases s.len(),
{
    if u == s.len() - 1 {
        assert(s.take(u) =~= s.drop_last());
    } else {
        let d = s.drop_last();
        lemma_compress_prefix(d, u);
        assert(d.take(u) =~= s.take(u));
        let base = compress(s.take(u));
        assert forall|k: int| 0 <= k < base.len() implies #[trigger] compress(s)[0 + k]
            == base[k] by {
            assert(compress(d)[0 + k] == base[k]);
        }
        let word = code_word(s[u]);
        assert forall|k: int| 0 <= k < word.len() implies #[trigger] compress(s)[base.len() + k]
            == word[k] by {
            assert(compress(d)[base.len() + k] == word[k]);
        }
    }
}

/// The code word of coefficient `u`, inside the bits of `comp`.
proof fn lemma_compressed_word(comp: Seq<u8>, s: Seq<int>, u: int)
    requires
        is_compressed(comp, s),
        0 <= u < 512,
    ensures
        occurs(to_bits(comp), compress(s.take(u)).len() as int, code_word(s[u])),
{
    lemma_compress_prefix(s, u);
    let bits = to_bits(comp);
    let base = compress(s.take(u));
    let word = code_word(s[u]);
    assert forall|k: int| 0 <= k < word.len() implies #[trigger] bits[base.len() + k]
        == word[k] by {
        assert(compress(s)[base.len() + k] == word[k]);
    }
}

/// A byte string is the compressed form of at most one polynomial.
pub proof fn law_decompression_unique(comp: Seq<u8>, s: Seq<int>, t: Seq<int>)
    requires
        is_compressed(comp, s),
        is_compressed(comp, t),
    ensures
        s == t,
        decompressed(comp) == Some(s),
{
    lemma_same_prefix(comp, s, t, 512);
    assert(s.take(512) =~= s);
    assert(t.take(512) =~= t);
    let c = choose|c: Seq<int>| is_compressed(comp, c);
    lemma_same_prefix(comp, s, c, 512);
    assert(c.take(512) =~= c);
}

/// Every signature polynomial whose code words fit has a compressed form.
pub proof fn law_compression_exists(s: Seq<int>)
    requires
        is_signature_poly(s),
        compress(s).len() <= COMPRESSED_BITS,
    ensures
        exists|comp: Seq<u8>|
            comp.len() == COMPRESSED_LEN && #[trigger] decompressed(comp) == Some(s),
{
    let bits = compress(s) + zeros((COMPRESSED_BITS - compress(s).len()) as nat);
    law_bytes_exist(bits);
    let comp = choose|comp: Seq<u8>| #[trigger] to_bits(comp) == bits;
    assert(to_bits(comp).len() == 8 * comp.len());
    assert(is_compressed(comp, s));
    law_decompression_unique(comp, s, s);
    assert(decompressed(comp) == Some(s));
}

/// A polynomial has at most one compressed form of a given length.
pub proof fn law_compression_unique(a: Seq<u8>, b: Seq<u8>, s: Seq<int>)
    requires
        a.len() == b.len(),
        is_compressed(a, s),
        is_compressed(b, s),
    ensures
        a == b,
{
    law_bits_determine(a, b);
}

proof fn lemma_same_prefix(comp: Seq<u8>, s: Seq<int>, t: Seq<int>, u: int)
    requires
        is_compressed(comp, s),
        is_compressed(comp, t),
        0 <= u <= 512,
    ensures
        s.take(u) == t.take(u),
    decreases u,
{
    if u == 0 {
        assert(s.take(0) =~= t.take(0));
    } else {
        lemma_same_prefix(comp, s, t, u - 1);
        lemma_compressed_word(comp, s, u - 1);
        lemma_compressed_word(comp, t, u - 1);
        let pos = compress(s.take(u - 1)).len() as int;
        lemma_code_word_unique(to_bits(comp), pos, s[u - 1], t[u - 1]);
        assert(s.take(u) =~= s.take(u - 1).push(s[u - 1]));
        assert(t.take(u) =~= t.take(u - 1).push(t[u - 1]));
    }
}

/// Coefficients as integers.
pub open spec fn signed_ints(s: Seq<i16>) -> Seq<int> {
    Seq::new(s.len(), |i: int| s[i] as int)
}

/// Reads the code word at `pos`. Gives the coefficient and the position after
/// it, or nothing if no code word of a coefficient of absolute value at most
/// 2047 is there.
#[verifier::spinoff_prover]
fn read_coeff(comp: &[u8], pos: usize) -> (r: Option<(i16, usize)>)
    requires
        comp@.len() == COMPRESSED_LEN,
        pos <= COMPRESSED_BITS,
    ensures
        match r {
            Some((v, end)) => {
                &&& -2047 <= v <= 2047
                &&& occurs(to_bits(comp@), pos as int, code_word(v as int))
                &&& end == pos + code_word(v as int).len()
            },
            None => forall|v: int|
                -2047 <= v <= 2047 ==> !occurs(to_bits(comp@), pos as int, #[trigger] code_word(v)),
        },
{
    let total: usize = COMPRESSED_BITS;
    let ghost bits = to_bits(comp@);
    if total - pos < 9 {
        proof {
            assert forall|v: int| -2047 <= v <= 2047 implies !occurs(
                bits,
                pos as int,
                #[trigger] code_word(v),
            ) by {
                lemma_code_word(v);
            }
        }
        return None;
    }
    let negative: bool = read_bit(comp, pos);
    let ghost low_bits = bits.subrange(pos + 1, pos + 8);
    let mut m: u16 = 0;
    let mut i: usize = 0;
    assert(low_bits.take(0).len() == 0);
    while i < 7
        invariant
            comp@.len() == COMPRESSED_LEN,
            bits == to_bits(comp@),
            pos + 9 <= COMPRESSED_BITS,
            low_bits == bits.subrange(pos + 1, pos + 8),
            i <= 7,
            m == value(low_bits.take(i as int)),
            i == 0 ==> m == 0,
            i == 1 ==> m < 2,
            i == 2 ==> m < 4,
            i == 3 ==> m < 8,
            i == 4 ==> m < 16,
            i == 5 ==> m < 32,
            i == 6 ==> m < 64,
            i == 7 ==> m < 128,
        decreases 7 - i,
    {
        proof {
            lemma_value_take(low_bits, i + 1);
        }
        let b: bool = read_bit(comp, pos + 1 + i);
        m = 2 * m + if b {
            1
        } else {
            0
        };
        i += 1;
    }
    assert(low_bits.take(7) =~= low_bits);
    let ghost low_value = m as int;

    let mut k: usize = 0;
    let mut found: bool = false;
    while !found
        invariant
            comp@.len() == COMPRESSED_LEN,
            bits == to_bits(comp@),
            total == COMPRESSED_BITS,
            pos + 9 <= COMPRESSED_BITS,
            low_bits == bits.subrange(pos + 1, pos + 8),
            value(low_bits) == low_value,
            0 <= low_value < 128,
            negative == bits[pos as int],
            k <= 15,
            m == low_value + 128 * k,
            found ==> pos + 8 + k < COMPRESSED_BITS && bits[pos + 8 + k],
            pos + 8 + k <= COMPRESSED_BITS,
            forall|j: int| 0 <= j < k ==> !#[trigger] bits[pos + 8 + j],
        decreases
            32 - 2 * k - (if found {
                1int
            } else {
                0
            }),
    {
        if pos + 8 + k >= total || (k == 15 && !read_bit(comp, pos + 8 + k)) {
            proof {
                assert forall|v: int| -2047 <= v <= 2047 implies !occurs(
                    bits,
                    pos as int,
                    #[trigger] code_word(v),
                ) by {
                    lemma_no_code_word(bits, pos as int, k as int, v);
                }
            }
            return None;
        }
        if read_bit(comp, pos + 8 + k) {
            found = true;
        } else {
            k += 1;
            m += 128;
        }
    }
    if negative && m == 0 {
        proof {
            assert forall|v: int| -2047 <= v <= 2047 implies !occurs(
                bits,
                pos as int,
                #[trigger] code_word(v),
            ) by {
                if occurs(bits, pos as int, code_word(v)) {
                    lemma_code_word_parts(bits, pos as int, v);
                    let n = if v < 0 {
                        -v
                    } else {
                        v
                    };
                    assert(n % 128 == 0);
                    assert(k == 0);
                    if n / 128 > 0 {
                        assert(!bits[pos + 8 + 0]);
                    }
                }
            }
        }
        return None;
    }
    let v: i16 = if negative {
        -(m as i16)
    } else {
        m as i16
    };
    proof {
        lemma_code_word(v as int);
        lemma_number_bits_of_value(low_bits);
        assert(m as int % 128 == low_value);
        assert(m as int / 128 == k);
        let w = code_word(v as int);
        assert forall|j: int| 0 <= j < w.len() implies #[trigger] bits[pos + j] == w[j] by {
            if j == 0 {
            } else if j < 8 {
                assert(w[j] == w.subrange(1, 8)[j - 1]);
                assert(bits[pos + j] == low_bits[j - 1]);
            } else if j < 8 + k {
                assert(!bits[pos + 8 + (j - 8)]);
            } else {
                assert(j == 8 + k);
            }
        }
    }
    Some((v, pos + 9 + k))
}

/// The parts of a code word, read off the bits that hold it.
proof fn lemma_code_word_parts(bits: Seq<bool>, pos: int, v: int)
    requires
        occurs(bits, pos, code_word(v)),
    ensures
        ({
            let n = if v < 0 {
                -v
            } else {
                v
            };
            &&& bits[pos] == (v < 0)
            &&& value(bits.subrange(pos + 1, pos + 8)) == n % 128
            &&& pos + 8 + n / 128 < bits.len()
            &&& forall|j: int| 0 <= j < n / 128 ==> !#[trigger] bits[pos + 8 + j]
            &&& bits[pos + 8 + n / 128]
        }),
{
    lemma_code_word(v);
    let n = if v < 0 {
        -v
    } else {
        v
    };
    let w = code_word(v);
    assert(bits[pos + 0] == w[0]);
    assert forall|j: int| 0 <= j < 7 implies #[trigger] w.subrange(1, 8)[j] == bits.subrange(
        pos + 1,
        pos + 8,
    )[j] by {
        assert(bits[pos + (1 + j)] == w[1 + j]);
    }
    assert(w.subrange(1, 8) =~= bits.subrange(pos + 1, pos + 8));
    assert forall|j: int| 0 <= j < n / 128 implies !#[trigger] bits[pos + 8 + j] by {
        assert(bits[pos + (8 + j)] == w[8 + j]);
    }
    assert(bits[pos + (8 + n / 128)] == w[8 + n / 128]);
}

/// No code word stands at `pos` where `k` zeros are followed by the end of the
/// bits, or by a sixteenth zero.
proof fn lemma_no_code_word(bits: Seq<bool>, pos: int, k: int, v: int)
    requires
        0 <= k <= 15,
        forall|j: int| 0 <= j < k ==> !#[trigger] bits[pos + 8 + j],
        pos + 8 + k >= bits.len() || (k == 15 && !bits[pos + 8 + k]),
        -2047 <= v <= 2047,
    ensures
        !occurs(bits, pos, code_word(v)),
{
    if occurs(bits, pos, code_word(v)) {
        lemma_code_word_parts(bits, pos, v);
        let n = if v < 0 {
            -v
        } else {
            v
        };
        assert(n / 128 <= 15);
        if n / 128 < k {
            assert(!bits[pos + 8 + n / 128]);
        }
    }
}

/// Decompresses a signature polynomial. On `false` there is none that `comp`
/// holds, and `s2` is unspecified.
#[verifier::spinoff_prover]
pub fn decompress_signature(comp: &[u8], s2: &mut [i16; 512]) -> (ok: bool)
    requires
        comp@.len() == COMPRESSED_LEN,
    ensures
        ok == (decompressed(comp@) is Some),
        ok ==> is_compressed(comp@, signed_ints(final(s2)@)) && decompressed(comp@) == Some(
            signed_ints(final(s2)@),
        ),
{
    let ghost bits = to_bits(comp@);
    let mut pos: usize = 0;
    let mut u: usize = 0;
    assert(signed_ints(s2@).take(0).len() == 0);
    while u < N
        invariant
            comp@.len() == COMPRESSED_LEN,
            bits == to_bits(comp@),
            u <= 512,
            pos <= COMPRESSED_BITS,
            forall|i: int| 0 <= i < u ==> -2047 <= #[trigger] s2@[i] <= 2047,
            pos == compress(signed_ints(s2@).take(u as int)).len(),
            occurs(bits, 0, compress(signed_ints(s2@).take(u as int))),
            forall|s: Seq<int>| #[trigger]
                is_compressed(comp@, s) ==> s.take(u as int) == signed_ints(s2@).take(u as int),
        decreases 512 - u,
    {
        let ghost done = signed_ints(s2@).take(u as int);
        match read_coeff(comp, pos) {
            None => {
                proof {
                    assert forall|s: Seq<int>| !#[trigger] is_compressed(comp@, s) by {
                        if is_compressed(comp@, s) {
                            lemma_compressed_word(comp@, s, u as int);
                            assert(-2047 <= s[u as int] <= 2047);
                        }
                    }
                }
                return false;
            },
            Some((v, end)) => {
                let ghost here = pos as int;
                s2[u] = v;
                pos = end;
                proof {
                    let next = signed_ints(s2@).take(u + 1);
                    assert(next =~= done.push(v as int));
                    assert(next.drop_last() =~= done);
                    let word = code_word(v as int);
                    assert forall|k: int| 0 <= k < compress(next).len() implies #[trigger] bits[0
                        + k] == compress(next)[k] by {
                        if k < here {
                            assert(bits[0 + k] == compress(done)[k]);
                        } else {
                            assert(bits[here + (k - here)] == word[k - here]);
                        }
                    }
                    assert forall|s: Seq<int>| #[trigger] is_compressed(comp@, s) implies s.take(
                        u + 1,
                    ) == next by {
                        lemma_compressed_word(comp@, s, u as int);
                        lemma_code_word_unique(bits, here, s[u as int], v as int);
                        assert(s.take(u + 1) =~= s.take(u as int).push(s[u as int]));
                    }
                }
                u += 1;
            },
        }
    }
    let ghost got = signed_ints(s2@);
    proof {
        assert(got.take(512) =~= got);
    }
    let ghost end = pos as int;
    while pos < COMPRESSED_BITS
        invariant
            comp@.len() == COMPRESSED_LEN,
            bits == to_bits(comp@),
            got == signed_ints(s2@),
            got.len() == 512,
            0 <= end <= pos <= COMPRESSED_BITS,
            end == compress(got).len(),
            forall|s: Seq<int>| #[trigger]
                is_compressed(comp@, s) ==> s.take(512) == got,
            forall|k: int| end <= k < pos ==> !#[trigger] bits[k],
        decreases COMPRESSED_BITS - pos,
    {
        if read_bit(comp, pos) {
            proof {
                assert forall|s: Seq<int>| !#[trigger] is_compressed(comp@, s) by {
                    if is_compressed(comp@, s) {
                        assert(s.take(512) =~= s);
                        assert(!bits[pos as int]);
                    }
                }
            }
            return false;
        }
        pos += 1;
    }
    proof {
        assert(bits =~= compress(got) + zeros((COMPRESSED_BITS - end) as nat)) by {
            assert forall|k: int| 0 <= k < end implies bits[k] == compress(got)[k] by {
                assert(bits[0 + k] == compress(got)[k]);
            }
        }
        assert(is_compressed(comp@, got));
        law_decompression_unique(comp@, got, got);
    }
    true
}

// ---------------------------------------------------------------------------
// Hash to point
// ---------------------------------------------------------------------------

/// Candidates at or above this bound, the largest multiple of `q` below
/// `2^16`, are rejected.
pub const CANDIDATE_BOUND: u32 = 61445;

/// Candidates in one block of SHAKE-256 output.
pub const BLOCK_CANDIDATES: usize = 68;

/// Blocks of SHAKE-256 output drawn before the search for a point is given up.
/// Nothing computable comes near this many; it bounds the search.
pub const MAX_BLOCKS: u64 = 0xffff_ffff_ffff_ffff;

/// Candidate `i`: two bytes of output, the high byte first.
pub open spec fn candidate(sp: Sponge, i: int) -> int {
    sp.skip((2 * i) as nat).next_byte() * 256 + sp.skip((2 * i + 1) as nat).next_byte()
}

/// The accepted ones of the first `n` candidates, reduced modulo `q`.
pub open spec fn accepted(sp: Sponge, n: nat) -> Seq<int>
    decreases n,
{
    if n == 0 {
        Seq::empty()
    } else {
        let before = accepted(sp, (n - 1) as nat);
        if candidate(sp, n - 1) < CANDIDATE_BOUND {
            before.push(candidate(sp, n - 1) % 12289)
        } else {
            before
        }
    }
}

/// The first 512 accepted candidates of an output stream.
pub open spec fn sampled_point(sp: Sponge) -> Option<Seq<int>> {
    let all = accepted(sp, (BLOCK_CANDIDATES * MAX_BLOCKS) as nat);
    if all.len() >= 512 {
        Some(all.take(512))
    } else {
        None
    }
}

/// The point that a nonce and a message hash to.
pub open spec fn hashed_point(nonce: Seq<u8>, message: Seq<u8>) -> Option<Seq<int>> {
    sampled_point(Sponge::empty().absorb(nonce + message).finalize())
}

/// Candidate `i` of the hash of a nonce and a message is made of bytes `2i` and
/// `2i + 1` of SHAKE-256 of their concatenation.
pub proof fn law_candidate_is_shake256(nonce: Seq<u8>, message: Seq<u8>, i: int)
    requires
        0 <= i,
    ensures
        ({
            let out = shake256(nonce + message, (2 * i + 2) as nat);
            candidate(Sponge::empty().absorb(nonce + message).finalize(), i) == out[2 * i] * 256
                + out[2 * i + 1]
        }),
{
    let n = (2 * i + 2) as nat;
    law_sponge_is_shake256(nonce + message, n);
    let sp = Sponge::empty().absorb(nonce + message).finalize();
    assert(sp.squeeze(n)[2 * i] == sp.skip((2 * i) as nat).next_byte());
    assert(sp.squeeze(n)[2 * i + 1] == sp.skip((2 * i + 1) as nat).next_byte());
}

/// The point of a nonce and a message is read off SHAKE-256 of the nonce followed
/// by the whole message: taken as big-endian pairs, it is made of the first 512
/// that stay below 61445, reduced modulo 12289. There is none only if fewer than
/// 512 pairs qualify in as many blocks of 68 pairs as a 64-bit counter can count.
#[verifier::spinoff_prover]
pub proof fn law_hashed_point(nonce: Seq<u8>, message: Seq<u8>, n: nat)
    requires
        n <= 68 * 0xffff_ffff_ffff_ffff,
    ensures
        ({
            let out = shake256(nonce + message, 2 * n);
            let pairs = Seq::new(n, |i: int| out[2 * i] * 256 + out[2 * i + 1]);
            let low = pairs.filter(|w: int| w < 61445);
            &&& low.len() >= 512 ==> hashed_point(nonce, message) == Some(
                Seq::new(512, |j: int| low[j] % 12289),
            )
            &&& low.len() < 512 && n == 68 * 0xffff_ffff_ffff_ffff ==> hashed_point(
                nonce,
                message,
            ) is None
        }),
{
    let sp = Sponge::empty().absorb(nonce + message).finalize();
    let out = shake256(nonce + message, 2 * n);
    let pairs = Seq::new(n, |i: int| out[2 * i] * 256 + out[2 * i + 1]);
    let keep = |w: int| w < 61445;
    let low = pairs.filter(keep);
    law_sponge_is_shake256(nonce + message, 2 * n);
    assert forall|i: int| 0 <= i < n implies #[trigger] pairs[i] == candidate(sp, i) by {
        assert(sp.squeeze(2 * n)[2 * i] == sp.skip((2 * i) as nat).next_byte());
        assert(sp.squeeze(2 * n)[2 * i + 1] == sp.skip((2 * i + 1) as nat).next_byte());
    }
    lemma_accepted_is_filter(sp, pairs, keep);
    let limit = (BLOCK_CANDIDATES * MAX_BLOCKS) as nat;
    lemma_accepted_prefix(sp, n, limit);
    if low.len() >= 512 {
        let c = Seq::new(512, |j: int| low[j] % 12289);
        assert forall|j: int| 0 <= j < 512 implies accepted(sp, limit)[j] == #[trigger] c[j] by {
            assert(accepted(sp, limit).take(low.len() as int)[j] == accepted(sp, n)[j]);
        }
        assert(accepted(sp, limit).take(512) =~= c);
    }
}

/// The accepted candidates are the low ones, reduced.
proof fn lemma_accepted_is_filter(sp: Sponge, pairs: Seq<int>, keep: spec_fn(int) -> bool)
    requires
        forall|i: int| 0 <= i < pairs.len() ==> #[trigger] pairs[i] == candidate(sp, i),
        forall|w: int| #[trigger] keep(w) == (w < 61445),
    ensures
        accepted(sp, pairs.len()).len() == pairs.filter(keep).len(),
        forall|j: int|
            0 <= j < pairs.filter(keep).len() ==> #[trigger] accepted(sp, pairs.len())[j]
                == pairs.filter(keep)[j] % 12289,
    decreases pairs.len(),
{
    reveal(Seq::filter);
    if pairs.len() > 0 {
        lemma_accepted_is_filter(sp, pairs.drop_last(), keep);
        assert(pairs.last() == candidate(sp, pairs.len() - 1));
    }
}

/// Coefficients keep their place and value.
pub proof fn law_u16_ints_at(c: Seq<u16>, i: int)
    requires
        0 <= i < c.len(),
    ensures
        u16_ints(c).len() == c.len(),
        u16_ints(c)[i] == c[i],
{
}

/// Signed coefficients keep their place and value.
pub proof fn law_signed_ints_at(s: Seq<i16>, i: int)
    requires
        0 <= i < s.len(),
    ensures
        signed_ints(s).len() == s.len(),
        signed_ints(s)[i] == s[i],
{
}

/// Coefficients as integers.
pub open spec fn u16_ints(c: Seq<u16>) -> Seq<int> {
    Seq::new(c.len(), |i: int| c[i] as int)
}

/// Candidate `p` of block `b`.
proof fn lemma_candidate(sp: Sponge, b: nat, p: int)
    requires
        sp.pos == 0,
        0 <= p < 68,
    ensures
        ({
            let lanes = permuted(sp.lanes, b);
            candidate(sp, 68 * b + p) == lane_byte(lanes, 2 * p) * 256 + lane_byte(
                lanes,
                2 * p + 1,
            )
        }),
{
    let i = 68 * b + p;
    assert(2 * i == 136 * b + 2 * p);
    assert((2 * i) / 136 == b && (2 * i) % 136 == 2 * p);
    assert((2 * i + 1) / 136 == b && (2 * i + 1) % 136 == 2 * p + 1);
    lemma_skip_blocks(sp, (2 * i) as nat);
    lemma_skip_blocks(sp, (2 * i + 1) as nat);
}

/// More candidates only add to the accepted ones.
proof fn lemma_accepted_prefix(sp: Sponge, n: nat, m: nat)
    requires
        n <= m,
    ensures
        accepted(sp, n).len() <= accepted(sp, m).len(),
        accepted(sp, m).take(accepted(sp, n).len() as int) == accepted(sp, n),
    decreases m,
{
    if n == m {
        assert(accepted(sp, m).take(accepted(sp, n).len() as int) =~= accepted(sp, n));
    } else {
        lemma_accepted_prefix(sp, n, (m - 1) as nat);
        assert(accepted(sp, m).take(accepted(sp, n).len() as int) =~= accepted(
            sp,
            (m - 1) as nat,
        ).take(accepted(sp, n).len() as int));
    }
}

/// The two bytes of candidate `p`, from the lanes of the rate.
fn read_candidate(lanes: &[u64], p: usize) -> (r: u32)
    requires
        lanes@.len() == RATE_LANES,
        p < BLOCK_CANDIDATES,
    ensures
        r == lane_byte(lanes@, 2 * p) * 256 + lane_byte(lanes@, 2 * p + 1),
{
    let lane: u64 = lanes[p / 4];
    let shift: u64 = (16 * (p % 4)) as u64;
    let hi: u64 = (lane >> shift) & 0xff;
    let lo: u64 = (lane >> (shift + 8)) & 0xff;
    proof {
        let next = (shift + 8) as u64;
        assert((lane >> shift) & 0xff <= 0xff) by (bit_vector);
        assert((lane >> next) & 0xff <= 0xff) by (bit_vector);
        assert(2 * p as int / 8 == p as int / 4);
        assert(8 * (2 * p as int % 8) == shift);
        assert((2 * p + 1) / 8 == p as int / 4);
        assert(8 * ((2 * p + 1) % 8) == shift + 8);
    }
    (hi as u32) * 256 + lo as u32
}

/// Hashes a nonce and a message to a point, by rejection sampling. `false`
/// says that the search was given up, and leaves `c` unspecified.
#[verifier::spinoff_prover]
pub fn hash_to_point(nonce: &[u8], message: &[u8], c: &mut [u16; 512]) -> (ok: bool)
    ensures
        ok == (hashed_point(nonce@, message@) is Some),
        ok ==> hashed_point(nonce@, message@) == Some(u16_ints(final(c)@)),
        ok ==> forall|i: int| 0 <= i < 512 ==> #[trigger] final(c)@[i] < 12289,
{
    let mut shake = Shake256::new();
    shake.absorb(nonce);
    shake.absorb(message);
    shake.finalize();
    let ghost sp = shake@;
    let ghost limit = (BLOCK_CANDIDATES * MAX_BLOCKS) as nat;
    proof {
        law_absorb_concat(Sponge::empty(), nonce@, message@);
        assert(u16_ints(c@).take(0) =~= accepted(sp, 0));
    }
    let mut u: usize = 0;
    let mut block: u64 = 0;
    while block < MAX_BLOCKS
        invariant
            shake@.wf(),
            sp.pos == 0,
            sp.wf(),
            hashed_point(nonce@, message@) == sampled_point(sp),
            limit == BLOCK_CANDIDATES * MAX_BLOCKS,
            shake@ == (Sponge { lanes: permuted(sp.lanes, block as nat), pos: 0 }),
            u < 512,
            u16_ints(c@).take(u as int) == accepted(sp, (68 * block) as nat),
            forall|i: int| 0 <= i < u ==> #[trigger] c@[i] < 12289,
        decreases MAX_BLOCKS - block,
    {
        let lanes: &[u64] = shake.rate_lanes();
        let mut p: usize = 0;
        while p < BLOCK_CANDIDATES
            invariant
                sp.pos == 0,
                sp.wf(),
                hashed_point(nonce@, message@) == sampled_point(sp),
                limit == BLOCK_CANDIDATES * MAX_BLOCKS,
                block < MAX_BLOCKS,
                lanes@.len() == RATE_LANES,
                permuted(sp.lanes, block as nat).len() == 25,
                lanes@ == permuted(sp.lanes, block as nat).take(17),
                p <= 68,
                u < 512,
                u16_ints(c@).take(u as int) == accepted(sp, (68 * block + p) as nat),
                forall|i: int| 0 <= i < u ==> #[trigger] c@[i] < 12289,
            decreases 68 - p,
        {
            let w: u32 = read_candidate(lanes, p);
            proof {
                lemma_candidate(sp, block as nat, p as int);
                assert(w == candidate(sp, 68 * block + p));
            }
            let ghost done = u16_ints(c@).take(u as int);
            let ghost n = (68 * block + p) as nat;
            p += 1;
            if w < CANDIDATE_BOUND {
                c[u] = (w % Q) as u16;
                u += 1;
                proof {
                    assert(u16_ints(c@).take(u as int) =~= done.push(w as int % 12289));
                    assert(accepted(sp, (n + 1) as nat) == u16_ints(c@).take(u as int));
                }
                if u == N {
                    proof {
                        lemma_accepted_prefix(sp, (n + 1) as nat, limit);
                        assert(u16_ints(c@).take(512) =~= u16_ints(c@));
                    }
                    return true;
                }
            }
        }
        shake.permute();
        block += 1;
    }
    false
}

} // verus!
