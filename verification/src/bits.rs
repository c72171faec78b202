//! Bit strings, most significant bit first.
use vstd::arithmetic::power2::{lemma_pow2_unfold, pow2};
use vstd::bits::lemma_u8_shr_is_div;
use vstd::prelude::*;

verus! {

/// Bit `k` of a byte string; the first bit is the top bit of the first byte.
pub open spec fn bit(bytes: Seq<u8>, k: int) -> bool {
    (bytes[k / 8] >> ((7 - k % 8) as u8)) & 1 == 1
}

/// All bits of a byte string.
pub open spec fn to_bits(bytes: Seq<u8>) -> Seq<bool> {
    Seq::new(8 * bytes.len(), |k: int| bit(bytes, k))
}

/// The number that a bit string denotes.
pub open spec fn value(bits: Seq<bool>) -> int
    decreases bits.len(),
{
    if bits.len() == 0 {
        0
    } else {
        2 * value(bits.drop_last()) + if bits.last() {
            1int
        } else {
            0
        }
    }
}

/// `n` as a bit string of length `len`.
pub open spec fn number_bits(n: int, len: nat) -> Seq<bool>
    decreases len,
{
    if len == 0 {
        Seq::empty()
    } else {
        number_bits(n / 2, (len - 1) as nat).push(n % 2 == 1)
    }
}

/// `len` zero bits.
pub open spec fn zeros(len: nat) -> Seq<bool> {
    Seq::new(len, |k: int| false)
}

pub proof fn lemma_value_bound(bits: Seq<bool>)
    ensures
        0 <= value(bits) < pow2(bits.len()),
    decreases bits.len(),
{
    if bits.len() == 0 {
        vstd::arithmetic::power2::lemma2_to64();
    } else {
        lemma_value_bound(bits.drop_last());
        lemma_pow2_unfold(bits.len());
    }
}

pub proof fn lemma_value_concat(a: Seq<bool>, b: Seq<bool>)
    ensures
        value(a + b) == value(a) * pow2(b.len()) + value(b),
    decreases b.len(),
{
    if b.len() == 0 {
        vstd::arithmetic::power2::lemma2_to64();
        assert(a + b =~= a);
        assert(value(a) * 1 == value(a));
    } else {
        lemma_value_concat(a, b.drop_last());
        assert((a + b).drop_last() =~= a + b.drop_last());
        lemma_pow2_unfold(b.len());
        let (x, p) = (value(a), pow2((b.len() - 1) as nat));
        assert(2 * (x * p) == x * (2 * p)) by (nonlinear_arith);
    }
}

pub proof fn lemma_number_bits_len(n: int, len: nat)
    ensures
        number_bits(n, len).len() == len,
    decreases len,
{
    if len > 0 {
        lemma_number_bits_len(n / 2, (len - 1) as nat);
    }
}

/// A bit string is the one of its number.
pub proof fn lemma_number_bits_of_value(bits: Seq<bool>)
    ensures
        number_bits(value(bits), bits.len()) == bits,
    decreases bits.len(),
{
    if bits.len() == 0 {
        assert(bits =~= number_bits(value(bits), 0));
    } else {
        let v = value(bits.drop_last());
        lemma_number_bits_of_value(bits.drop_last());
        assert(value(bits) / 2 == v);
        assert(bits =~= bits.drop_last().push(bits.last()));
    }
}

/// The number of the bit string of a number.
pub proof fn lemma_value_of_number_bits(n: int, len: nat)
    requires
        0 <= n < pow2(len),
    ensures
        value(number_bits(n, len)) == n,
    decreases len,
{
    if len == 0 {
        vstd::arithmetic::power2::lemma2_to64();
    } else {
        lemma_pow2_unfold(len);
        lemma_value_of_number_bits(n / 2, (len - 1) as nat);
        let b = number_bits(n / 2, (len - 1) as nat);
        assert(b.push(n % 2 == 1).drop_last() =~= b);
    }
}

proof fn lemma_byte_bits(x: u8)
    by (bit_vector)
    ensures
        ((x >> 7) & 1) * 128 + ((x >> 6) & 1) * 64 + ((x >> 5) & 1) * 32 + ((x >> 4) & 1) * 16 + ((x
            >> 3) & 1) * 8 + ((x >> 2) & 1) * 4 + ((x >> 1) & 1) * 2 + ((x >> 0) & 1) == x,
        (x >> 7) & 1 <= 1,
        (x >> 6) & 1 <= 1,
        (x >> 5) & 1 <= 1,
        (x >> 4) & 1 <= 1,
        (x >> 3) & 1 <= 1,
        (x >> 2) & 1 <= 1,
        (x >> 1) & 1 <= 1,
        (x >> 0) & 1 <= 1,
{
}

/// The eight bits of byte `i` denote the byte.
pub proof fn lemma_value_of_byte(bytes: Seq<u8>, i: int)
    requires
        0 <= i < bytes.len(),
    ensures
        value(to_bits(bytes).subrange(8 * i, 8 * i + 8)) == bytes[i],
{
    let b = to_bits(bytes).subrange(8 * i, 8 * i + 8);
    let x = bytes[i];
    lemma_byte_bits(x);
    assert(b[0] == ((x >> 7) & 1 == 1));
    assert(b[1] == ((x >> 6) & 1 == 1));
    assert(b[2] == ((x >> 5) & 1 == 1));
    assert(b[3] == ((x >> 4) & 1 == 1));
    assert(b[4] == ((x >> 3) & 1 == 1));
    assert(b[5] == ((x >> 2) & 1 == 1));
    assert(b[6] == ((x >> 1) & 1 == 1));
    assert(b[7] == ((x >> 0) & 1 == 1));
    lemma_value_take(b, 8);
    lemma_value_take(b, 7);
    lemma_value_take(b, 6);
    lemma_value_take(b, 5);
    lemma_value_take(b, 4);
    lemma_value_take(b, 3);
    lemma_value_take(b, 2);
    lemma_value_take(b, 1);
    assert(b.take(8) =~= b);
}

/// The value of a prefix, one bit at a time.
pub proof fn lemma_value_take(bits: Seq<bool>, k: int)
    requires
        0 < k <= bits.len(),
    ensures
        value(bits.take(k)) == 2 * value(bits.take(k - 1)) + if bits[k - 1] {
            1int
        } else {
            0
        },
        value(bits.take(0)) == 0,
{
    assert(bits.take(k).drop_last() =~= bits.take(k - 1));
}

/// Bit `j` of byte `i`, counted from the top, is the binary digit of weight
/// `2^(7 - j)` of the byte.
pub proof fn law_bit_at(bytes: Seq<u8>, i: int, j: int)
    requires
        0 <= i < bytes.len(),
        0 <= j < 8,
    ensures
        to_bits(bytes).len() == 8 * bytes.len(),
        to_bits(bytes)[8 * i + j] == ((bytes[i] as int / pow2((7 - j) as nat) as int) % 2 == 1),
{
    let x = bytes[i];
    let n = (7 - j) as u8;
    assert((8 * i + j) / 8 == i && (8 * i + j) % 8 == j);
    lemma_u8_shr_is_div(x, n);
    let y = x >> n;
    assert(y & 1 == y % 2) by (bit_vector);
}

/// Appending a bit to a bit string doubles its number and adds the bit.
pub proof fn law_value_push(bits: Seq<bool>, b: bool)
    ensures
        value(Seq::<bool>::empty()) == 0,
        value(bits.push(b)) == 2 * value(bits) + (if b {
            1int
        } else {
            0
        }),
{
    assert(bits.push(b).drop_last() =~= bits);
}

/// A byte string is determined by its bits.
pub proof fn law_bits_determine(a: Seq<u8>, b: Seq<u8>)
    requires
        to_bits(a) == to_bits(b),
    ensures
        a == b,
{
    assert(to_bits(a).len() == 8 * a.len() && to_bits(b).len() == 8 * b.len());
    assert forall|i: int| 0 <= i < a.len() implies a[i] == b[i] by {
        lemma_value_of_byte(a, i);
        lemma_value_of_byte(b, i);
    }
    assert(a =~= b);
}

/// Every bit string of whole bytes is the one of a byte string.
pub proof fn law_bytes_exist(bits: Seq<bool>)
    requires
        bits.len() % 8 == 0,
    ensures
        exists|bytes: Seq<u8>| #[trigger] to_bits(bytes) == bits,
{
    let bytes = Seq::new(
        bits.len() / 8,
        |i: int| value(bits.subrange(8 * i, 8 * i + 8)) as u8,
    );
    let got = to_bits(bytes);
    assert forall|k: int| 0 <= k < bits.len() implies got[k] == bits[k] by {
        let i = k / 8;
        let (x, y) = (got.subrange(8 * i, 8 * i + 8), bits.subrange(8 * i, 8 * i + 8));
        lemma_value_of_byte(bytes, i);
        lemma_value_bound(y);
        vstd::arithmetic::power2::lemma2_to64();
        assert(value(x) == value(y));
        lemma_number_bits_of_value(x);
        lemma_number_bits_of_value(y);
        assert(x[k - 8 * i] == y[k - 8 * i]);
    }
    assert(got =~= bits);
}

/// Reads bit `k`.
pub fn read_bit(bytes: &[u8], k: usize) -> (r: bool)
    requires
        k < 8 * bytes@.len(),
    ensures
        r == to_bits(bytes@)[k as int],
{
    let shift: u8 = (7 - k % 8) as u8;
    (bytes[k / 8] >> shift) & 1 == 1
}

} // verus!
