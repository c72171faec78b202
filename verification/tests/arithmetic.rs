use solana_falcon512::codec::{decode_pubkey_u32, decompress_signature, hash_to_point};
use solana_falcon512::norm::norm_check_with_prepared;
use solana_falcon512::ntt::{inv_ntt, ntt, Twiddles};
use solana_falcon512::Shake256;

const Q: u32 = 12289;

struct BitWriter {
    bytes: Vec<u8>,
    used: usize,
}

impl BitWriter {
    fn new() -> Self {
        BitWriter { bytes: Vec::new(), used: 0 }
    }

    fn push(&mut self, bit: bool) {
        if self.used % 8 == 0 {
            self.bytes.push(0);
        }
        if bit {
            self.bytes[self.used / 8] |= 0x80 >> (self.used % 8);
        }
        self.used += 1;
    }

    fn number(&mut self, value: u32, len: u32) {
        for k in (0..len).rev() {
            self.push((value >> k) & 1 == 1);
        }
    }

    fn coefficient(&mut self, v: i32) {
        self.push(v < 0);
        self.number(v.unsigned_abs() % 128, 7);
        for _ in 0..v.unsigned_abs() / 128 {
            self.push(false);
        }
        self.push(true);
    }

    fn padded(mut self, len: usize) -> Vec<u8> {
        assert!(self.bytes.len() <= len);
        self.bytes.resize(len, 0);
        self.bytes
    }
}

fn random_words(seed: u8, count: usize) -> Vec<u32> {
    let mut s = Shake256::new();
    s.absorb(&[seed]);
    s.finalize();
    let mut out = vec![0u8; 4 * count];
    s.squeeze(&mut out);
    out.chunks(4).map(|c| u32::from_le_bytes([c[0], c[1], c[2], c[3]])).collect()
}

fn random_poly(seed: u8) -> [u32; 512] {
    let mut out = [0u32; 512];
    for (slot, word) in out.iter_mut().zip(random_words(seed, 512)) {
        *slot = word % Q;
    }
    out
}

fn schoolbook(a: &[u32; 512], b: &[u32; 512]) -> [u32; 512] {
    let mut out = [0i64; 512];
    for i in 0..512 {
        for j in 0..512 {
            let term = a[i] as i64 * b[j] as i64 % Q as i64;
            if i + j < 512 {
                out[i + j] += term;
            } else {
                out[i + j - 512] -= term;
            }
        }
    }
    let mut reduced = [0u32; 512];
    for (slot, value) in reduced.iter_mut().zip(out) {
        *slot = value.rem_euclid(Q as i64) as u32;
    }
    reduced
}

// ---------------------------------------------------------------------------
// Wire formats
// ---------------------------------------------------------------------------

fn pack(coeffs: &[u32]) -> Vec<u8> {
    let mut w = BitWriter::new();
    for &c in coeffs {
        w.number(c, 14);
    }
    w.bytes
}

#[test]
fn packed_coefficients_are_read_in_order() {
    let poly = random_poly(1);
    let mut h = [0u32; 512];
    assert!(decode_pubkey_u32(&pack(&poly), &mut h));
    assert_eq!(h, poly);
}

#[test]
fn coefficients_from_q_on_are_rejected() {
    for position in [0, 1, 300, 511] {
        let mut poly = [5u32; 512];
        let mut h = [0u32; 512];
        poly[position] = Q - 1;
        assert!(decode_pubkey_u32(&pack(&poly), &mut h));
        assert_eq!(h, poly);
        for bad in [Q, Q + 1, 16383] {
            poly[position] = bad;
            assert!(!decode_pubkey_u32(&pack(&poly), &mut h));
        }
    }
}

#[test]
fn compressed_polynomials_are_read_back() {
    let mut poly = [0i32; 512];
    for (i, word) in random_words(2, 512).into_iter().enumerate() {
        poly[i] = (word % 255) as i32 - 127;
    }
    poly[0] = 2047;
    poly[1] = -2047;
    poly[2] = 128;
    poly[3] = -128;
    poly[511] = -1;
    let mut w = BitWriter::new();
    for v in poly {
        w.coefficient(v);
    }
    let comp = w.padded(625);
    let mut s2 = [0i16; 512];
    assert!(decompress_signature(&comp, &mut s2));
    assert_eq!(s2.map(|v| v as i32), poly);
}

#[test]
fn smallest_compressed_polynomial() {
    let mut w = BitWriter::new();
    for _ in 0..512 {
        w.coefficient(0);
    }
    let comp = w.padded(625);
    assert_eq!(&comp[..9], &[0x00, 0x80, 0x40, 0x20, 0x10, 0x08, 0x04, 0x02, 0x01]);
    let mut s2 = [1i16; 512];
    assert!(decompress_signature(&comp, &mut s2));
    assert_eq!(s2, [0i16; 512]);
}

#[test]
fn negative_zero_is_rejected() {
    for position in [0, 7, 511] {
        let mut w = BitWriter::new();
        for i in 0..512 {
            if i == position {
                w.number(0b1_0000000_1, 9);
            } else {
                w.coefficient(1);
            }
        }
        assert!(!decompress_signature(&w.padded(625), &mut [0i16; 512]));
    }
}

#[test]
fn coefficients_beyond_2047_are_rejected() {
    for v in [2048, -2048, 2175] {
        let mut w = BitWriter::new();
        w.coefficient(v);
        for _ in 1..512 {
            w.coefficient(0);
        }
        assert!(!decompress_signature(&w.padded(625), &mut [0i16; 512]));
    }
}

#[test]
fn bits_after_the_last_code_word_must_be_zero() {
    let mut w = BitWriter::new();
    for _ in 0..512 {
        w.coefficient(3);
    }
    let used = w.used;
    let comp = w.padded(625);
    assert!(decompress_signature(&comp, &mut [0i16; 512]));
    for k in used..5000 {
        let mut bad = comp.clone();
        bad[k / 8] ^= 0x80 >> (k % 8);
        assert!(!decompress_signature(&bad, &mut [0i16; 512]), "bit {}", k);
    }
}

#[test]
fn missing_code_words_are_rejected() {
    assert!(!decompress_signature(&[0u8; 625], &mut [0i16; 512]));
    assert!(!decompress_signature(&[0xffu8; 625], &mut [0i16; 512]));
    let mut w = BitWriter::new();
    for _ in 0..511 {
        w.coefficient(-40);
    }
    assert!(!decompress_signature(&w.padded(625), &mut [0i16; 512]));
    let mut long = BitWriter::new();
    while long.bytes.len() < 620 {
        long.coefficient(600);
    }
    assert!(!decompress_signature(&long.padded(625), &mut [0i16; 512]));
}

#[test]
fn point_of_a_short_message() {
    let mut c = [0u16; 512];
    assert!(hash_to_point(&[0u8; 40], b"abc", &mut c));
    assert_eq!(&c[..8], &[7916, 3318, 1529, 11367, 2601, 7388, 11012, 8001]);
    assert_eq!(&c[508..], &[9677, 1137, 10493, 8649]);
}

#[test]
fn point_is_sampled_from_the_output_stream() {
    let nonce = [0x3cu8; 40];
    let message = [0x77u8; 500];
    let mut c = [0u16; 512];
    assert!(hash_to_point(&nonce, &message, &mut c));
    let mut s = Shake256::new();
    s.absorb(&nonce);
    s.absorb(&message);
    s.finalize();
    let mut expected = Vec::new();
    while expected.len() < 512 {
        let mut pair = [0u8; 2];
        s.squeeze(&mut pair);
        let w = u16::from_be_bytes(pair);
        if w < 61445 {
            expected.push(w % 12289);
        }
    }
    assert_eq!(&c[..], &expected[..]);
}

// ---------------------------------------------------------------------------
// The transform
// ---------------------------------------------------------------------------

#[test]
fn transform_of_a_constant() {
    let mut r = [0u32; 512];
    r[0] = 5;
    ntt(&mut r, &Twiddles::new());
    assert_eq!(r, [5u32; 512]);
}

#[test]
fn transform_of_x_lists_the_roots() {
    let mut r = [0u32; 512];
    r[1] = 1;
    ntt(&mut r, &Twiddles::new());
    assert_eq!(r[0], 49);
    assert_eq!(r[1], Q - 49);
    let mut seen = r.to_vec();
    seen.sort();
    seen.dedup();
    assert_eq!(seen.len(), 512);
    for z in r {
        let mut power: u32 = 1;
        for _ in 0..512 {
            power = power * z % Q;
        }
        assert_eq!(power, Q - 1);
    }
}

#[test]
fn inverse_undoes_the_transform_up_to_512() {
    let tw = Twiddles::new();
    let poly = random_poly(3);
    let mut r = poly;
    ntt(&mut r, &tw);
    inv_ntt(&mut r, &tw);
    assert_eq!(r, poly.map(|v| v * 512 % Q));
}

#[test]
fn pointwise_product_is_the_ring_product() {
    let tw = Twiddles::new();
    let (a, b) = (random_poly(4), random_poly(5));
    let (mut x, mut y) = (a, b);
    ntt(&mut x, &tw);
    ntt(&mut y, &tw);
    for i in 0..512 {
        x[i] = x[i] * y[i] % Q * 12265 % Q;
    }
    inv_ntt(&mut x, &tw);
    assert_eq!(x, schoolbook(&a, &b));
}

// ---------------------------------------------------------------------------
// The norm
// ---------------------------------------------------------------------------

#[test]
fn norm_may_reach_the_bound_and_not_pass_it() {
    let zero_key = [0u16; 512];
    let mut s2 = [0i16; 512];
    let mut c = [0u16; 512];
    // 5833^2 + 104^2 + 4^2 + 2^2 + 1^2 = 34034726
    c[0] = 5833;
    c[1] = 12289 - 104;
    s2[2] = -4;
    s2[3] = 2;
    s2[511] = 1;
    assert!(norm_check_with_prepared(&zero_key, &s2, &c));
    c[500] = 1;
    assert!(!norm_check_with_prepared(&zero_key, &s2, &c));
    c[500] = 0;
    s2[0] = -1;
    assert!(!norm_check_with_prepared(&zero_key, &s2, &c));
}

#[test]
fn residues_are_centered() {
    let zero_key = [0u16; 512];
    let s2 = [0i16; 512];
    let mut c = [0u16; 512];
    c[9] = 12288;
    assert!(norm_check_with_prepared(&zero_key, &s2, &c));
    c[9] = 6144;
    assert!(!norm_check_with_prepared(&zero_key, &s2, &c));
    c[9] = 6145;
    assert!(!norm_check_with_prepared(&zero_key, &s2, &c));
}

#[test]
fn product_with_the_key_is_taken_off() {
    let tw = Twiddles::new();
    let h = random_poly(6);
    let mut prepared = h;
    ntt(&mut prepared, &tw);
    let prepared = prepared.map(|v| (v * 12265 % Q) as u16);
    let mut s2 = [0i16; 512];
    let mut residues = [0u32; 512];
    for (i, word) in random_words(7, 512).into_iter().enumerate() {
        s2[i] = (word % 301) as i16 - 150;
        residues[i] = (s2[i] as i32 + Q as i32) as u32 % Q;
    }
    let t = schoolbook(&residues, &h);
    let mut c = t.map(|v| v as u16);
    assert!(norm_check_with_prepared(&prepared, &s2, &c));
    c[17] = (c[17] + 6000) % 12289;
    assert!(!norm_check_with_prepared(&prepared, &s2, &c));
}
