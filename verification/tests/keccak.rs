use solana_falcon512::keccak::RATE;
use solana_falcon512::Shake256;

fn shake(message: &[u8], len: usize) -> Vec<u8> {
    let mut s = Shake256::new();
    s.absorb(message);
    s.finalize();
    let mut out = vec![0u8; len];
    s.squeeze(&mut out);
    out
}

#[test]
fn shake256_empty() {
    let expected: [u8; 32] = [
        0x46, 0xb9, 0xdd, 0x2b, 0x0b, 0xa8, 0x8d, 0x13, 0x23, 0x3b, 0x3f, 0xeb, 0x74, 0x3e, 0xeb,
        0x24, 0x3f, 0xcd, 0x52, 0xea, 0x62, 0xb8, 0x1b, 0x82, 0xb5, 0x0c, 0x27, 0x64, 0x6e, 0xd5,
        0x76, 0x2f,
    ];
    let mut s = Shake256::new();
    s.finalize();
    let mut out = [0u8; 32];
    s.squeeze(&mut out);
    assert_eq!(out, expected);
}

#[test]
fn shake256_abc() {
    let expected: [u8; 32] = [
        0x48, 0x33, 0x66, 0x60, 0x13, 0x60, 0xa8, 0x77, 0x1c, 0x68, 0x63, 0x08, 0x0c, 0xc4, 0x11,
        0x4d, 0x8d, 0xb4, 0x45, 0x30, 0xf8, 0xf1, 0xe1, 0xee, 0x4f, 0x94, 0xea, 0x37, 0xe7, 0x8b,
        0x57, 0x39,
    ];
    let mut s = Shake256::new();
    s.absorb(b"abc");
    s.finalize();
    let mut out = [0u8; 32];
    s.squeeze(&mut out);
    assert_eq!(out, expected);
}

#[test]
fn shake256_long_squeeze() {
    let mut s = Shake256::new();
    s.finalize();
    let mut out = [0u8; 200];
    s.squeeze(&mut out);
    let mut s2 = Shake256::new();
    s2.finalize();
    let mut a = [0u8; 100];
    let mut b = [0u8; 100];
    s2.squeeze(&mut a);
    s2.squeeze(&mut b);
    assert_eq!(&out[..100], &a[..]);
    assert_eq!(&out[100..], &b[..]);
}

#[test]
fn absorbing_in_pieces_is_absorbing_at_once() {
    let message: Vec<u8> = pattern(3 * RATE + 5);
    let whole = shake(&message, 300);
    for cut in [0, 1, 7, 8, 9, 135, 136, 137, 200, message.len()] {
        let mut s = Shake256::new();
        s.absorb(&message[..cut]);
        s.absorb(&message[cut..]);
        s.finalize();
        let mut out = vec![0u8; 300];
        s.squeeze(&mut out);
        assert_eq!(out, whole, "cut at {}", cut);
    }
}

fn pattern(len: usize) -> Vec<u8> {
    (0..len).map(|i| (i * 7 % 251) as u8).collect()
}

fn hex(bytes: &[u8]) -> String {
    bytes.iter().map(|b| format!("{:02x}", b)).collect()
}

#[test]
fn several_blocks_in_and_out() {
    let out = shake(&pattern(3 * RATE + 5), 300);
    assert_eq!(hex(&out[..16]), "f43ff6e53307411fa4c69e1cc880ed15");
    assert_eq!(hex(&out[136..152]), "2948fc59e0752bf9a10da2364d315437");
    assert_eq!(hex(&out[284..]), "97b9a546d45a8044a1793babb60d27ba");
}

#[test]
fn padding_around_a_full_block() {
    assert_eq!(hex(&shake(&pattern(135), 16)), "8426153592e6efb0653bbe8e6f0ab437");
    assert_eq!(hex(&shake(&pattern(136), 16)), "88f2e126d415b318823a5af24f95b76c");
    assert_eq!(hex(&shake(&pattern(137), 16)), "ff130394e9af796c4fcbebd59845cd30");
}

#[test]
fn draining_the_rate_is_squeezing() {
    let mut drained = Shake256::new();
    drained.absorb(b"drain");
    drained.finalize();
    let mut bytes = Vec::new();
    for _ in 0..3 {
        for lane in drained.rate_lanes() {
            bytes.extend_from_slice(&lane.to_le_bytes());
        }
        drained.permute();
    }
    assert_eq!(bytes, shake(b"drain", 3 * RATE));
}

#[test]
fn permutation_of_the_zero_state() {
    let mut state = [0u64; 25];
    solana_falcon512::keccak::keccak_f1600(&mut state);
    assert_eq!(state[0], 0xf1258f7940e1dde7);
    assert_eq!(state[1], 0x84d5ccf933c0478a);
    assert_eq!(state[24], 0xeaf1ff7b5ceca249);
}
