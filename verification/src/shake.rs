//! SHAKE-256 as a function of whole messages: pad to a multiple of the rate,
//! absorb block by block, then read the rate between permutations. The
//! incremental sponge computes this function.
use vstd::arithmetic::power2::pow2;
use vstd::prelude::*;

use crate::keccak::{
    keccak_f, lane_byte, lane_of, law_absorb_concat, lemma_absorb_chunk, lemma_absorb_wf,
    lemma_lane_byte, lemma_skip_blocks, permuted, xor_byte, Sponge, RATE, RATE_LANES,
};

verus! {

/// The padding of a message of `len` bytes: the domain bits `1111`, a one bit,
/// as many zero bits as needed, and a last one bit that ends a block.
pub open spec fn padding(len: nat) -> Seq<u8> {
    let room = (RATE - len % RATE as nat) as nat;
    if room == 1 {
        seq![0x9fu8]
    } else {
        seq![0x1fu8] + Seq::new((room - 2) as nat, |i: int| 0u8) + seq![0x80u8]
    }
}

/// A block of the rate as lanes; the lanes of the capacity are zero.
pub open spec fn block_lanes(block: Seq<u8>) -> Seq<u64> {
    Seq::new(
        25,
        |i: int|
            if i < RATE_LANES {
                lane_of(block.subrange(8 * i, 8 * i + 8))
            } else {
                0
            },
    )
}

/// Lane by lane XOR of two states.
pub open spec fn xor_lanes(a: Seq<u64>, b: Seq<u64>) -> Seq<u64> {
    Seq::new(25, |i: int| a[i] ^ b[i])
}

/// The state after the blocks of `input`, each XORed in and permuted.
pub open spec fn absorbed_blocks(input: Seq<u8>) -> Seq<u64>
    decreases input.len(),
{
    if input.len() < RATE {
        Seq::new(25, |i: int| 0u64)
    } else {
        let rest = (input.len() - RATE) as int;
        keccak_f(xor_lanes(absorbed_blocks(input.take(rest)), block_lanes(input.skip(rest))))
    }
}

/// The first `n` bytes of SHAKE-256 of a message.
pub open spec fn shake256(message: Seq<u8>, n: nat) -> Seq<u8> {
    let state = absorbed_blocks(message + padding(message.len()));
    Seq::new(
        n,
        |i: int| lane_byte(permuted(state, (i / RATE as int) as nat), i % RATE as int),
    )
}

/// The position after absorbing counts the bytes modulo the rate.
proof fn lemma_absorb_pos(data: Seq<u8>)
    ensures
        Sponge::empty().absorb(data).pos == data.len() % 136,
    decreases data.len(),
{
    if data.len() > 0 {
        lemma_absorb_pos(data.drop_last());
    }
}

/// The first `k` lanes of a block absorbed at the start of the rate.
proof fn lemma_absorb_lanes(sp: Sponge, block: Seq<u8>, k: int)
    requires
        sp.wf(),
        sp.pos == 0,
        block.len() == RATE,
        0 <= k < RATE_LANES,
    ensures
        sp.absorb(block.take(8 * k)) == (Sponge {
            lanes: Seq::new(
                25,
                |i: int|
                    if i < k {
                        sp.lanes[i] ^ block_lanes(block)[i]
                    } else {
                        sp.lanes[i]
                    },
            ),
            pos: 8 * k,
        }),
    decreases k,
{
    if k == 0 {
        assert(block.take(0) =~= Seq::<u8>::empty());
        assert(sp.absorb(block.take(0)) =~= sp);
    } else {
        lemma_absorb_lanes(sp, block, k - 1);
        let head = block.take(8 * (k - 1));
        let chunk = block.subrange(8 * (k - 1), 8 * k);
        law_absorb_concat(sp, head, chunk);
        assert(head + chunk =~= block.take(8 * k));
        lemma_absorb_chunk(sp.absorb(head), chunk);
        assert(chunk == block.subrange(8 * (k - 1), 8 * (k - 1) + 8));
    }
}

/// A whole block absorbed at the start of the rate.
proof fn lemma_absorb_block(sp: Sponge, block: Seq<u8>)
    requires
        sp.wf(),
        sp.pos == 0,
        block.len() == RATE,
    ensures
        sp.absorb(block) == (Sponge {
            lanes: keccak_f(xor_lanes(sp.lanes, block_lanes(block))),
            pos: 0,
        }),
{
    lemma_absorb_lanes(sp, block, 16);
    let head = block.take(128);
    let chunk = block.subrange(128, 136);
    law_absorb_concat(sp, head, chunk);
    assert(head + chunk =~= block);
    let before = sp.absorb(head);
    lemma_absorb_chunk(before, chunk);
    let lanes = before.lanes.update(16, before.lanes[16] ^ lane_of(chunk));
    assert(lanes =~= xor_lanes(sp.lanes, block_lanes(block))) by {
        assert forall|i: int| 17 <= i < 25 implies sp.lanes[i] == #[trigger] sp.lanes[i]
            ^ block_lanes(block)[i] by {
            let w = sp.lanes[i];
            assert(w ^ 0u64 == w) by (bit_vector);
        }
    }
}

/// Absorbing whole blocks is absorbing them block by block.
proof fn lemma_absorb_blocks(input: Seq<u8>)
    requires
        input.len() % 136 == 0,
    ensures
        Sponge::empty().absorb(input) == (Sponge { lanes: absorbed_blocks(input), pos: 0 }),
    decreases input.len(),
{
    if input.len() < RATE {
        assert(Sponge::empty().absorb(input) =~= Sponge { lanes: absorbed_blocks(input), pos: 0 });
    } else {
        let rest = input.len() - RATE;
        let head = input.take(rest);
        let block = input.skip(rest);
        lemma_absorb_blocks(head);
        lemma_absorb_wf(Sponge::empty(), head);
        law_absorb_concat(Sponge::empty(), head, block);
        assert(head + block =~= input);
        lemma_absorb_block(Sponge::empty().absorb(head), block);
    }
}

/// Zero bytes only move the position.
proof fn lemma_absorb_zeros(sp: Sponge, n: nat)
    requires
        sp.wf(),
        sp.pos + n < RATE,
    ensures
        sp.absorb(Seq::new(n, |i: int| 0u8)) == (Sponge { lanes: sp.lanes, pos: sp.pos + n }),
    decreases n,
{
    let all = Seq::new(n, |i: int| 0u8);
    if n == 0 {
        assert(sp.absorb(all) =~= sp);
    } else {
        let fewer = Seq::new((n - 1) as nat, |i: int| 0u8);
        assert(all.drop_last() =~= fewer);
        lemma_absorb_zeros(sp, (n - 1) as nat);
        let pos = sp.pos + n - 1;
        let w = sp.lanes[pos / 8];
        let shift = (8 * (pos % 8)) as u64;
        assert(0u64 << shift == 0 && w ^ 0u64 == w) by (bit_vector)
            requires
                shift < 64,
        ;
        assert(xor_byte(sp.lanes, pos, 0) =~= sp.lanes);
    }
}

/// Finalising is absorbing the padding.
proof fn lemma_finalize_is_padding(message: Seq<u8>)
    ensures
        Sponge::empty().absorb(message).finalize() == Sponge::empty().absorb(
            message + padding(message.len()),
        ),
{
    lemma_absorb_pos(message);
    lemma_absorb_wf(Sponge::empty(), message);
    law_absorb_concat(Sponge::empty(), message, padding(message.len()));
    lemma_finalize_at(Sponge::empty().absorb(message), message.len());
}

proof fn lemma_finalize_at(sp: Sponge, len: nat)
    requires
        sp.wf(),
        sp.pos == len % 136,
    ensures
        sp.finalize() == sp.absorb(padding(len)),
{
    let pad = padding(len);
    let room = 136 - len % 136;
    if room == 1 {
        assert(pad.drop_last() =~= Seq::<u8>::empty());
        assert(sp.absorb(pad.drop_last()) == sp);
        let w = sp.lanes[16];
        assert((w ^ (0x1fu64 << 56)) ^ (0x80u64 << 56) == w ^ (0x9fu64 << 56)) by (bit_vector);
        assert(xor_byte(xor_byte(sp.lanes, 135, 0x1f), 135, 0x80) =~= xor_byte(
            sp.lanes,
            135,
            0x9f,
        ));
    } else {
        let first = seq![0x1fu8];
        let zeros = Seq::new((room - 2) as nat, |i: int| 0u8);
        assert(pad.drop_last() =~= first + zeros);
        law_absorb_concat(sp, first, zeros);
        assert(first.drop_last() =~= Seq::<u8>::empty());
        assert(sp.absorb(first.drop_last()) == sp);
        let one = sp.absorb(first);
        assert(one == Sponge { lanes: xor_byte(sp.lanes, sp.pos, 0x1f), pos: sp.pos + 1 });
        lemma_absorb_zeros(one, (room - 2) as nat);
    }
}

/// Finalising absorbs what is missing to a full block: the byte `0x1f`, zeros, and
/// `0x80` in the last place, the first and the last joined where they coincide.
pub proof fn law_finalize_pads(sp: Sponge, pad: Seq<u8>)
    requires
        sp.lanes.len() == 25,
        0 <= sp.pos < 136,
        pad.len() == 136 - sp.pos,
        pad.len() == 1 ==> pad[0] == 0x9f,
        pad.len() > 1 ==> pad[0] == 0x1f && pad[pad.len() - 1] == 0x80,
        forall|i: int| 1 <= i < pad.len() - 1 ==> #[trigger] pad[i] == 0,
    ensures
        sp.finalize() == sp.absorb(pad),
{
    assert(pad =~= padding(sp.pos as nat));
    lemma_finalize_at(sp, sp.pos as nat);
}

/// SHAKE-256 of a message, from the bytes of its padded form up. The padded form
/// is cut into blocks of 17 little-endian words; each block is added to the state,
/// which is then permuted; output bytes are read from the first 17 words, with a
/// permutation after every 136.
#[verifier::spinoff_prover]
pub proof fn law_shake256(
    message: Seq<u8>,
    input: Seq<u8>,
    words: Seq<Seq<u64>>,
    states: Seq<Seq<u64>>,
    outs: Seq<Seq<u64>>,
    n: nat,
    p: int,
)
    requires
        input.len() % 136 == 0,
        message.len() < input.len() <= message.len() + 136,
        forall|i: int| 0 <= i < message.len() ==> #[trigger] input[i] == message[i],
        input.len() == message.len() + 1 ==> input[message.len() as int] == 0x9f,
        input.len() > message.len() + 1 ==> input[message.len() as int] == 0x1f
            && input[input.len() - 1] == 0x80,
        forall|i: int| message.len() < i < input.len() - 1 ==> #[trigger] input[i] == 0,
        words.len() == input.len() / 136,
        forall|k: int, l: int|
            0 <= k < words.len() && 0 <= l < 17 ==> #[trigger] words[k][l] == input[136 * k + 8 * l]
                + input[136 * k + 8 * l + 1] * 0x100 + input[136 * k + 8 * l + 2] * 0x1_0000
                + input[136 * k + 8 * l + 3] * 0x100_0000 + input[136 * k + 8 * l + 4]
                * 0x1_0000_0000 + input[136 * k + 8 * l + 5] * 0x100_0000_0000 + input[136 * k + 8
                * l + 6] * 0x1_0000_0000_0000 + input[136 * k + 8 * l + 7]
                * 0x100_0000_0000_0000,
        forall|k: int, l: int|
            0 <= k < words.len() && 17 <= l < 25 ==> #[trigger] words[k][l] == 0,
        states.len() == words.len() + 1,
        states[0] == Seq::new(25, |l: int| 0u64),
        forall|k: int|
            1 <= k < states.len() ==> #[trigger] states[k] == keccak_f(
                Seq::new(25, |l: int| states[k - 1][l] ^ words[k - 1][l]),
            ),
        p / 136 < outs.len(),
        outs[0] == states[words.len() as int],
        forall|k: int| 1 <= k < outs.len() ==> #[trigger] outs[k] == keccak_f(outs[k - 1]),
        0 <= p < n,
    ensures
        shake256(message, n).len() == n,
        shake256(message, n)[p] == (outs[p / 136][p % 136 / 8] as int / pow2(
            (8 * (p % 8)) as nat,
        ) as int) % 256,
{
    assert(input =~= message + padding(message.len())) by {
        let pad = padding(message.len());
        assert(pad.len() == 136 - message.len() % 136);
        assert(input.len() == message.len() + pad.len());
    }
    lemma_absorbed_states(input, words, states, words.len() as int);
    assert(input.take(136 * (words.len() as int)) =~= input);
    let state = absorbed_blocks(input);
    lemma_permuted_states(outs, p / 136);
    assert(p % 136 % 8 == p % 8);
    lemma_lane_byte(outs[p / 136], p % 136);
}

proof fn lemma_permuted_states(outs: Seq<Seq<u64>>, k: int)
    requires
        0 <= k < outs.len(),
        forall|k: int| 1 <= k < outs.len() ==> #[trigger] outs[k] == keccak_f(outs[k - 1]),
    ensures
        permuted(outs[0], k as nat) == outs[k],
    decreases k,
{
    if k > 0 {
        lemma_permuted_states(outs, k - 1);
    }
}

#[verifier::spinoff_prover]
proof fn lemma_absorbed_states(
    input: Seq<u8>,
    words: Seq<Seq<u64>>,
    states: Seq<Seq<u64>>,
    k: int,
)
    requires
        input.len() == 136 * words.len(),
        forall|k: int, l: int|
            0 <= k < words.len() && 0 <= l < 17 ==> #[trigger] words[k][l] == input[136 * k + 8 * l]
                + input[136 * k + 8 * l + 1] * 0x100 + input[136 * k + 8 * l + 2] * 0x1_0000
                + input[136 * k + 8 * l + 3] * 0x100_0000 + input[136 * k + 8 * l + 4]
                * 0x1_0000_0000 + input[136 * k + 8 * l + 5] * 0x100_0000_0000 + input[136 * k + 8
                * l + 6] * 0x1_0000_0000_0000 + input[136 * k + 8 * l + 7]
                * 0x100_0000_0000_0000,
        forall|k: int, l: int|
            0 <= k < words.len() && 17 <= l < 25 ==> #[trigger] words[k][l] == 0,
        states.len() == words.len() + 1,
        states[0] == Seq::new(25, |l: int| 0u64),
        forall|k: int|
            1 <= k < states.len() ==> #[trigger] states[k] == keccak_f(
                Seq::new(25, |l: int| states[k - 1][l] ^ words[k - 1][l]),
            ),
        0 <= k <= words.len(),
    ensures
        absorbed_blocks(input.take(136 * k)) == states[k],
    decreases k,
{
    let part = input.take(136 * k);
    if k > 0 {
        let m = k - 1;
        lemma_absorbed_states(input, words, states, m);
        assert(part.take(136 * m) =~= input.take(136 * m));
        let block = part.skip(136 * m);
        let lanes = block_lanes(block);
        assert forall|l: int| 0 <= l < 25 implies #[trigger] lanes[l] == words[m][l] by {
            if l < 17 {
                let b = block.subrange(8 * l, 8 * l + 8);
                lemma_lane_of(b);
                assert(b[0] == input[136 * m + 8 * l] && b[1] == input[136 * m + 8 * l + 1]);
                assert(b[2] == input[136 * m + 8 * l + 2] && b[3] == input[136 * m + 8 * l + 3]);
                assert(b[4] == input[136 * m + 8 * l + 4] && b[5] == input[136 * m + 8 * l + 5]);
                assert(b[6] == input[136 * m + 8 * l + 6] && b[7] == input[136 * m + 8 * l + 7]);
            }
        }
        assert(xor_lanes(states[m], lanes) =~= Seq::new(
            25,
            |l: int| states[k - 1][l] ^ words[k - 1][l],
        ));
    } else {
        assert(part.len() == 0);
    }
}

/// A lane is a number to the base 256.
proof fn lemma_lane_of(b: Seq<u8>)
    requires
        b.len() == 8,
    ensures
        lane_of(b) == b[0] + b[1] * 0x100 + b[2] * 0x1_0000 + b[3] * 0x100_0000 + b[4]
            * 0x1_0000_0000 + b[5] * 0x100_0000_0000 + b[6] * 0x1_0000_0000_0000 + b[7]
            * 0x100_0000_0000_0000,
{
    let (b0, b1, b2, b3) = (b[0], b[1], b[2], b[3]);
    let (b4, b5, b6, b7) = (b[4], b[5], b[6], b[7]);
    assert((b0 as u64) | ((b1 as u64) << 8) | ((b2 as u64) << 16) | ((b3 as u64) << 24) | ((
    b4 as u64) << 32) | ((b5 as u64) << 40) | ((b6 as u64) << 48) | ((b7 as u64) << 56) == b0 + b1
        * 0x100 + b2 * 0x1_0000 + b3 * 0x100_0000 + b4 * 0x1_0000_0000 + b5 * 0x100_0000_0000 + b6
        * 0x1_0000_0000_0000 + b7 * 0x100_0000_0000_0000) by (bit_vector);
}

/// Absorbing a message, finalising and squeezing gives SHAKE-256 of it.
pub proof fn law_sponge_is_shake256(message: Seq<u8>, n: nat)
    ensures
        Sponge::empty().absorb(message).finalize().squeeze(n) == shake256(message, n),
{
    let sp = Sponge::empty().absorb(message).finalize();
    let input = message + padding(message.len());
    lemma_finalize_is_padding(message);
    assert(input.len() % 136 == 0) by {
        assert(padding(message.len()).len() == 136 - message.len() % 136);
    }
    lemma_absorb_blocks(input);
    assert forall|i: int| 0 <= i < n implies sp.squeeze(n)[i] == #[trigger] shake256(
        message,
        n,
    )[i] by {
        lemma_skip_blocks(sp, i as nat);
    }
    assert(sp.squeeze(n) =~= shake256(message, n));
}

} // verus!
