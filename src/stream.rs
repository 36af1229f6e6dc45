//! The mathematical model of the generator: the state step, the output
//! permutation, and the stream of states and outputs that they define.
use vstd::prelude::*;

use vstd::arithmetic::div_mod::lemma_add_mod_noop;

use crate::consts::INCREMENTOR;

verus! {

/// 2^64, the modulus of the linear congruential step.
pub open spec fn modulus() -> nat {
    0x1_0000_0000_0000_0000
}

/// One step of the linear congruential recurrence:
/// `state * INCREMENTOR + inc`, modulo 2^64.
pub open spec fn lcg_step(state: u64, inc: u64) -> u64 {
    ((state as nat * INCREMENTOR as nat + inc as nat) % modulus()) as u64
}

/// The wrapping operations of the executable step compute `lcg_step`.
pub proof fn lemma_lcg_step_wrapping(state: u64, inc: u64)
    ensures
        vstd::wrapping::u64_specs::wrapping_add(
            vstd::wrapping::u64_specs::wrapping_mul(state, INCREMENTOR),
            inc,
        ) == lcg_step(state, inc),
{
    let m = modulus() as int;
    let p = state as int * INCREMENTOR as int;
    let w = vstd::wrapping::u64_specs::wrapping_mul(state, INCREMENTOR);
    assert(w as int == p % m);
    lemma_add_mod_noop(p, inc as int, m);
    assert((inc as int) % m == inc as int) by (nonlinear_arith)
        requires
            0 <= inc < m,
    ;
    assert(((p % m) + inc) % m == (p + inc) % m);
}

/// The state reached after `n` steps from `state`.
pub open spec fn advance_by(state: u64, inc: u64, n: nat) -> u64
    decreases n,
{
    if n == 0 {
        state
    } else {
        advance_by(lcg_step(state, inc), inc, (n - 1) as nat)
    }
}

/// Stepping once more after `n` steps is the state after `n + 1` steps.
pub proof fn lemma_advance_by_succ(state: u64, inc: u64, n: nat)
    ensures
        advance_by(state, inc, n + 1) == lcg_step(advance_by(state, inc, n), inc),
    decreases n,
{
    if n > 0 {
        lemma_advance_by_succ(lcg_step(state, inc), inc, (n - 1) as nat);
    } else {
        assert(advance_by(lcg_step(state, inc), inc, 0) == lcg_step(state, inc));
    }
}

/// The output permutation on the state before a step: the xorshift
/// `(s >> 18) ^ (s >> 27)` truncated to 32 bits, rotated right by the top
/// five bits of the state (the complementary left shift taken modulo 32, so
/// that a rotate by zero shifts by zero).
pub open spec fn output(old_state: u64) -> u32 {
    let xor_shifted: u32 = ((old_state >> 18u64) ^ (old_state >> 27u64)) as u32;
    let rot: u32 = (old_state >> 59u64) as u32;
    (xor_shifted >> rot) | (xor_shifted << ((32u32 - rot) as u32 & 31u32))
}

/// The `i`-th output of the stream that starts at `state`.
pub open spec fn nth_output(state: u64, inc: u64, i: nat) -> u32 {
    output(advance_by(state, inc, i))
}

/// The first `n` outputs of the stream that starts at `state`.
pub open spec fn draws(state: u64, inc: u64, n: nat) -> Seq<u32> {
    Seq::new(n, |i: int| nth_output(state, inc, i as nat))
}

/// Determinism: after `n` draws from a generator in `state`, the generator is
/// in `advance_by(state, inc, n)`, and one more draw (whose output and next
/// state are those of `output` and `lcg_step`) extends `draws(state, inc, n)`
/// by one. So `n` draws from `Pcg::new(seed, seq)` give
/// `draws(seed, (seq << 1) | 1, n)`, a function of the seed, the sequence id
/// and `n` alone.
pub proof fn lemma_draws_extend(state: u64, inc: u64, n: nat)
    ensures
        draws(state, inc, n + 1) == draws(state, inc, n).push(
            output(advance_by(state, inc, n)),
        ),
        advance_by(state, inc, n + 1) == lcg_step(advance_by(state, inc, n), inc),
{
    lemma_advance_by_succ(state, inc, n);
    assert(draws(state, inc, n + 1) =~= draws(state, inc, n).push(
        output(advance_by(state, inc, n)),
    ));
}

/// The smallest 32-bit draw that is kept when drawing below `bound`:
/// `2^32 mod bound`, so that the kept draws cover each residue equally often.
pub open spec fn threshold(bound: u32) -> u32 {
    ((0x1_0000_0000 - bound) % (bound as int)) as u32
}

/// Whether the 32-bit output of `state` is kept when drawing below `bound`.
pub open spec fn accepts(state: u64, bound: u32) -> bool {
    output(state) >= threshold(bound)
}

/// `k` is the position of the first kept draw of the stream from `state`.
pub open spec fn first_accepted(state: u64, inc: u64, bound: u32, k: nat) -> bool {
    &&& accepts(advance_by(state, inc, k), bound)
    &&& forall|j: nat| j < k ==> !accepts(#[trigger] advance_by(state, inc, j), bound)
}

/// A state whose 32-bit output is `u32::MAX`, which every bound accepts.
pub open spec fn all_ones_state() -> u64 {
    0x3_fe00_ff80_0000
}

/// The output of `all_ones_state` has its low 32 bits set.
pub proof fn lemma_all_ones_state(bound: u32)
    ensures
        output(all_ones_state()) == 0xffff_ffffu32,
        accepts(all_ones_state(), bound),
{
    assert(output(0x3_fe00_ff80_0000u64) == 0xffff_ffffu32) by (bit_vector);
}

/// Byte `j` (0 being the least significant) of `x`.
pub open spec fn le_byte(x: u64, j: nat) -> u8 {
    (x >> ((8 * j) as u64)) as u8
}

/// The little-endian serialization of `x`.
pub open spec fn le_bytes(x: u64) -> Seq<u8> {
    Seq::new(8, |j: int| le_byte(x, j as nat))
}

/// The first `n` bytes of the byte stream that starts at `state`: the
/// outputs in order, each widened to 64 bits and serialized little-endian,
/// concatenated.
pub open spec fn stream_bytes(state: u64, inc: u64, n: nat) -> Seq<u8> {
    Seq::new(
        n,
        |i: int| le_byte(nth_output(state, inc, (i / 8) as nat) as u64, (i % 8) as nat),
    )
}

/// The number of outputs consumed to produce `n` bytes.
pub open spec fn words_for(n: nat) -> nat {
    (n + 7) / 8
}

/// Filling eight bytes gives the little-endian serialization of the first
/// output of the same stream, widened to 64 bits, and takes one step.
pub proof fn lemma_eight_bytes_are_one_output(state: u64, inc: u64)
    ensures
        stream_bytes(state, inc, 8) == le_bytes(output(state) as u64),
        words_for(8) == 1,
{
    assert(stream_bytes(state, inc, 8) =~= le_bytes(output(state) as u64));
}

} // verus!
