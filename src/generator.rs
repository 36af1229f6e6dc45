//! The generator itself.
use vstd::prelude::*;

use crate::consts::{INCREMENTOR, INIT_INC, INIT_STATE};
use crate::error::PcgError;
use crate::period::lemma_every_state_reached;
use crate::stream::{
    accepts, advance_by, all_ones_state, first_accepted, lcg_step, lemma_advance_by_succ,
    lemma_all_ones_state, lemma_lcg_step_wrapping, nth_output, output, stream_bytes, threshold,
    words_for,
};

verus! {

/// Declares `rand_core::Error`, the error type that `rand_core`'s fallible
/// byte sources return; it is only named in a signature, never built here.
#[verifier::external_type_specification]
#[verifier::external_body]
pub struct ExRandError(rand_core::Error);

/// The abstract value of a generator: its current state and its increment.
pub struct PcgView {
    pub state: u64,
    pub inc: u64,
}

/// The state of a PCG generator.
///
/// The increment is odd at all times, which gives the underlying linear
/// congruential recurrence its full period of 2^64.
#[derive(Debug, PartialEq, Eq, Structural)]
pub struct Pcg {
    state: u64,
    inc: u64,
}

impl View for Pcg {
    type V = PcgView;

    closed spec fn view(&self) -> PcgView {
        PcgView { state: self.state, inc: self.inc }
    }
}

impl Clone for Pcg {
    fn clone(&self) -> (r: Self)
        ensures
            r == *self,
    {
        proof {
            use_type_invariant(self);
        }
        Pcg { state: self.state, inc: self.inc }
    }
}

impl Default for Pcg {
    /// The generator with the fixed default state and increment.
    fn default() -> (r: Self)
        ensures
            r@.state == INIT_STATE,
            r@.inc == INIT_INC,
    {
        Pcg { state: INIT_STATE, inc: INIT_INC }
    }
}

impl Pcg {
    #[verifier::type_invariant]
    spec fn inc_is_odd(&self) -> bool {
        self.inc % 2 == 1
    }

    /// Constructs a generator with the given seed as its state and the
    /// stream selected by `seq`: the increment is `(seq << 1) | 1`.
    pub fn new(seed: u64, seq: u64) -> (r: Pcg)
        ensures
            r@.state == seed,
            r@.inc == (seq << 1u64) | 1u64,
            r@.inc % 2 == 1,
    {
        let inc = (seq << 1u64) | 1u64;
        assert(((seq << 1u64) | 1u64) % 2 == 1) by (bit_vector);
        Pcg { state: seed, inc }
    }

    /// Advances the generator once and returns the output of the state
    /// before the step, widened to 64 bits: each step gives one 32-bit
    /// output, whichever width is asked for.
    pub fn next_u64(&mut self) -> (r: u64)
        ensures
            r == output(old(self)@.state) as u64,
            final(self)@.state == lcg_step(old(self)@.state, old(self)@.inc),
            final(self)@.inc == old(self)@.inc,
    {
        proof {
            use_type_invariant(&*self);
            lemma_lcg_step_wrapping(self.state, self.inc);
        }
        let old_state = self.state;
        self.state = old_state.wrapping_mul(INCREMENTOR).wrapping_add(self.inc);
        let xor_shifted = ((old_state >> 18u64) ^ (old_state >> 27u64)) as u32;
        let rot = (old_state >> 59u64) as u32;
        assert(rot <= 31) by (bit_vector)
            requires
                rot == (old_state >> 59u64) as u32,
        ;
        let back: u32 = (32 - rot) & 31;
        assert(back <= 31) by (bit_vector)
            requires
                back == (32 - rot) as u32 & 31u32,
        ;
        let out = (xor_shifted >> rot) | (xor_shifted << back);
        out as u64
    }

    /// Advances the generator once and returns the low 32 bits of
    /// [`Pcg::next_u64`], which are the whole output of the step.
    pub fn next_u32(&mut self) -> (r: u32)
        ensures
            r == output(old(self)@.state),
            final(self)@.state == lcg_step(old(self)@.state, old(self)@.inc),
            final(self)@.inc == old(self)@.inc,
    {
        self.next_u64() as u32
    }

    /// Fills `dest` with the byte stream of the generator: each output of
    /// [`Pcg::next_u64`] in turn, serialized little-endian, the last one cut
    /// short where the length is not a multiple of eight. Takes one step per
    /// eight bytes begun.
    pub fn fill_bytes(&mut self, dest: &mut [u8])
        ensures
            final(dest)@ == stream_bytes(old(self)@.state, old(self)@.inc, old(dest)@.len()),
            final(self)@.state == advance_by(
                old(self)@.state,
                old(self)@.inc,
                words_for(old(dest)@.len()),
            ),
            final(self)@.inc == old(self)@.inc,
    {
        let ghost s0 = self@.state;
        let ghost inc0 = self@.inc;
        let ghost mut k: nat = 0;
        let len = dest.len();
        let mut pos: usize = 0;
        while pos < len
            invariant
                len == dest@.len(),
                pos <= len,
                pos % 8 == 0 || pos == len,
                k == (pos + 7) / 8,
                self@.inc == inc0,
                self@.state == advance_by(s0, inc0, k),
                forall|i: int|
                    0 <= i < pos ==> dest@[i] == #[trigger] stream_bytes(s0, inc0, len as nat)[i],
            decreases len - pos,
        {
            let v = self.next_u64();
            proof {
                lemma_advance_by_succ(s0, inc0, k);
            }
            let n: usize = if len - pos < 8 {
                len - pos
            } else {
                8
            };
            let mut j: usize = 0;
            while j < n
                invariant
                    len == dest@.len(),
                    pos % 8 == 0,
                    k == pos / 8,
                    n <= 8,
                    pos + n <= len,
                    j <= n,
                    v == nth_output(s0, inc0, k) as u64,
                    forall|i: int|
                        0 <= i < pos + j ==> dest@[i] == #[trigger] stream_bytes(
                            s0,
                            inc0,
                            len as nat,
                        )[i],
                decreases n - j,
            {
                dest[pos + j] = (v >> (8 * j as u64)) as u8;
                assert((pos + j) / 8 == k && (pos + j) % 8 == j);
                j = j + 1;
            }
            pos = pos + n;
            proof {
                k = k + 1;
            }
        }
        assert(dest@ =~= stream_bytes(s0, inc0, len as nat));
    }

    /// [`Pcg::fill_bytes`], for callers that want a fallible byte source:
    /// it always succeeds.
    pub fn try_fill_bytes(&mut self, dest: &mut [u8]) -> (r: Result<(), rand_core::Error>)
        ensures
            r is Ok,
            final(dest)@ == stream_bytes(old(self)@.state, old(self)@.inc, old(dest)@.len()),
            final(self)@.state == advance_by(
                old(self)@.state,
                old(self)@.inc,
                words_for(old(dest)@.len()),
            ),
            final(self)@.inc == old(self)@.inc,
    {
        self.fill_bytes(dest);
        Ok(())
    }

    /// Rebuilds a generator from a state and an increment, as persisted by
    /// [`Pcg::state`] and [`Pcg::inc`]; `None` where the increment is even,
    /// which no generator has.
    pub fn from_raw(state: u64, inc: u64) -> (r: Option<Pcg>)
        ensures
            inc % 2 == 1 <==> r is Some,
            r matches Some(g) ==> g@.state == state && g@.inc == inc,
    {
        if inc % 2 == 1 {
            Some(Pcg { state, inc })
        } else {
            None
        }
    }

    /// A value below `bound`, drawn without modulo bias: 32-bit draws below
    /// `threshold(bound)` are rejected and drawn again, and the first kept
    /// draw is reduced modulo `bound`. Fails with `InvalidBound`, leaving the
    /// generator as it was, when `bound` is zero.
    pub fn bounded_rand(&mut self, bound: u32) -> (r: Result<u32, PcgError>)
        ensures
            final(self)@.inc == old(self)@.inc,
            bound == 0 ==> r == Err::<u32, PcgError>(PcgError::InvalidBound) && final(self)@
                == old(self)@,
            bound > 0 ==> exists|k: nat|
                #[trigger] first_accepted(old(self)@.state, old(self)@.inc, bound, k)
                    && final(self)@.state == advance_by(old(self)@.state, old(self)@.inc, k + 1)
                    && r == Ok::<u32, PcgError>(
                    nth_output(old(self)@.state, old(self)@.inc, k) % bound,
                ),
            r matches Ok(v) ==> v < bound,
    {
        if bound == 0 {
            return Err(PcgError::InvalidBound);
        }
        let ghost s0 = self@.state;
        let ghost inc0 = self@.inc;
        proof {
            use_type_invariant(&*self);
            lemma_every_state_reached(s0, inc0, all_ones_state());
        }
        let t: u32 = (u32::MAX - bound + 1) % bound;
        // `k` counts the draws made; `left` is the number of steps still
        // needed to reach `all_ones_state`, whose draw every bound keeps, so
        // the loop stops at the latest there.
        let ghost mut k: nat = 0;
        let ghost mut left: nat = choose|n: nat| advance_by(s0, inc0, n) == all_ones_state();
        loop
            invariant
                bound > 0,
                t == threshold(bound),
                s0 == old(self)@.state,
                inc0 == old(self)@.inc,
                inc0 % 2 == 1,
                self@.inc == inc0,
                self@.state == advance_by(s0, inc0, k),
                advance_by(self@.state, inc0, left) == all_ones_state(),
                forall|j: nat| j < k ==> !accepts(#[trigger] advance_by(s0, inc0, j), bound),
            decreases left,
        {
            let ghost cur = self@.state;
            let r = self.next_u32();
            proof {
                lemma_advance_by_succ(s0, inc0, k);
            }
            if r >= t {
                assert(first_accepted(s0, inc0, bound, k));
                return Ok(r % bound);
            }
            proof {
                lemma_all_ones_state(bound);
                assert(!accepts(cur, bound));
                assert(cur != all_ones_state());
                assert(left > 0);
                k = k + 1;
                left = (left - 1) as nat;
            }
        }
    }

    /// The current state.
    pub fn state(&self) -> (r: u64)
        ensures
            r == self@.state,
    {
        self.state
    }

    /// The increment, which is odd for every generator.
    pub fn inc(&self) -> (r: u64)
        ensures
            r == self@.inc,
            r % 2 == 1,
    {
        proof {
            use_type_invariant(self);
        }
        self.inc
    }
}

} // verus!
