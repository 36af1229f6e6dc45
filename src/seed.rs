//! The seed codec: an eight-byte seed packed most-significant byte first
//! into the 64-bit state, and unpacked back.
use vstd::prelude::*;

use crate::consts::INIT_INC;
use crate::error::PcgError;
use crate::generator::Pcg;

verus! {

/// The number of bytes in a seed.
pub const N: usize = 8;

/// A seed: eight bytes, the first one the most significant of the packed
/// state. `[0, 1, 2, 3, 4, 5, 6, 7]` packs to `0x0001020304050607`.
#[derive(Debug, Copy, Clone, Hash)]
pub struct PcgSeed(pub [u8; N]);

/// A 64-bit integer as the packed form of a seed.
pub struct U64(pub u64);

/// The first `n` bytes of `b` packed most-significant byte first.
pub open spec fn pack_prefix(b: Seq<u8>, n: nat) -> u64
    decreases n,
{
    if n == 0 || n > b.len() {
        0
    } else {
        (pack_prefix(b, (n - 1) as nat) << 8u64) | (b[n - 1] as u64)
    }
}

/// The big-endian packing of a byte sequence.
pub open spec fn pack_be(b: Seq<u8>) -> u64 {
    pack_prefix(b, b.len())
}

/// The eight bytes of `x`, most significant first.
pub open spec fn unpack_be(x: u64) -> Seq<u8> {
    Seq::new(8, |i: int| (x >> ((8 * (7 - i)) as u64)) as u8)
}

/// Eight bytes placed most significant first, as one integer.
pub open spec fn join8(b0: u8, b1: u8, b2: u8, b3: u8, b4: u8, b5: u8, b6: u8, b7: u8) -> u64 {
    (b0 as u64) << 56u64 | (b1 as u64) << 48u64 | (b2 as u64) << 40u64 | (b3 as u64) << 32u64
        | (b4 as u64) << 24u64 | (b5 as u64) << 16u64 | (b6 as u64) << 8u64 | (b7 as u64)
}

/// Eight shift-and-or steps from zero build `join8` of their bytes.
proof fn lemma_steps_join8(
    b0: u8,
    b1: u8,
    b2: u8,
    b3: u8,
    b4: u8,
    b5: u8,
    b6: u8,
    b7: u8,
    p1: u64,
    p2: u64,
    p3: u64,
    p4: u64,
    p5: u64,
    p6: u64,
    p7: u64,
    p8: u64,
)
    requires
        p1 == (0u64 << 8u64) | (b0 as u64),
        p2 == (p1 << 8u64) | (b1 as u64),
        p3 == (p2 << 8u64) | (b2 as u64),
        p4 == (p3 << 8u64) | (b3 as u64),
        p5 == (p4 << 8u64) | (b4 as u64),
        p6 == (p5 << 8u64) | (b5 as u64),
        p7 == (p6 << 8u64) | (b6 as u64),
        p8 == (p7 << 8u64) | (b7 as u64),
    ensures
        p8 == join8(b0, b1, b2, b3, b4, b5, b6, b7),
{
    assert(p8 == join8(b0, b1, b2, b3, b4, b5, b6, b7)) by (bit_vector)
        requires
            p1 == (0u64 << 8u64) | (b0 as u64),
            p2 == (p1 << 8u64) | (b1 as u64),
            p3 == (p2 << 8u64) | (b2 as u64),
            p4 == (p3 << 8u64) | (b3 as u64),
            p5 == (p4 << 8u64) | (b4 as u64),
            p6 == (p5 << 8u64) | (b5 as u64),
            p7 == (p6 << 8u64) | (b6 as u64),
            p8 == (p7 << 8u64) | (b7 as u64),
    ;
}

/// The packing of eight bytes is `join8` of them.
proof fn lemma_pack_be_join8(b: Seq<u8>)
    requires
        b.len() == 8,
    ensures
        pack_be(b) == join8(b[0], b[1], b[2], b[3], b[4], b[5], b[6], b[7]),
{
    reveal_with_fuel(pack_prefix, 2);
    lemma_steps_join8(
        b[0],
        b[1],
        b[2],
        b[3],
        b[4],
        b[5],
        b[6],
        b[7],
        pack_prefix(b, 1),
        pack_prefix(b, 2),
        pack_prefix(b, 3),
        pack_prefix(b, 4),
        pack_prefix(b, 5),
        pack_prefix(b, 6),
        pack_prefix(b, 7),
        pack_prefix(b, 8),
    );
}

/// Unpacking a packed eight-byte seed gives the seed back.
pub proof fn lemma_seed_round_trip(b: Seq<u8>)
    requires
        b.len() == 8,
    ensures
        unpack_be(pack_be(b)) == b,
{
    lemma_pack_be_join8(b);
    let (b0, b1, b2, b3, b4, b5, b6, b7) = (b[0], b[1], b[2], b[3], b[4], b[5], b[6], b[7]);
    let p = join8(b0, b1, b2, b3, b4, b5, b6, b7);
    assert({
        &&& (p >> 56u64) as u8 == b0
        &&& (p >> 48u64) as u8 == b1
        &&& (p >> 40u64) as u8 == b2
        &&& (p >> 32u64) as u8 == b3
        &&& (p >> 24u64) as u8 == b4
        &&& (p >> 16u64) as u8 == b5
        &&& (p >> 8u64) as u8 == b6
        &&& (p >> 0u64) as u8 == b7
    }) by (bit_vector)
        requires
            p == join8(b0, b1, b2, b3, b4, b5, b6, b7),
    ;
    assert(unpack_be(p) =~= b);
}

/// Packing the unpacked bytes of an integer gives the integer back.
pub proof fn lemma_state_round_trip(x: u64)
    ensures
        pack_be(unpack_be(x)) == x,
{
    let b = unpack_be(x);
    lemma_pack_be_join8(b);
    let (b0, b1, b2, b3, b4, b5, b6, b7) = (b[0], b[1], b[2], b[3], b[4], b[5], b[6], b[7]);
    assert(join8(b0, b1, b2, b3, b4, b5, b6, b7) == x) by (bit_vector)
        requires
            b0 == (x >> 56u64) as u8,
            b1 == (x >> 48u64) as u8,
            b2 == (x >> 40u64) as u8,
            b3 == (x >> 32u64) as u8,
            b4 == (x >> 24u64) as u8,
            b5 == (x >> 16u64) as u8,
            b6 == (x >> 8u64) as u8,
            b7 == (x >> 0u64) as u8,
    ;
}

impl vstd::std_specs::convert::FromSpecImpl<PcgSeed> for U64 {
    open spec fn obeys_from_spec() -> bool {
        true
    }

    open spec fn from_spec(seed: PcgSeed) -> U64 {
        U64(pack_be(seed.0@))
    }
}

impl From<PcgSeed> for U64 {
    /// Packs the seed's bytes, the first one most significant.
    fn from(seed: PcgSeed) -> (r: Self)
        ensures
            r.0 == pack_be(seed.0@),
    {
        let mut res: u64 = 0;
        let mut i: usize = 0;
        while i < N
            invariant
                i <= N,
                seed.0@.len() == N,
                res == pack_prefix(seed.0@, i as nat),
            decreases N - i,
        {
            res = (res << 8u64) | (seed.0[i] as u64);
            i = i + 1;
        }
        U64(res)
    }
}

impl vstd::std_specs::convert::FromSpecImpl<u64> for PcgSeed {
    open spec fn obeys_from_spec() -> bool {
        true
    }

    open spec fn from_spec(init: u64) -> PcgSeed {
        PcgSeed(choose|a: [u8; N]| a@ == unpack_be(init))
    }
}

impl From<u64> for PcgSeed {
    /// Unpacks the integer into eight bytes, the most significant first.
    fn from(init: u64) -> (r: Self)
        ensures
            r.0@ == unpack_be(init),
    {
        let mut seed: [u8; N] = [0u8; N];
        let mut i: usize = 0;
        while i < N
            invariant
                i <= N,
                forall|j: int| 0 <= j < i ==> seed@[j] == #[trigger] unpack_be(init)[j],
            decreases N - i,
        {
            let shift: u64 = ((N - i - 1) * 8) as u64;
            seed[i] = (init >> shift) as u8;
            i = i + 1;
        }
        assert(seed@ =~= unpack_be(init));
        proof {
            let a = choose|a: [u8; N]| a@ == unpack_be(init);
            assert(a@ == unpack_be(init));
            assert(a =~= seed);
        }
        PcgSeed(seed)
    }
}

impl vstd::std_specs::convert::FromSpecImpl<U64> for PcgSeed {
    open spec fn obeys_from_spec() -> bool {
        true
    }

    open spec fn from_spec(init: U64) -> PcgSeed {
        PcgSeed(choose|a: [u8; N]| a@ == unpack_be(init.0))
    }
}

impl From<U64> for PcgSeed {
    /// Unpacks the integer into eight bytes, the most significant first.
    fn from(init: U64) -> (r: Self)
        ensures
            r.0@ == unpack_be(init.0),
    {
        PcgSeed::from(init.0)
    }
}

impl Default for PcgSeed {
    /// The seed of eight zero bytes.
    fn default() -> (r: Self)
        ensures
            r.0@ == seq![0u8, 0u8, 0u8, 0u8, 0u8, 0u8, 0u8, 0u8],
    {
        let r = PcgSeed([0u8; N]);
        assert(r.0@ =~= seq![0u8, 0u8, 0u8, 0u8, 0u8, 0u8, 0u8, 0u8]);
        r
    }
}

impl PcgSeed {
    /// Takes a seed from a byte slice, which must hold exactly eight bytes.
    pub fn from_bytes(bytes: &[u8]) -> (r: Result<PcgSeed, PcgError>)
        ensures
            bytes@.len() == N <==> r is Ok,
            r matches Ok(seed) ==> seed.0@ == bytes@,
            r matches Err(e) ==> e == PcgError::SeedLengthMismatch,
    {
        if bytes.len() != N {
            return Err(PcgError::SeedLengthMismatch);
        }
        let mut seed: [u8; N] = [0u8; N];
        let mut i: usize = 0;
        while i < N
            invariant
                i <= N,
                bytes@.len() == N,
                forall|j: int| 0 <= j < i ==> seed@[j] == bytes@[j],
            decreases N - i,
        {
            seed[i] = bytes[i];
            i = i + 1;
        }
        assert(seed@ =~= bytes@);
        Ok(PcgSeed(seed))
    }
}

impl Pcg {
    /// A generator whose state is the packed seed and whose increment is the
    /// fixed default increment: every seed selects a starting point on the
    /// same stream.
    pub fn from_seed(seed: PcgSeed) -> (r: Pcg)
        ensures
            r@.state == pack_be(seed.0@),
            r@.inc == INIT_INC,
    {
        let packed = U64::from(seed);
        assert(((INIT_INC >> 1u64) << 1u64) | 1u64 == INIT_INC) by (bit_vector);
        Pcg::new(packed.0, INIT_INC >> 1)
    }
}

} // verus!
