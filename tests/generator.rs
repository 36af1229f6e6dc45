use std::collections::HashSet;

use pcg::{Pcg, PcgError, PcgSeed, U64};

const INIT_STATE: u64 = 0x853c_49e6_748f_ea9b;
const INIT_INC: u64 = 0xda3e_39cb_94b9_5bdb;
const MULT: u64 = 6_364_136_223_846_793_005;

fn reference_output(s: u64) -> u64 {
    let x = ((s >> 18) ^ (s >> 27)) as u32;
    let rot = (s >> 59) as u32;
    x.rotate_right(rot) as u64
}

#[test]
fn test_init() {
    let _rng = Pcg::new(0, 0);
}

#[test]
fn new_sets_state_and_odd_increment() {
    let g = Pcg::new(42, 54);
    assert_eq!(g.state(), 42);
    assert_eq!(g.inc(), 109);
    for q in [0u64, 1, 2, 0x7fff_ffff_ffff_ffff, u64::MAX, 0x8000_0000_0000_0000] {
        let g = Pcg::new(7, q);
        assert_eq!(g.inc() % 2, 1);
        assert_eq!(g.inc(), (q << 1) | 1);
    }
}

#[test]
fn default_uses_reference_constants() {
    let g = Pcg::default();
    assert_eq!(g.state(), INIT_STATE);
    assert_eq!(g.inc(), INIT_INC);
}

#[test]
fn default_known_answers() {
    let mut g = Pcg::default();
    assert_eq!(g.next_u32(), 2_716_710_384);
    assert_eq!(g.next_u32(), 3_088_864_129);
    assert_eq!(g.next_u32(), 913_273_458);
    let mut h = Pcg::default();
    assert_eq!(h.next_u64(), 0xa1ed_b5f0);
}

#[test]
fn next_u64_follows_the_recurrence() {
    let mut g = Pcg::new(0x0123_4567_89ab_cdef, 99);
    let inc = (99u64 << 1) | 1;
    let mut s: u64 = 0x0123_4567_89ab_cdef;
    for _ in 0..1000 {
        assert_eq!(g.next_u64(), reference_output(s));
        s = s.wrapping_mul(MULT).wrapping_add(inc);
        assert_eq!(g.state(), s);
    }
}

#[test]
fn next_u32_is_low_half_of_next_u64() {
    let mut a = Pcg::new(5, 6);
    let mut b = Pcg::new(5, 6);
    for _ in 0..100 {
        assert_eq!(a.next_u32(), b.next_u64() as u32);
        assert_eq!(a, b);
    }
}

#[test]
fn same_seed_same_stream() {
    for (s, q) in [(0u64, 0u64), (1, 2), (u64::MAX, 17), (0xdead_beef, u64::MAX)] {
        let mut a = Pcg::new(s, q);
        let mut b = Pcg::new(s, q);
        let xs: Vec<u64> = (0..64).map(|_| a.next_u64()).collect();
        let ys: Vec<u64> = (0..64).map(|_| b.next_u64()).collect();
        assert_eq!(xs, ys);
    }
}

#[test]
fn clone_continues_the_same_stream() {
    let mut a = Pcg::new(3, 4);
    a.next_u64();
    let mut b = a.clone();
    assert_eq!(a, b);
    assert_eq!(a.next_u64(), b.next_u64());
}

#[test]
fn no_repeated_state_in_two_to_the_twenty_draws() {
    let mut g = Pcg::new(12345, 678);
    let mut seen: HashSet<u64> = HashSet::new();
    seen.insert(g.state());
    let mut prev = g.state();
    for _ in 0..(1u32 << 20) {
        g.next_u32();
        assert_ne!(g.state(), prev);
        assert!(seen.insert(g.state()));
        prev = g.state();
    }
}

#[test]
fn bounded_rand_stays_in_range_and_is_uniform() {
    let mut g = Pcg::new(2024, 7);
    for bound in [1u32, 2, 3, 7, 255, 65536] {
        let draws: usize = 1_000_000;
        let mut counts = vec![0u64; bound as usize];
        for _ in 0..draws {
            let r = g.bounded_rand(bound).unwrap();
            assert!(r < bound);
            counts[r as usize] += 1;
        }
        if bound > 1 {
            let expected = draws as f64 / bound as f64;
            let chi2: f64 = counts
                .iter()
                .map(|&c| {
                    let d = c as f64 - expected;
                    d * d / expected
                })
                .sum();
            let df = (bound - 1) as f64;
            assert!(chi2 < df + 6.0 * (2.0 * df).sqrt() + 10.0, "bound {bound}: chi2 {chi2}");
        }
    }
}

#[test]
fn bounded_rand_rejects_below_threshold() {
    // 2^32 mod 3 == 1: a draw of 0 is rejected, and the next one is used.
    let bound: u32 = 3;
    let threshold = (u32::MAX - bound + 1) % bound;
    assert_eq!(threshold, 1);
    let mut g = Pcg::new(99, 1);
    let mut h = g.clone();
    let r = g.bounded_rand(bound).unwrap();
    let mut x = h.next_u32();
    while x < threshold {
        x = h.next_u32();
    }
    assert_eq!(r, x % bound);
    assert_eq!(g, h);
}

#[test]
fn bounded_rand_matches_manual_rejection_for_large_bound() {
    let bound: u32 = 0x8000_0001;
    let threshold = (u32::MAX - bound + 1) % bound;
    assert_eq!(threshold, 0x7fff_ffff);
    let mut g = Pcg::new(1, 1);
    let mut h = g.clone();
    for _ in 0..1000 {
        let r = g.bounded_rand(bound).unwrap();
        let mut x = h.next_u32();
        while x < threshold {
            x = h.next_u32();
        }
        assert_eq!(r, x % bound);
        assert_eq!(g, h);
    }
}

#[test]
fn bounded_rand_zero_bound_fails_without_mutation() {
    let mut g = Pcg::new(17, 23);
    let before = g.clone();
    assert_eq!(g.bounded_rand(0), Err(PcgError::InvalidBound));
    assert_eq!(g, before);
    assert_eq!(g.state(), 17);
}

#[test]
fn seed_packs_most_significant_first() {
    let seed = PcgSeed([0, 1, 2, 3, 4, 5, 6, 7]);
    assert_eq!(U64::from(seed).0, 0x0001_0203_0405_0607);
    let seed = PcgSeed([0xff, 0, 0, 0, 0, 0, 0, 0x01]);
    assert_eq!(U64::from(seed).0, 0xff00_0000_0000_0001);
}

#[test]
fn seed_unpacks_most_significant_first() {
    let seed = PcgSeed::from(0x0001_0203_0405_0607u64);
    assert_eq!(seed.0, [0, 1, 2, 3, 4, 5, 6, 7]);
    let seed = PcgSeed::from(U64(0x8000_0000_0000_00ff));
    assert_eq!(seed.0, [0x80, 0, 0, 0, 0, 0, 0, 0xff]);
}

#[test]
fn seed_round_trip() {
    let samples: [[u8; 8]; 5] = [
        [0; 8],
        [0xff; 8],
        [1, 2, 3, 4, 5, 6, 7, 8],
        [0x80, 0x7f, 0, 0xff, 0x10, 0x01, 0xfe, 0x55],
        [9, 0, 0, 0, 0, 0, 0, 9],
    ];
    for b in samples {
        let packed = U64::from(PcgSeed(b));
        assert_eq!(PcgSeed::from(packed).0, b);
    }
    for x in [0u64, 1, u64::MAX, 0x0123_4567_89ab_cdef] {
        assert_eq!(U64::from(PcgSeed::from(x)).0, x);
    }
}

#[test]
fn seed_default_is_zero() {
    assert_eq!(PcgSeed::default().0, [0u8; 8]);
}

#[test]
fn seed_from_bytes_checks_length() {
    let ok = PcgSeed::from_bytes(&[1, 2, 3, 4, 5, 6, 7, 8]).unwrap();
    assert_eq!(ok.0, [1, 2, 3, 4, 5, 6, 7, 8]);
    assert_eq!(PcgSeed::from_bytes(&[1, 2, 3, 4, 5, 6, 7]).err(), Some(PcgError::SeedLengthMismatch));
    assert_eq!(PcgSeed::from_bytes(&[0; 9]).err(), Some(PcgError::SeedLengthMismatch));
    assert_eq!(PcgSeed::from_bytes(&[]).err(), Some(PcgError::SeedLengthMismatch));
}

#[test]
fn from_seed_packs_state_and_keeps_default_increment() {
    let g = Pcg::from_seed(PcgSeed([0, 1, 2, 3, 4, 5, 6, 7]));
    assert_eq!(g.state(), 0x0001_0203_0405_0607);
    assert_eq!(g.inc(), INIT_INC);
    let h = Pcg::from_seed(PcgSeed([0xff; 8]));
    assert_eq!(h.state(), u64::MAX);
    assert_eq!(h.inc(), INIT_INC);
}

#[test]
fn fill_eight_bytes_equals_one_next_u64() {
    let mut a = Pcg::new(31, 41);
    let mut b = Pcg::new(31, 41);
    let mut buf = [0u8; 8];
    a.fill_bytes(&mut buf);
    assert_eq!(buf, b.next_u64().to_le_bytes());
    assert_eq!(a, b);
}

#[test]
fn fill_bytes_concatenates_and_truncates() {
    let mut a = Pcg::new(5, 9);
    let mut b = Pcg::new(5, 9);
    let mut buf = [0u8; 13];
    a.fill_bytes(&mut buf);
    let w0 = b.next_u64().to_le_bytes();
    let w1 = b.next_u64().to_le_bytes();
    assert_eq!(&buf[..8], &w0[..]);
    assert_eq!(&buf[8..], &w1[..5]);
    assert_eq!(a, b);

    let mut c = Pcg::new(5, 9);
    let mut small = [0u8; 3];
    c.fill_bytes(&mut small);
    assert_eq!(&small[..], &w0[..3]);

    let mut d = Pcg::new(5, 9);
    let before = d.clone();
    let mut empty: [u8; 0] = [];
    d.fill_bytes(&mut empty);
    assert_eq!(d, before);
}

#[test]
fn try_fill_bytes_always_succeeds() {
    let mut a = Pcg::new(8, 8);
    let mut b = Pcg::new(8, 8);
    let mut x = [0u8; 21];
    let mut y = [0u8; 21];
    assert!(a.try_fill_bytes(&mut x).is_ok());
    b.fill_bytes(&mut y);
    assert_eq!(x, y);
    assert_eq!(a, b);
}

#[test]
fn from_raw_restores_a_generator() {
    let mut g = Pcg::new(77, 88);
    g.next_u64();
    let mut h = Pcg::from_raw(g.state(), g.inc()).unwrap();
    assert_eq!(g, h);
    assert_eq!(g.next_u64(), h.next_u64());
    assert!(Pcg::from_raw(1, 2).is_none());
}
