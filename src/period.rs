//! The period of the generator's state sequence.
//!
//! With an odd increment and a multiplier that is 1 modulo 4, the linear
//! congruential step visits all 2^64 states before it comes back to the
//! first one. The proof goes through the closed form
//! `advance_by(x, n) = x + geo(n) * gap(x)` (modulo 2^64), where `geo(n)` is
//! `1 + a + ... + a^(n-1)` and `gap(x)` is odd: `2^k` steps add `2^k` to the
//! state modulo `2^(k+1)`, which lets each further bit of any target state be
//! reached in turn.
use vstd::prelude::*;

use vstd::arithmetic::div_mod::{
    lemma_add_mod_noop, lemma_fundamental_div_mod, lemma_mod_mod, lemma_mod_multiples_vanish,
    lemma_mul_mod_noop, lemma_mul_mod_noop_left, lemma_small_mod,
};
use vstd::arithmetic::power2::{lemma2_to64, lemma_pow2_adds, lemma_pow2_pos, lemma_pow2_unfold, pow2};

use crate::consts::INCREMENTOR;
use crate::stream::{advance_by, lcg_step, lemma_advance_by_succ, modulus};

verus! {

/// The multiplier, as an integer.
spec fn mult() -> int {
    INCREMENTOR as int
}

/// `1 + a + ... + a^(m-1)` for the multiplier `a`.
spec fn geo(m: nat) -> int
    decreases m,
{
    if m == 0 {
        0
    } else {
        1 + mult() * geo((m - 1) as nat)
    }
}

/// `a^m` for the multiplier `a`.
spec fn mult_pow(m: nat) -> int
    decreases m,
{
    if m == 0 {
        1
    } else {
        mult() * mult_pow((m - 1) as nat)
    }
}

/// What one step adds to the state `x`, before the reduction modulo 2^64.
spec fn gap(x: u64, inc: u64) -> int {
    (mult() - 1) * x + inc
}

/// Steps compose: `p` steps and then `q` more are `p + q` steps.
pub proof fn lemma_advance_by_add(x: u64, inc: u64, p: nat, q: nat)
    ensures
        advance_by(x, inc, p + q) == advance_by(advance_by(x, inc, p), inc, q),
    decreases p,
{
    if p > 0 {
        lemma_advance_by_add(lcg_step(x, inc), inc, (p - 1) as nat, q);
        assert((p - 1) as nat + q == (p + q - 1) as nat);
    }
}

proof fn lemma_closed_form(x: u64, inc: u64, m: nat)
    ensures
        advance_by(x, inc, m) as int == (x + geo(m) * gap(x, inc)) % (modulus() as int),
    decreases m,
{
    let r = modulus() as int;
    if m == 0 {
        lemma_small_mod(x as nat, modulus());
    } else {
        let pm = (m - 1) as nat;
        lemma_closed_form(x, inc, pm);
        lemma_advance_by_succ(x, inc, pm);
        let y = advance_by(x, inc, pm);
        let a = mult();
        let g = geo(pm);
        let d = gap(x, inc);
        let e = x + g * d;
        lemma_mul_mod_noop_left(e, a, r);
        lemma_add_mod_noop(y * a, inc as int, r);
        lemma_add_mod_noop(e * a, inc as int, r);
        assert(e * a + inc == x + geo(m) * d) by (nonlinear_arith)
            requires
                e == x + g * d,
                geo(m) == 1 + a * g,
                d == (a - 1) * x + inc,
        ;
    }
}

proof fn lemma_geo_add(p: nat, q: nat)
    ensures
        geo(p + q) == geo(q) + mult_pow(q) * geo(p),
    decreases q,
{
    if q > 0 {
        let pq = (q - 1) as nat;
        lemma_geo_add(p, pq);
        assert((p + q - 1) as nat == p + pq);
        let a = mult();
        assert(1 + a * (geo(pq) + mult_pow(pq) * geo(p)) == (1 + a * geo(pq)) + (a * mult_pow(pq))
            * geo(p)) by (nonlinear_arith);
    }
}

proof fn lemma_mult_pow_mod4(m: nat)
    ensures
        mult_pow(m) % 4 == 1,
    decreases m,
{
    if m > 0 {
        lemma_mult_pow_mod4((m - 1) as nat);
        lemma_mul_mod_noop(mult(), mult_pow((m - 1) as nat), 4);
    }
}

proof fn lemma_odd_mul(a: int, b: int)
    requires
        a % 2 == 1,
        b % 2 == 1,
    ensures
        (a * b) % 2 == 1,
{
    lemma_mul_mod_noop(a, b, 2);
}

/// `geo(2^k)` is `2^k` times an odd number.
proof fn lemma_geo_pow2(k: nat) -> (u: int)
    ensures
        geo(pow2(k)) == pow2(k) * u,
        u % 2 == 1,
    decreases k,
{
    if k == 0 {
        lemma2_to64();
        assert(geo(1) == 1 + mult() * geo(0));
        1
    } else {
        let u0 = lemma_geo_pow2((k - 1) as nat);
        let m = pow2((k - 1) as nat);
        lemma_pow2_unfold(k);
        lemma_geo_add(m, m);
        lemma_mult_pow_mod4(m);
        let p = mult_pow(m);
        lemma_fundamental_div_mod(p, 4);
        let w = p / 4;
        let g = geo(m);
        assert(g + p * g == (2 * m) * (u0 * (2 * w + 1))) by (nonlinear_arith)
            requires
                g == m * u0,
                p == 4 * w + 1,
        ;
        lemma_mod_multiples_vanish(w, 1, 2);
        assert((2 * w + 1) % 2 == 1);
        lemma_odd_mul(u0, 2 * w + 1);
        u0 * (2 * w + 1)
    }
}

/// `2^k` steps add `2^k` to the state, modulo `2^(k+1)`.
proof fn lemma_step_pow2(x: u64, inc: u64, k: nat)
    requires
        k < 64,
        inc % 2 == 1,
    ensures
        advance_by(x, inc, pow2(k)) as int % (pow2(k + 1) as int) == (x + pow2(k)) % (pow2(
            k + 1,
        ) as int),
{
    let m = pow2(k) as int;
    let m2 = pow2(k + 1) as int;
    lemma_pow2_unfold(k + 1);
    lemma_pow2_pos(k);
    lemma_closed_form(x, inc, pow2(k));
    let u = lemma_geo_pow2(k);
    let d = gap(x, inc);
    assert(mult() - 1 == 2 * 3182068111923396502);
    assert(d == 2 * (3182068111923396502 * x) + inc) by (nonlinear_arith)
        requires
            d == (mult() - 1) * x + inc,
            mult() - 1 == 2 * 3182068111923396502,
    ;
    lemma_mod_multiples_vanish(3182068111923396502 * x, inc as int, 2);
    lemma_odd_mul(u, d);
    let t = u * d;
    lemma_fundamental_div_mod(t, 2);
    let h = t / 2;
    assert(geo(pow2(k)) * d == m2 * h + m) by (nonlinear_arith)
        requires
            geo(pow2(k)) == m * u,
            t == u * d,
            t == 2 * h + 1,
            m2 == 2 * m,
    ;
    lemma_pow2_adds(k + 1, (63 - k) as nat);
    lemma2_to64();
    assert((k + 1 + (63 - k) as nat) as nat == 64);
    lemma_pow2_pos((63 - k) as nat);
    lemma_mod_mod(x + geo(pow2(k)) * d, m2, pow2((63 - k) as nat) as int);
    lemma_mod_multiples_vanish(h, x + m, m2);
}

/// Where two numbers agree modulo `m` but not modulo `2m`, adding `m` to
/// the first makes them agree modulo `2m`.
proof fn lemma_flip_half(y: int, t: int, m: int)
    requires
        m > 0,
        y % m == t % m,
        y % (2 * m) != t % (2 * m),
    ensures
        (y + m) % (2 * m) == t % (2 * m),
{
    let m2 = 2 * m;
    assert(m * 2 == m2);
    lemma_mod_mod(y, m, 2);
    lemma_mod_mod(t, m, 2);
    let ry = y % m2;
    let rt = t % m2;
    lemma_fundamental_div_mod(ry, m);
    lemma_fundamental_div_mod(rt, m);
    let s = ry % m;
    let qy = ry / m;
    let qt = rt / m;
    assert(0 <= qy <= 1) by (nonlinear_arith)
        requires
            ry == m * qy + s,
            0 <= s < m,
            0 <= ry < 2 * m,
    ;
    assert(0 <= qt <= 1) by (nonlinear_arith)
        requires
            rt == m * qt + s,
            0 <= s < m,
            0 <= rt < 2 * m,
    ;
    lemma_add_mod_noop(y, m, m2);
    lemma_small_mod(m as nat, m2 as nat);
    assert((y + m) % m2 == (ry + m) % m2);
    assert(rt % m == s);
    assert(ry == m * qy + s && rt == m * qt + s);
    assert(qy == 1 ==> m * qy == m) by (nonlinear_arith);
    assert(qy == 0 ==> m * qy == 0) by (nonlinear_arith);
    assert(qt == 1 ==> m * qt == m) by (nonlinear_arith);
    assert(qt == 0 ==> m * qt == 0) by (nonlinear_arith);
    if qy == 1 {
        assert(ry == m + s);
        if qt == 1 {
            assert(rt == m + s);
        }
        assert(qt == 0);
        assert(rt == s);
        assert(ry + m == m2 * 1 + s);
        lemma_mod_multiples_vanish(1, s, m2);
        lemma_small_mod(s as nat, m2 as nat);
    } else {
        assert(ry == s);
        if qt == 0 {
            assert(rt == s);
        }
        assert(qt == 1);
        assert(rt == m + s);
        lemma_small_mod(rt as nat, m2 as nat);
    }
}

/// From any state, some number of steps reaches a state that agrees with
/// `target` in its low `k` bits.
proof fn lemma_reach_low_bits(x: u64, inc: u64, target: u64, k: nat) -> (n: nat)
    requires
        k <= 64,
        inc % 2 == 1,
    ensures
        advance_by(x, inc, n) as int % (pow2(k) as int) == target as int % (pow2(k) as int),
    decreases k,
{
    if k == 0 {
        lemma2_to64();
        0
    } else {
        let n0 = lemma_reach_low_bits(x, inc, target, (k - 1) as nat);
        let y = advance_by(x, inc, n0);
        let m = pow2((k - 1) as nat);
        lemma_pow2_unfold(k);
        lemma_pow2_pos((k - 1) as nat);
        if y as int % (pow2(k) as int) == target as int % (pow2(k) as int) {
            n0
        } else {
            lemma_flip_half(y as int, target as int, m as int);
            lemma_step_pow2(y, inc, (k - 1) as nat);
            lemma_advance_by_add(x, inc, n0, m);
            n0 + m
        }
    }
}

/// Full period: with an odd increment, every state is reached from every
/// other state.
pub proof fn lemma_every_state_reached(state: u64, inc: u64, target: u64)
    requires
        inc % 2 == 1,
    ensures
        exists|n: nat| advance_by(state, inc, n) == target,
{
    let n = lemma_reach_low_bits(state, inc, target, 64);
    lemma2_to64();
    lemma_small_mod(advance_by(state, inc, n) as nat, modulus());
    lemma_small_mod(target as nat, modulus());
}

/// `2^j * m` steps add `m * 2^j` to the state, modulo `2^(j+1)`.
proof fn lemma_multiple_steps(x: u64, inc: u64, j: nat, m: nat)
    requires
        j < 64,
        inc % 2 == 1,
    ensures
        advance_by(x, inc, pow2(j) * m) as int % (pow2(j + 1) as int) == (x + m * pow2(j)) % (
        pow2(j + 1) as int),
    decreases m,
{
    let big = pow2(j) as int;
    let m2 = pow2(j + 1) as int;
    lemma_pow2_unfold(j + 1);
    lemma_pow2_pos(j);
    if m == 0 {
        assert(pow2(j) * m == 0 && m * pow2(j) == 0) by (nonlinear_arith)
            requires
                m == 0,
        ;
    } else {
        let pm = (m - 1) as nat;
        lemma_multiple_steps(x, inc, j, pm);
        let y = advance_by(x, inc, pow2(j) * pm);
        assert(pow2(j) * m == pow2(j) * pm + pow2(j)) by (nonlinear_arith)
            requires
                pm == m - 1,
        ;
        assert(m * pow2(j) == pm * pow2(j) + pow2(j)) by (nonlinear_arith)
            requires
                pm == m - 1,
        ;
        lemma_advance_by_add(x, inc, pow2(j) * pm, pow2(j));
        lemma_step_pow2(y, inc, j);
        lemma_add_mod_noop(y as int, big, m2);
        lemma_add_mod_noop(x + pm * pow2(j), big, m2);
    }
}

/// `n` is `2^j` times an odd number, with `j < b` where `n < 2^b`.
proof fn lemma_split_pow2(n: nat, b: nat) -> (jm: (nat, nat))
    requires
        0 < n < pow2(b),
    ensures
        pow2(jm.0) * jm.1 == n,
        jm.1 % 2 == 1,
        jm.0 < b,
    decreases n,
{
    lemma2_to64();
    if b == 0 {
        assert(false);
        (0, 0)
    } else {
        lemma_pow2_unfold(b);
        lemma_fundamental_div_mod(n as int, 2);
        if n % 2 == 1 {
            assert(pow2(0) * n == n);
            (0, n)
        } else {
            let (j, m) = lemma_split_pow2(n / 2, (b - 1) as nat);
            lemma_pow2_unfold(j + 1);
            assert(pow2(j + 1) * m == 2 * (pow2(j) * m)) by (nonlinear_arith)
                requires
                    pow2(j + 1) == 2 * pow2(j),
            ;
            (j + 1, m)
        }
    }
}

/// No short cycle: with an odd increment, fewer than 2^64 steps never lead
/// back to the state they started from.
pub proof fn lemma_no_short_cycle(state: u64, inc: u64, n: nat)
    requires
        inc % 2 == 1,
        0 < n < modulus(),
    ensures
        advance_by(state, inc, n) != state,
{
    lemma2_to64();
    let (j, m) = lemma_split_pow2(n, 64);
    lemma_multiple_steps(state, inc, j, m);
    let big = pow2(j) as int;
    let m2 = pow2(j + 1) as int;
    lemma_pow2_unfold(j + 1);
    lemma_pow2_pos(j);
    lemma_fundamental_div_mod(m as int, 2);
    let h = m as int / 2;
    assert(state + m * pow2(j) == m2 * h + (state + big)) by (nonlinear_arith)
        requires
            m == 2 * h + 1,
            m2 == 2 * big,
            big == pow2(j),
    ;
    lemma_mod_multiples_vanish(h, state + big, m2);
    lemma_add_mod_noop(state as int, big, m2);
    lemma_small_mod(big as nat, m2 as nat);
    let r = state as int % m2;
    if r < big {
        lemma_small_mod((r + big) as nat, m2 as nat);
    } else {
        lemma_mod_multiples_vanish(1, r - big, m2);
        lemma_small_mod((r - big) as nat, m2 as nat);
    }
}

/// Within one period the states are pairwise distinct: the states after `i`
/// and after `j` steps differ whenever `i < j < 2^64`.
pub proof fn lemma_states_distinct(state: u64, inc: u64, i: nat, j: nat)
    requires
        inc % 2 == 1,
        i < j < modulus(),
    ensures
        advance_by(state, inc, i) != advance_by(state, inc, j),
{
    lemma_advance_by_add(state, inc, i, (j - i) as nat);
    assert(i + (j - i) as nat == j);
    lemma_no_short_cycle(advance_by(state, inc, i), inc, (j - i) as nat);
}

} // verus!
