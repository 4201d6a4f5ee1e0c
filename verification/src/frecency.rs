//! The frecency scorer: a pure function from a usage count and the time of the
//! last use to a popularity score that grows with the count and decays
//! smoothly with age, halving every fourteen days.
//!
//! Scores are binary fixed-point numbers carried in a `u64`: the value `SCALE`
//! stands for `1.0`. The frequency term is `log2(count + 1) + 1`, with the
//! logarithm interpolated linearly between neighbouring powers of two, so it
//! is strictly monotonic in the count. The decay term is `0.5 ^ (age /
//! half_life)`, with the fractional part of the exponent likewise linearly
//! interpolated, so it never increases with age and is exactly halved after
//! each full half-life.

use vstd::prelude::*;
use vstd::arithmetic::power2::*;
use vstd::arithmetic::div_mod::*;
use vstd::arithmetic::mul::*;
use vstd::arithmetic::power::lemma_pow_increases;

verus! {

/// Fixed-point unit: this value stands for a score of exactly 1.0.
pub const SCALE: u64 = 0x100_0000_0000;

/// Milliseconds in one day.
pub const MS_PER_DAY: u64 = 86_400_000;

/// The decay half-life: fourteen days, in milliseconds.
pub const HALF_LIFE_MS: u64 = 14 * 86_400_000;

/// Floor of the base-2 logarithm, for `n >= 1` (returns 0 below 2).
pub open spec fn lg(n: nat) -> nat
    decreases n,
{
    if n < 2 {
        0
    } else {
        1 + lg(n / 2)
    }
}

/// The frequency term `log2(count + 1) + 1` as a fixed-point number, the
/// logarithm interpolated linearly between powers of two.
pub open spec fn spec_freq_term(count: u32) -> int {
    let n = count as int + 1;
    let k = lg(n as nat);
    k * SCALE + ((n - pow2(k)) * SCALE) / pow2(k) as int + SCALE
}

/// The decay factor `0.5 ^ (age_ms / HALF_LIFE_MS)` as a fixed-point number:
/// exact halving per whole half-life, linear interpolation within one.
pub open spec fn spec_decay(age_ms: u64) -> int {
    let whole = age_ms as int / HALF_LIFE_MS as int;
    let frac = age_ms as int % HALF_LIFE_MS as int;
    let g = SCALE - (frac * (SCALE as int / 2)) / HALF_LIFE_MS as int;
    if whole >= 64 {
        0
    } else {
        g / pow2(whole as nat) as int
    }
}

/// Elapsed time since the last use, clamped at zero against clock skew.
pub open spec fn spec_age(last_run_ms: u64, now_ms: u64) -> u64 {
    if now_ms >= last_run_ms {
        (now_ms - last_run_ms) as u64
    } else {
        0
    }
}

/// The frecency score: frequency term times decay factor.
pub open spec fn spec_score(count: u32, last_run_ms: u64, now_ms: u64) -> int {
    spec_freq_term(count) * spec_decay(spec_age(last_run_ms, now_ms)) / SCALE as int
}

/// `x / d < c` whenever `x < c * d`, for non-negative values.
proof fn lemma_div_below(x: int, d: int, c: int)
    requires
        0 <= x,
        0 < d,
        x < c * d,
    ensures
        x / d < c,
{
    lemma_mul_is_commutative(c, d);
    lemma_multiply_divide_lt(x, d, c);
}

/// The floor logarithm brackets its argument between two powers of two.
proof fn lemma_lg_bounds(n: nat)
    requires
        n >= 1,
    ensures
        pow2(lg(n)) <= n < pow2(lg(n) + 1),
    decreases n,
{
    if n < 2 {
        lemma2_to64();
    } else {
        lemma_lg_bounds(n / 2);
        lemma_pow2_unfold(lg(n));
        lemma_pow2_unfold(lg(n) + 1);
        lemma_fundamental_div_mod(n as int, 2);
        lemma_pow2_pos(lg(n / 2));
    }
}

proof fn lemma_lg_32(n: nat)
    requires
        1 <= n <= 0x1_0000_0000,
    ensures
        lg(n) <= 32,
{
    lemma_lg_bounds(n);
    if lg(n) > 32 {
        lemma_pow2_strictly_increases(32, lg(n));
        lemma2_to64();
    }
}

/// The frequency term always lies between 1.0 and 34.0 in fixed point.
proof fn lemma_freq_term_bounds(count: u32)
    ensures
        SCALE <= spec_freq_term(count) < 34 * (SCALE as int),
{
    let n = count as int + 1;
    let k = lg(n as nat);
    lemma_lg_bounds(n as nat);
    lemma_lg_32(n as nat);
    lemma_pow2_pos(k);
    let p = pow2(k) as int;
    lemma_div_pos_is_pos((n - p) * SCALE, p);
    lemma_mul_nonnegative(n - p, SCALE as int);
    // (n - p) * SCALE < p * SCALE since n < 2p
    lemma_pow2_unfold(k + 1);
    assert((n - p) * SCALE < p * SCALE) by {
        lemma_mul_strict_inequality(n - p, p, SCALE as int);
    }
    lemma_div_below((n - p) * SCALE, p, SCALE as int);
    assert(k * SCALE <= 32 * (SCALE as int)) by {
        lemma_mul_inequality(k as int, 32, SCALE as int);
    }
}

/// The frequency term grows strictly with the count.
proof fn lemma_freq_term_strict_mono(c1: u32, c2: u32)
    requires
        c1 < c2,
    ensures
        spec_freq_term(c1) < spec_freq_term(c2),
{
    let n1 = c1 as int + 1;
    let n2 = c2 as int + 1;
    let k1 = lg(n1 as nat);
    let k2 = lg(n2 as nat);
    lemma_lg_bounds(n1 as nat);
    lemma_lg_bounds(n2 as nat);
    lemma_lg_32(n1 as nat);
    lemma_lg_32(n2 as nat);
    let p1 = pow2(k1) as int;
    let p2 = pow2(k2) as int;
    lemma_pow2_pos(k1);
    lemma_pow2_pos(k2);
    if k1 == k2 {
        // Same power-of-two bin: the interpolated fraction grows by at least
        // SCALE / p1 >= 1 for each unit step of n.
        let a1 = (n1 - p1) * SCALE;
        let a2 = (n2 - p1) * SCALE;
        assert(a1 + SCALE <= a2) by {
            lemma_mul_inequality(n1 - p1 + 1, n2 - p1, SCALE as int);
            lemma_mul_is_distributive_add_other_way(SCALE as int, n1 - p1, 1);
        }
        // a2 / p1 >= (a1 + SCALE) / p1 >= a1 / p1 + SCALE / p1 > a1 / p1
        lemma_div_is_ordered(a1 + SCALE, a2, p1);
        lemma_hoist_over_denominator(a1, 1, p1 as nat);
        assert(a1 / p1 + 1 == (a1 + p1) / p1);
        assert(p1 <= SCALE) by {
            if k1 > 40 {
                lemma_pow2_strictly_increases(40, k1);
                lemma2_to64();
                lemma2_to64_rest();
            } else {
                lemma_pow2(k1);
                lemma_pow2(40);
                lemma_pow_increases(2, k1, 40);
                lemma2_to64_rest();
            }
        }
        lemma_div_is_ordered(a1 + p1, a1 + SCALE, p1);
    } else {
        // Different bins: the whole-bit term alone separates the two.
        assert(k1 < k2) by {
            if k1 > k2 {
                lemma_pow2_strictly_increases(k2 + 1, k1);
            }
        }
        let a1 = (n1 - p1) * SCALE;
        assert(a1 < p1 * SCALE) by {
            lemma_pow2_unfold(k1 + 1);
            lemma_mul_strict_inequality(n1 - p1, p1, SCALE as int);
        }
        lemma_div_below(a1, p1, SCALE as int);
        lemma_mul_nonnegative(n2 - p2, SCALE as int);
        lemma_div_pos_is_pos((n2 - p2) * SCALE, p2);
        assert((k1 + 1) * SCALE <= k2 * SCALE) by {
            lemma_mul_inequality(k1 as int + 1, k2 as int, SCALE as int);
        }
        assert(k1 * SCALE + SCALE == (k1 + 1) * SCALE) by {
            lemma_mul_is_distributive_add_other_way(SCALE as int, k1 as int, 1);
        }
    }
}

/// The interpolated within-half-life factor stays in (SCALE / 2, SCALE].
proof fn lemma_g_bounds(frac: int)
    requires
        0 <= frac < HALF_LIFE_MS,
    ensures
        SCALE as int / 2 < SCALE - (frac * (SCALE as int / 2)) / HALF_LIFE_MS as int <= SCALE,
{
    let half = SCALE as int / 2;
    let hl = HALF_LIFE_MS as int;
    lemma_mul_nonnegative(frac, half);
    lemma_div_pos_is_pos(frac * half, hl);
    assert(frac * half < hl * half) by {
        lemma_mul_strict_inequality(frac, hl, half);
        lemma_mul_is_commutative(hl, half);
    }
    lemma_div_below(frac * half, hl, half);
}

/// The decay factor lies between 0 and SCALE.
proof fn lemma_decay_bounds(age_ms: u64)
    ensures
        0 <= spec_decay(age_ms) <= SCALE,
{
    let hl = HALF_LIFE_MS as int;
    let whole = age_ms as int / hl;
    let frac = age_ms as int % hl;
    lemma_mod_division_less_than_divisor(age_ms as int, hl);
    lemma_g_bounds(frac);
    let g = SCALE - (frac * (SCALE as int / 2)) / hl;
    if whole < 64 {
        lemma_div_pos_is_pos(age_ms as int, hl);
        lemma_pow2_pos(whole as nat);
        lemma_div_pos_is_pos(g, pow2(whole as nat) as int);
        lemma_div_nonincreasing(g, pow2(whole as nat) as int);
    }
}

/// The decay factor never grows with age.
proof fn lemma_decay_antitone(a1: u64, a2: u64)
    requires
        a1 <= a2,
    ensures
        spec_decay(a2) <= spec_decay(a1),
{
    let hl = HALF_LIFE_MS as int;
    let half = SCALE as int / 2;
    let w1 = a1 as int / hl;
    let w2 = a2 as int / hl;
    let f1 = a1 as int % hl;
    let f2 = a2 as int % hl;
    lemma_div_pos_is_pos(a1 as int, hl);
    lemma_div_pos_is_pos(a2 as int, hl);
    lemma_div_is_ordered(a1 as int, a2 as int, hl);
    lemma_mod_division_less_than_divisor(a1 as int, hl);
    lemma_mod_division_less_than_divisor(a2 as int, hl);
    lemma_g_bounds(f1);
    lemma_g_bounds(f2);
    let g1 = SCALE - (f1 * half) / hl;
    let g2 = SCALE - (f2 * half) / hl;
    lemma_decay_bounds(a1);
    lemma_decay_bounds(a2);
    if w2 >= 64 {
        // spec_decay(a2) == 0 <= spec_decay(a1)
    } else if w1 == w2 {
        // Same whole half-life count: compare the interpolated factors.
        assert(f1 <= f2) by {
            lemma_fundamental_div_mod(a1 as int, hl);
            lemma_fundamental_div_mod(a2 as int, hl);
        }
        assert(f1 * half <= f2 * half) by {
            lemma_mul_inequality(f1, f2, half);
        }
        lemma_div_is_ordered(f1 * half, f2 * half, hl);
        lemma_pow2_pos(w1 as nat);
        lemma_div_is_ordered(g2, g1, pow2(w1 as nat) as int);
    } else {
        // More whole half-lives: even the largest possible factor, shifted
        // one more time, is no more than the smallest possible earlier one.
        let p1 = pow2(w1 as nat) as int;
        let p2 = pow2(w2 as nat) as int;
        lemma_pow2_pos(w1 as nat);
        lemma_pow2_pos(w2 as nat);
        lemma_pow2_adds(w1 as nat, 1);
        lemma2_to64();
        // g2 / p2 <= SCALE / p2 <= SCALE / (2 * p1) == half / p1 <= g1 / p1
        lemma_div_is_ordered(g2, SCALE as int, p2);
        assert(pow2(w1 as nat + 1) <= pow2(w2 as nat)) by {
            if w1 as nat + 1 < w2 as nat {
                lemma_pow2_strictly_increases(w1 as nat + 1, w2 as nat);
            }
        }
        lemma_div_is_ordered_by_denominator(SCALE as int, pow2(w1 as nat + 1) as int, p2);
        assert((SCALE as int) / (p1 * 2) == half / p1) by {
            lemma_div_denominator(SCALE as int, 2, p1);
            lemma_mul_is_commutative(p1, 2);
        }
        lemma_div_is_ordered(half, g1, p1);
    }
}

/// At age zero the decay factor is exactly 1.0.
proof fn lemma_decay_at_zero()
    ensures
        spec_decay(0) == SCALE,
{
    let hl = HALF_LIFE_MS as int;
    lemma_small_mod(0, hl as nat);
    lemma_small_div_converse(0, hl);
    lemma2_to64();
    assert((0int * (SCALE as int / 2)) / hl == 0) by {
        lemma_div_of0(hl);
    }
    assert(SCALE as int / pow2(0) as int == SCALE) by {
        lemma2_to64();
        lemma_div_by_self(1);
    }
}

/// After exactly one half-life the decay factor is exactly 0.5.
proof fn lemma_decay_at_half_life()
    ensures
        spec_decay(HALF_LIFE_MS) == SCALE as int / 2,
{
    let hl = HALF_LIFE_MS as int;
    lemma_mod_self_0(hl);
    lemma_div_by_self(hl);
    assert((0int * (SCALE as int / 2)) / hl == 0) by {
        lemma_div_of0(hl);
    }
    lemma2_to64();
    assert(pow2(1) == 2);
}

/// With no elapsed time the score equals the frequency term itself.
proof fn lemma_score_at_now(count: u32, now_ms: u64)
    ensures
        spec_score(count, now_ms, now_ms) == spec_freq_term(count),
{
    lemma_decay_at_zero();
    let f = spec_freq_term(count);
    assert((f * SCALE) / SCALE as int == f) by {
        lemma_div_multiples_vanish(f, SCALE as int);
        lemma_mul_is_commutative(f, SCALE as int);
    }
}

/// More executions score strictly higher, at equal (zero) age.
pub proof fn lemma_score_count_monotonic(count1: u32, count2: u32, now_ms: u64)
    requires
        count1 < count2,
    ensures
        spec_score(count1, now_ms, now_ms) < spec_score(count2, now_ms, now_ms),
{
    lemma_score_at_now(count1, now_ms);
    lemma_score_at_now(count2, now_ms);
    lemma_freq_term_strict_mono(count1, count2);
}

/// An older last use never scores higher than a more recent one.
pub proof fn lemma_score_age_monotonic(count: u32, last1: u64, last2: u64, now_ms: u64)
    requires
        last2 <= last1,
    ensures
        spec_score(count, last2, now_ms) <= spec_score(count, last1, now_ms),
{
    let a1 = spec_age(last1, now_ms);
    let a2 = spec_age(last2, now_ms);
    lemma_decay_antitone(a1, a2);
    lemma_freq_term_bounds(count);
    let f = spec_freq_term(count);
    assert(f * spec_decay(a2) <= f * spec_decay(a1)) by {
        lemma_mul_inequality(spec_decay(a2), spec_decay(a1), f);
        lemma_mul_is_commutative(spec_decay(a2), f);
        lemma_mul_is_commutative(spec_decay(a1), f);
    }
    lemma_div_is_ordered(f * spec_decay(a2), f * spec_decay(a1), SCALE as int);
}

/// After exactly one half-life the score is halved, up to the final
/// fixed-point bit: twice the aged score differs from the fresh score by at
/// most one, while the fresh score is at least SCALE.
pub proof fn lemma_score_half_life(count: u32, now_ms: u64)
    requires
        now_ms >= HALF_LIFE_MS,
    ensures
        spec_score(count, now_ms, now_ms) >= SCALE,
        2 * spec_score(count, (now_ms - HALF_LIFE_MS) as u64, now_ms) <= spec_score(
            count,
            now_ms,
            now_ms,
        ) <= 2 * spec_score(count, (now_ms - HALF_LIFE_MS) as u64, now_ms) + 1,
{
    lemma_score_at_now(count, now_ms);
    lemma_freq_term_bounds(count);
    lemma_decay_at_half_life();
    let f = spec_freq_term(count);
    let half = SCALE as int / 2;
    let aged = spec_score(count, (now_ms - HALF_LIFE_MS) as u64, now_ms);
    assert(spec_age((now_ms - HALF_LIFE_MS) as u64, now_ms) == HALF_LIFE_MS);
    // aged == (f * half) / SCALE == f / 2 since SCALE == 2 * half
    assert(aged == f / 2) by {
        assert((f * half) / (2 * half) == f / 2) by {
            lemma_mul_nonnegative(f, half);
            lemma_div_denominator(f * half, half, 2);
            assert((f * half) / half == f) by {
                lemma_div_multiples_vanish(f, half);
                lemma_mul_is_commutative(f, half);
            }
            lemma_mul_is_commutative(2, half);
        }
    }
    lemma_fundamental_div_mod(f, 2);
    lemma_mod_division_less_than_divisor(f, 2);
}

/// Computes the fixed-point frequency term `log2(count + 1) + 1`.
fn freq_term_fixed(count: u32) -> (r: u64)
    ensures
        r as int == spec_freq_term(count),
        SCALE <= r < 34 * SCALE,
{
    proof {
        lemma_freq_term_bounds(count);
    }
    let n: u64 = count as u64 + 1;
    let mut k: u64 = 0;
    let mut m: u64 = n;
    let mut p: u64 = 1;
    proof {
        lemma2_to64();
        lemma_div_by_self(1);
    }
    while m >= 2
        invariant
            1 <= n <= 0x1_0000_0000u64,
            1 <= m,
            p == pow2(k as nat),
            p <= n,
            k <= 32,
            m as int == n as int / p as int,
            lg(n as nat) == k as nat + lg(m as nat),
        decreases m,
    {
        proof {
            lemma_pow2_adds(k as nat, 1);
            lemma2_to64();
            lemma_div_denominator(n as int, p as int, 2);
            lemma_pow2_pos(k as nat + 1);
            // m >= 2 means n / p >= 2, so n >= 2 * p
            lemma_fundamental_div_mod(n as int, p as int);
            lemma_mod_division_less_than_divisor(n as int, p as int);
            lemma_mul_inequality(2, n as int / p as int, p as int);
            lemma_mul_is_commutative(n as int / p as int, p as int);
            if k == 32 {
                lemma_pow2_strictly_increases(32, 33);
            }
        }
        m = m / 2;
        p = p * 2;
        k = k + 1;
    }
    proof {
        // m == 1, so p <= n < 2 * p and lg(n) == k
        lemma_fundamental_div_mod(n as int, p as int);
        lemma_mod_division_less_than_divisor(n as int, p as int);
        lemma_pow2_unfold(k as nat + 1);
        lemma_mul_nonnegative(n as int - p as int, SCALE as int);
        assert((n as int - p as int) * SCALE < p as int * SCALE) by {
            lemma_mul_strict_inequality(n as int - p as int, p as int, SCALE as int);
        }
        lemma_div_below((n as int - p as int) * SCALE, p as int, SCALE as int);
        lemma_div_pos_is_pos((n as int - p as int) * SCALE, p as int);
    }
    let num: u128 = (n - p) as u128 * (SCALE as u128);
    let fr: u64 = (num / (p as u128)) as u64;
    k * SCALE + fr + SCALE
}

/// Computes the fixed-point decay factor for an elapsed time.
fn decay_fixed(age_ms: u64) -> (r: u64)
    ensures
        r as int == spec_decay(age_ms),
        r <= SCALE,
{
    proof {
        lemma_decay_bounds(age_ms);
    }
    let whole: u64 = age_ms / HALF_LIFE_MS;
    let frac: u64 = age_ms % HALF_LIFE_MS;
    proof {
        lemma_mod_division_less_than_divisor(age_ms as int, HALF_LIFE_MS as int);
        lemma_g_bounds(frac as int);
        lemma_mul_nonnegative(frac as int, SCALE as int / 2);
    }
    let sub: u64 = ((frac as u128 * (SCALE / 2) as u128) / (HALF_LIFE_MS as u128)) as u64;
    let g: u64 = SCALE - sub;
    if whole >= 64 {
        0
    } else {
        // Halve g once per whole half-life elapsed.
        let mut d: u64 = g;
        let mut j: u64 = 0;
        proof {
            lemma2_to64();
            lemma_div_by_self(1);
        }
        while j < whole
            invariant
                whole < 64,
                d as int == g as int / pow2(j as nat) as int,
                j <= whole,
                g <= SCALE,
        decreases whole - j,
        {
            proof {
                lemma_pow2_pos(j as nat);
                lemma_pow2_adds(j as nat, 1);
                lemma2_to64();
                lemma_div_denominator(g as int, pow2(j as nat) as int, 2);
            }
            d = d / 2;
            j = j + 1;
        }
        d
    }
}

/// The frecency score of one usage record, as a fixed-point number scaled by
/// `SCALE`: the frequency term `log2(count + 1) + 1` times the decay factor
/// `0.5 ^ (age / half_life)`, where the age is the time from `last_run_ms` to
/// `now_ms`, clamped at zero against clock skew. Strictly positive whenever
/// the last use is no more than 64 half-lives old; higher counts and more
/// recent use never lower it.
pub fn frecency_score(count: u32, last_run_ms: u64, now_ms: u64) -> (score: u64)
    ensures
        score as int == spec_score(count, last_run_ms, now_ms),
        now_ms == last_run_ms ==> score >= SCALE,
{
    let age: u64 = if now_ms >= last_run_ms {
        now_ms - last_run_ms
    } else {
        0
    };
    let f = freq_term_fixed(count);
    let d = decay_fixed(age);
    proof {
        lemma_mul_nonnegative(f as int, d as int);
        assert(f as int * d as int <= f as int * SCALE as int) by {
            lemma_mul_inequality(d as int, SCALE as int, f as int);
            lemma_mul_is_commutative(d as int, f as int);
        }
        lemma_multiply_divide_le(f as int * d as int, SCALE as int, f as int);
        lemma_mul_is_commutative(SCALE as int, f as int);
        lemma_div_pos_is_pos(f as int * d as int, SCALE as int);
        if now_ms == last_run_ms {
            lemma_score_at_now(count, now_ms);
        }
    }
    ((f as u128 * d as u128) / (SCALE as u128)) as u64
}

} // verus!
