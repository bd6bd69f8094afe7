//! The oscillation of the wave front and the life meter's decision table.

use vstd::prelude::*;

verus! {

/// Microseconds in one second; also the period of the wave front.
pub const SECOND: u64 = 1_000_000;

/// Half of the wave front's period, in microseconds.
pub const HALF_PERIOD: u64 = 500_000;

/// One unit of the sine, in millionths.
pub const SINE_ONE: i64 = 1_000_000;

/// Amplitude of the front when it is not dampened, in pixels.
pub const AMPLITUDE_LARGE: i64 = 70;

/// Amplitude of the front while it is dampened, in pixels.
pub const AMPLITUDE_SMALL: i64 = 20;

/// Full life, in millionths of a point (100 points).
pub const LIFE_MAX: i64 = 100_000_000;

/// Life lost per microsecond of dampening, in millionths (20 points a second).
pub const LIFE_DEPLETE: i64 = 20;

/// Life regained per microsecond without dampening, in millionths (10 points a second).
pub const LIFE_RECOVER: i64 = 10;

/// The longest sub-step, in microseconds (a hundredth of a second).
pub const MAX_SLICE: u64 = 10_000;

/// `sin(2π t)` for `t` in microseconds, in millionths, by Bhaskara's rational
/// approximation on each half period. It is exact at every quarter period.
pub open spec fn sine_spec(t: int) -> int {
    let p = t % (SECOND as int);
    let m = if p < HALF_PERIOD as int { p } else { p - HALF_PERIOD as int };
    let q = m * (HALF_PERIOD as int - m);
    let v = (16 * q * SINE_ONE as int) / (5 * (HALF_PERIOD as int) * (HALF_PERIOD as int) - 4 * q);
    if p < HALF_PERIOD as int { v } else { -v }
}

/// Whether the front is dampened in a sub-step: the key is held and life is left.
pub open spec fn dampened(held: bool, life: int) -> bool {
    held && life > 0
}

/// The amplitude of the front in a sub-step, in pixels.
pub open spec fn amplitude_spec(held: bool, life: int) -> int {
    if dampened(held, life) { AMPLITUDE_SMALL as int } else { AMPLITUDE_LARGE as int }
}

/// Life after a sub-step of `slice` microseconds: it drains while dampened,
/// stays while the key is held on an empty meter, recovers while the key is
/// released, and is then capped at full life.
pub open spec fn life_spec(life: int, held: bool, slice: int) -> int {
    let l = if held {
        if life > 0 { life - LIFE_DEPLETE as int * slice } else { life }
    } else {
        life + LIFE_RECOVER as int * slice
    };
    if l > LIFE_MAX as int { LIFE_MAX as int } else { l }
}

/// The product of two numbers at most `h` apart from zero on either side of
/// the midpoint is at most a quarter of `h` squared.
proof fn lemma_quarter_square(m: int, h: int)
    requires
        0 <= m <= h,
    ensures
        0 <= m * (h - m),
        4 * (m * (h - m)) <= h * h,
{
    assert(0 <= m * (h - m)) by (nonlinear_arith)
        requires 0 <= m <= h;
    assert(4 * (m * (h - m)) <= h * h) by (nonlinear_arith);
}

/// The sine never leaves [-1, 1].
pub proof fn lemma_sine_bounded(t: int)
    ensures
        -(SINE_ONE as int) <= sine_spec(t) <= SINE_ONE as int,
{
    let p = t % (SECOND as int);
    let h = HALF_PERIOD as int;
    let m = if p < h { p } else { p - h };
    lemma_quarter_square(m, h);
    let q = m * (h - m);
    let den = 5 * h * h - 4 * q;
    let num = 16 * q * SINE_ONE as int;
    assert(den >= 16 * q);
    assert(den > 0);
    assert(num <= den * SINE_ONE as int) by (nonlinear_arith)
        requires den >= 16 * q, q >= 0, num == 16 * q * SINE_ONE as int;
    assert(num / den <= SINE_ONE as int) by (nonlinear_arith)
        requires num <= den * SINE_ONE as int, den > 0;
    assert(num / den >= 0) by (nonlinear_arith)
        requires num >= 0, den > 0;
}

/// The sine is zero at the start of every period.
pub proof fn lemma_sine_period_start(k: int)
    requires
        0 <= k,
    ensures
        sine_spec(k * SECOND as int) == 0,
{
    assert((k * SECOND as int) % (SECOND as int) == 0) by (nonlinear_arith)
        requires 0 <= k;
}

/// `sin(2π t)` for `t` in microseconds, in millionths (see `sine_spec`).
pub fn sine(t: u64) -> (r: i64)
    ensures
        r == sine_spec(t as int),
        -SINE_ONE <= r <= SINE_ONE,
{
    proof {
        lemma_sine_bounded(t as int);
    }
    let p: u64 = t % SECOND;
    let m: u64 = if p < HALF_PERIOD { p } else { p - HALF_PERIOD };
    proof {
        lemma_quarter_square(m as int, HALF_PERIOD as int);
    }
    let q: u64 = m * (HALF_PERIOD - m);
    let num: u64 = 16 * q * (SINE_ONE as u64);
    let den: u64 = 5 * HALF_PERIOD * HALF_PERIOD - 4 * q;
    let v: u64 = num / den;
    if p < HALF_PERIOD {
        v as i64
    } else {
        -(v as i64)
    }
}

/// The amplitude of the front in a sub-step, in pixels.
pub fn amplitude(held: bool, life: i64) -> (r: i64)
    ensures
        r == amplitude_spec(held, life as int),
{
    if held && life > 0 {
        AMPLITUDE_SMALL
    } else {
        AMPLITUDE_LARGE
    }
}

/// Life after a sub-step of `slice` microseconds (see `life_spec`).
pub fn next_life(life: i64, held: bool, slice: u64) -> (r: i64)
    requires
        -(LIFE_MAX as int) <= life <= LIFE_MAX,
        slice <= MAX_SLICE,
    ensures
        r == life_spec(life as int, held, slice as int),
{
    let l: i64 = if held {
        if life > 0 {
            life - LIFE_DEPLETE * (slice as i64)
        } else {
            life
        }
    } else {
        life + LIFE_RECOVER * (slice as i64)
    };
    if l > LIFE_MAX {
        LIFE_MAX
    } else {
        l
    }
}

} // verus!
