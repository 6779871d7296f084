//! Pure signal mathematics in exact fixed-point arithmetic.
//!
//! Real-valued quantities (amplitudes, envelope gains, phases) are carried
//! as integers scaled by [`ONE`]: the integer `ONE` stands for the real
//! number one. Every function here is total over its stated domain and its
//! value is pinned exactly by a spec function, so boundary behaviour (note
//! edges, clipping, octave steps) is reproducible bit for bit.

use vstd::arithmetic::div_mod::{
    lemma_add_mod_noop, lemma_div_is_ordered, lemma_div_multiples_vanish,
    lemma_hoist_over_denominator, lemma_mod_add_multiples_vanish, lemma_mod_bound,
    lemma_mod_self_0, lemma_small_mod,
};
use vstd::arithmetic::mul::lemma_mul_upper_bound;
use vstd::arithmetic::power2::{
    lemma2_to64, lemma_pow2_strictly_increases, lemma_pow2_unfold, pow2,
};
use vstd::prelude::*;

verus! {

/// Fixed-point scale: this many integer units stand for the real number 1.
pub const ONE: i64 = 1048576;

/// Lowest supported semitone offset from the reference pitch.
pub const PITCH_MIN: i32 = -120;

/// Highest supported semitone offset from the reference pitch.
pub const PITCH_MAX: i32 = 120;

/// Saturation bound for the per-pitch decay factor, in [`ONE`] units.
pub const DECAY_CAP: i64 = 256 * ONE;

/// Largest frequency `pitch_compute` can return, in [`ONE`] units of Hz.
pub const FREQ_MAX: u64 = 0x200_0000_0000;

/// Trapezoidal amplitude envelope over note progress `x` (in [`ONE`] units):
/// zero outside `[0, ONE]`, a linear fade-in over the first tenth, a linear
/// fade-out over the last tenth, and full amplitude `ONE` in between.
pub open spec fn spec_envelope(x: int) -> int {
    if x < 0 || x > ONE {
        0
    } else if 10 * x < ONE {
        10 * x
    } else if 10 * x > 9 * ONE {
        10 * (ONE - x)
    } else {
        ONE as int
    }
}

/// Amplitude gain for a note at progress `x` through its duration.
pub fn envelope(x: i64) -> (r: i64)
    ensures
        r == spec_envelope(x as int),
{
    if x < 0 || x > ONE {
        0
    } else if 10 * x < ONE {
        10 * x
    } else if 10 * x > 9 * ONE {
        10 * (ONE - x)
    } else {
        ONE
    }
}

/// The envelope never amplifies: its value lies in `[0, ONE]` everywhere.
pub proof fn lemma_envelope_range(x: int)
    ensures
        0 <= spec_envelope(x) <= ONE,
{
}

/// The envelope is silent exactly at both note boundaries and at full
/// amplitude at the midpoint, so adjacent notes meet at amplitude zero.
pub proof fn lemma_envelope_boundaries()
    ensures
        spec_envelope(0) == 0,
        spec_envelope(ONE as int) == 0,
        spec_envelope(ONE as int / 2) == ONE,
        spec_envelope(-1) == 0,
        spec_envelope(ONE + 1) == 0,
{
}

/// Centered triangular wave over phase `x` (in [`ONE`] units per cycle):
/// the phase is reduced modulo one cycle, then the wave rises linearly to
/// `ONE` at a quarter cycle, falls to `-ONE` at three quarters, and rises
/// back to zero.
pub open spec fn spec_sawtooth(x: int) -> int {
    let m = x % (ONE as int);
    if 4 * m < ONE {
        4 * m
    } else if 4 * m < 3 * ONE {
        2 * ONE - 4 * m
    } else {
        4 * m - 4 * ONE
    }
}

/// Triangle-wave generator at phase `x` (in [`ONE`] units per cycle).
pub fn sawtooth(x: u64) -> (r: i64)
    ensures
        r == spec_sawtooth(x as int),
        -ONE <= r <= ONE,
{
    let m = (x % (ONE as u64)) as i64;
    proof {
        lemma_mod_bound(x as int, ONE as int);
    }
    if 4 * m < ONE {
        4 * m
    } else if 4 * m < 3 * ONE {
        2 * ONE - 4 * m
    } else {
        4 * m - 4 * ONE
    }
}

/// The generator output is bounded by one in amplitude for every input.
pub proof fn lemma_sawtooth_range(x: int)
    ensures
        -ONE <= spec_sawtooth(x) <= ONE,
{
    lemma_mod_bound(x, ONE as int);
}

/// The generator is continuous: one phase step never moves the output by
/// more than four fixed-point units (the wave's slope), including across
/// the wrap-around at the end of a cycle.
pub proof fn lemma_sawtooth_continuous(x: int)
    ensures
        spec_sawtooth(x + 1) - spec_sawtooth(x) <= 4,
        spec_sawtooth(x) - spec_sawtooth(x + 1) <= 4,
{
    let m = x % (ONE as int);
    lemma_mod_bound(x, ONE as int);
    lemma_add_mod_noop(x, 1, ONE as int);
    lemma_small_mod(1nat, ONE as nat);
    if m == ONE - 1 {
        lemma_mod_self_0(ONE as int);
        assert((x + 1) % (ONE as int) == 0);
    } else {
        lemma_small_mod((m + 1) as nat, ONE as nat);
        assert((x + 1) % (ONE as int) == m + 1);
    }
}

/// Reducing the phase modulo one cycle does not change the wave.
pub proof fn lemma_sawtooth_mod(x: int)
    ensures
        spec_sawtooth(x % (ONE as int)) == spec_sawtooth(x),
{
    lemma_mod_bound(x, ONE as int);
    lemma_small_mod((x % (ONE as int)) as nat, ONE as nat);
}

/// The wave is zero at phase zero and hits its extremes exactly at the
/// quarter and three-quarter points of the cycle.
pub proof fn lemma_sawtooth_landmarks()
    ensures
        spec_sawtooth(0) == 0,
        spec_sawtooth(ONE as int / 4) == ONE,
        spec_sawtooth(3 * (ONE as int) / 4) == -ONE,
{
    lemma_small_mod(0nat, ONE as nat);
    lemma_small_mod((ONE as int / 4) as nat, ONE as nat);
    lemma_small_mod((3 * (ONE as int) / 4) as nat, ONE as nat);
}

/// Fixed-point ratio of semitone `r` (within one octave) to the octave's
/// base frequency: `2^(r/12)` scaled by [`ONE`], rounded to the nearest
/// integer.
pub open spec fn spec_semitone(r: int) -> int {
    if r == 0 {
        1048576
    } else if r == 1 {
        1110928
    } else if r == 2 {
        1176987
    } else if r == 3 {
        1246974
    } else if r == 4 {
        1321123
    } else if r == 5 {
        1399681
    } else if r == 6 {
        1482910
    } else if r == 7 {
        1571089
    } else if r == 8 {
        1664511
    } else if r == 9 {
        1763488
    } else if r == 10 {
        1868350
    } else {
        1979448
    }
}

fn semitone(r: u32) -> (s: u64)
    requires
        r < 12,
    ensures
        s == spec_semitone(r as int),
{
    if r == 0 {
        1048576
    } else if r == 1 {
        1110928
    } else if r == 2 {
        1176987
    } else if r == 3 {
        1246974
    } else if r == 4 {
        1321123
    } else if r == 5 {
        1399681
    } else if r == 6 {
        1482910
    } else if r == 7 {
        1571089
    } else if r == 8 {
        1664511
    } else if r == 9 {
        1763488
    } else if r == 10 {
        1868350
    } else {
        1979448
    }
}

/// Frequency of the pitch `p` semitones from the reference, in [`ONE`]
/// units of Hz. The pitch is split into an octave number above the lowest
/// supported octave and a semitone remainder; the remainder picks a tabled
/// ratio and each octave doubles it exactly.
pub open spec fn spec_pitch_freq(p: int, reference_frequency: int) -> int {
    let off = p - PITCH_MIN;
    (reference_frequency * spec_semitone(off % 12) / 0x4000_0000) * pow2((off / 12) as nat)
}

/// Every tabled semitone ratio lies between one and two (in [`ONE`] units).
pub proof fn lemma_semitone_range(r: int)
    ensures
        1048576 <= spec_semitone(r) < 2097152,
{
}

/// Powers of two do not decrease with the exponent.
proof fn lemma_pow2_le(i: nat, j: nat)
    requires
        i <= j,
    ensures
        pow2(i) <= pow2(j),
{
    if i < j {
        lemma_pow2_strictly_increases(i, j);
    }
}

/// Frequency of the pitch `p` semitones from the reference pitch, whose
/// frequency `reference_frequency` is given in [`ONE`] units of Hz.
pub fn pitch_compute(p: i32, reference_frequency: u64) -> (f: u64)
    requires
        PITCH_MIN <= p <= PITCH_MAX,
        1 <= reference_frequency <= 0x4000_0000,
    ensures
        f == spec_pitch_freq(p as int, reference_frequency as int),
        f <= FREQ_MAX,
{
    let off = (p - PITCH_MIN) as u32;
    let oct = off / 12;
    let r = off % 12;
    let s = semitone(r);
    proof {
        lemma_semitone_range(r as int);
        lemma_mul_upper_bound(
            reference_frequency as int,
            0x4000_0000,
            spec_semitone(r as int),
            2097151,
        );
    }
    let base = reference_frequency * s / 0x4000_0000;
    proof {
        lemma_div_is_ordered(
            reference_frequency * spec_semitone(r as int),
            (0x4000_0000 as int) * 2097151,
            0x4000_0000,
        );
        lemma_div_multiples_vanish(2097151, 0x4000_0000);
        lemma2_to64();
    }
    let mut f = base;
    let mut i: u32 = 0;
    while i < oct
        invariant
            i <= oct,
            oct <= 20,
            base <= 2097151,
            f == base * pow2(i as nat),
        decreases oct - i,
    {
        proof {
            lemma_pow2_le(i as nat, 19);
            lemma2_to64();
            lemma_mul_upper_bound(base as int, 2097151, pow2(i as nat) as int, pow2(19) as int);
            lemma_pow2_unfold((i + 1) as nat);
            vstd::arithmetic::mul::lemma_mul_is_associative(base as int, 2, pow2(i as nat) as int);
            vstd::arithmetic::mul::lemma_mul_is_commutative(base as int, 2);
            vstd::arithmetic::mul::lemma_mul_is_associative(2, base as int, pow2(i as nat) as int);
        }
        f = f * 2;
        i = i + 1;
    }
    proof {
        lemma_pow2_le(oct as nat, 20);
        lemma2_to64();
        lemma_mul_upper_bound(base as int, 2097151, pow2(oct as nat) as int, pow2(20) as int);
    }
    f
}


/// Raising the pitch by one octave exactly doubles the frequency.
pub proof fn lemma_octave_doubles(p: int, reference_frequency: int)
    requires
        PITCH_MIN <= p,
        p + 12 <= PITCH_MAX,
    ensures
        spec_pitch_freq(p + 12, reference_frequency) == 2 * spec_pitch_freq(
            p,
            reference_frequency,
        ),
{
    let off = p - PITCH_MIN;
    lemma_mod_add_multiples_vanish(off, 12);
    lemma_hoist_over_denominator(off, 1, 12nat);
    assert((off + 12) / 12 == off / 12 + 1);
    assert((off + 12) % 12 == off % 12);
    let base = reference_frequency * spec_semitone(off % 12) / 0x4000_0000;
    let o = (off / 12) as nat;
    lemma_pow2_unfold((o + 1) as nat);
    assert(pow2((o + 1) as nat) == 2 * pow2(o));
    vstd::arithmetic::mul::lemma_mul_is_associative(base, 2, pow2(o) as int);
    vstd::arithmetic::mul::lemma_mul_is_commutative(base, 2);
    vstd::arithmetic::mul::lemma_mul_is_associative(2, base, pow2(o) as int);
    assert(spec_pitch_freq(p + 12, reference_frequency) == base * pow2((o + 1) as nat));
    assert(base * (2 * pow2(o)) == 2 * (base * pow2(o)));
}
/// Per-pitch loudness compensation: a factor of `96/100` per semitone
/// above the reference and `100/96` per semitone below it, computed with
/// truncating fixed-point steps and saturated at [`DECAY_CAP`].
pub open spec fn spec_decay(p: int) -> int
    decreases
            (if p >= 0 {
                p
            } else {
                -p
            }),
{
    if p == 0 {
        ONE as int
    } else if p > 0 {
        spec_decay(p - 1) * 96 / 100
    } else {
        let d = spec_decay(p + 1) * 100 / 96;
        if d > DECAY_CAP {
            DECAY_CAP as int
        } else {
            d
        }
    }
}

/// The decay factor is never negative and never exceeds its saturation
/// bound.
pub proof fn lemma_decay_range(p: int)
    ensures
        0 <= spec_decay(p) <= DECAY_CAP,
    decreases
            (if p >= 0 {
                p
            } else {
                -p
            }),
{
    if p > 0 {
        lemma_decay_range(p - 1);
    } else if p < 0 {
        lemma_decay_range(p + 1);
    }
}

/// Loudness compensation factor for the pitch `p`, in [`ONE`] units.
pub fn decay(p: i32) -> (r: i64)
    requires
        PITCH_MIN <= p <= PITCH_MAX,
    ensures
        r == spec_decay(p as int),
        0 <= r <= DECAY_CAP,
{
    proof {
        lemma_decay_range(p as int);
    }
    let mut r: i64 = ONE;
    if p >= 0 {
        let mut i: i32 = 0;
        while i < p
            invariant
                0 <= i <= p,
                p <= PITCH_MAX,
                r == spec_decay(i as int),
                0 <= r <= DECAY_CAP,
            decreases p - i,
        {
            proof {
                lemma_decay_range((i + 1) as int);
            }
            r = r * 96 / 100;
            i = i + 1;
        }
    } else {
        let mut i: i32 = 0;
        while i > p
            invariant
                p <= i <= 0,
                PITCH_MIN <= p,
                r == spec_decay(i as int),
                0 <= r <= DECAY_CAP,
            decreases i - p,
        {
            proof {
                lemma_decay_range((i - 1) as int);
            }
            r = r * 100 / 96;
            if r > DECAY_CAP {
                r = DECAY_CAP;
            }
            i = i - 1;
        }
    }
    r
}

} // verus!
