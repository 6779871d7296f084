//! The real-time rendering entry point: buffer filling and quantization.
//!
//! A render session owns a sample counter, the source being played and a
//! sticky termination flag. Each buffer-fill call advances the source one
//! sample at a time, scales the mixed signal by the master volume,
//! quantizes it into the device's sample representation and duplicates it
//! across the interleaved channels; once the source is exhausted the flag
//! is raised and every remaining sample of this and every later call is
//! the quantized zero. The loop performs no allocation and runs in time
//! proportional to the buffer length.

use crate::math::{DECAY_CAP, ONE};
use crate::score::{Config, Track, SCORE_MAX};
use crate::sequencer::{
    all_done, div_floor_one, lemma_exhausted_stays, lemma_reaches_later, mix,
    play_source, step_all, time_reaches_ticks, track_step, Source, Time,
};
use vstd::arithmetic::div_mod::{lemma_div_is_ordered, lemma_div_multiples_vanish};
use vstd::arithmetic::mul::{
    lemma_mul_inequality, lemma_mul_is_commutative, lemma_mul_is_distributive_add,
    lemma_mul_unary_negation,
};
use vstd::prelude::*;

verus! {

/// Truncation of `a / d` toward zero, the rounding an `as` cast of a
/// real-valued quotient performs.
pub open spec fn trunc_div(a: int, d: int) -> int {
    if a >= 0 {
        a / d
    } else {
        -((-a) / d)
    }
}

/// The signal clamped to the quantizers' input range `[-ONE, ONE]`.
pub open spec fn spec_clamp(s: int) -> int {
    if s < -ONE {
        -(ONE as int)
    } else if s > ONE {
        ONE as int
    } else {
        s
    }
}

/// A quantizer: maps a fixed-point signal in `[-ONE, ONE]` (out-of-range
/// inputs saturate) to the output device's sample representation. One
/// implementation exists per supported representation, chosen once at
/// session setup.
pub trait Quantize<T> {
    /// The exact value the quantizer produces for the signal `s`.
    spec fn spec_quantize(&self, s: int) -> T;

    /// Quantizes one signal sample.
    fn quantize(&self, s: i64) -> (r: T)
        ensures
            r == self.spec_quantize(s as int),
    ;
}

/// Signed 16-bit output: the clamped signal scaled by the largest
/// positive sample value, truncated toward zero.
pub struct SignedSixteen;

/// Unsigned 16-bit output: the clamped signal shifted up by one and
/// scaled by half the unsigned range, so silence sits at the midpoint.
pub struct UnsignedSixteen;

/// Pass-through output for a driver that consumes the fixed-point signal
/// itself (the floating-point path divides by [`ONE`] outside the core).
pub struct RawSignal;

impl Quantize<i16> for SignedSixteen {
    open spec fn spec_quantize(&self, s: int) -> i16 {
        trunc_div(spec_clamp(s) * 32767, ONE as int) as i16
    }

    fn quantize(&self, s: i64) -> (r: i16) {
        let c: i64 = if s < -ONE {
            -ONE
        } else if s > ONE {
            ONE
        } else {
            s
        };
        proof {
            lemma_quantize_scale_bound(if c >= 0 { c as int } else { -(c as int) }, 32767);
        }
        if c >= 0 {
            (((c as u64) * 32767) / (ONE as u64)) as i16
        } else {
            let m = (((-c) as u64) * 32767) / (ONE as u64);
            proof {
                lemma_mul_unary_negation(c as int, 32767);
            }
            -(m as i16)
        }
    }
}

impl Quantize<u16> for UnsignedSixteen {
    open spec fn spec_quantize(&self, s: int) -> u16 {
        ((spec_clamp(s) + ONE) * 32767 / (ONE as int)) as u16
    }

    fn quantize(&self, s: i64) -> (r: u16) {
        let c: i64 = if s < -ONE {
            -ONE
        } else if s > ONE {
            ONE
        } else {
            s
        };
        proof {
            lemma_quantize_scale_bound((c + ONE) as int, 65534);
        }
        (((c + ONE) as u64) * 32767 / (ONE as u64)) as u16
    }
}

impl Quantize<i64> for RawSignal {
    open spec fn spec_quantize(&self, s: int) -> i64 {
        s as i64
    }

    fn quantize(&self, s: i64) -> (r: i64) {
        s
    }
}

/// A nonnegative signal no larger than `ONE` (`2 * ONE` for the shifted
/// unsigned form) scales to at most the top of the output range.
proof fn lemma_quantize_scale_bound(c: int, top: int)
    requires
        0 <= c,
        (c <= ONE && top == 32767) || (c <= 2 * ONE && top == 65534),
    ensures
        0 <= c * 32767 / (ONE as int) <= top,
{
    vstd::arithmetic::mul::lemma_mul_nonnegative(c, 32767);
    vstd::arithmetic::div_mod::lemma_div_pos_is_pos(c * 32767, ONE as int);
    if c <= ONE && top == 32767 {
        lemma_mul_inequality(c, ONE as int, 32767);
        lemma_mul_is_commutative(ONE as int, 32767);
        lemma_div_is_ordered(c * 32767, 32767 * (ONE as int), ONE as int);
        lemma_div_multiples_vanish(32767, ONE as int);
    } else {
        lemma_mul_inequality(c, 2 * ONE, 32767);
        assert((2 * ONE) * 32767 == (ONE as int) * 65534) by {
            lemma_mul_is_commutative(2 * ONE, 32767);
            lemma_mul_is_distributive_add(32767, ONE as int, ONE as int);
            lemma_mul_is_commutative(ONE as int, 65534);
        }
        lemma_div_is_ordered(c * 32767, (ONE as int) * 65534, ONE as int);
        lemma_div_multiples_vanish(65534, ONE as int);
    }
}

/// The mixed signal scaled by the master volume, in [`ONE`] units.
pub open spec fn scaled(v: int, cfg: Config) -> int {
    v * cfg.volume / (ONE as int)
}

/// The tracks of a source after `n` whole samples have been rendered,
/// the first at sample index `first` of a stream running at `den` samples
/// per second.
pub open spec fn frame_tracks(s: Seq<Track>, first: int, den: int, cfg: Config, n: nat) -> Seq<
    Track,
>
    decreases n,
{
    if n == 0 {
        s
    } else {
        step_all(
            frame_tracks(s, first, den, cfg, (n - 1) as nat),
            Time { num: (first + n - 1) as u64, den: den as u64 },
            cfg,
        )
    }
}

/// The outcome of rendering sample `n` (counted from the state `s` at
/// sample index `first`): `None` when the source ends that sample
/// exhausted, the mixed signal otherwise.
pub open spec fn frame_out(s: Seq<Track>, first: int, den: int, cfg: Config, n: nat) -> Option<
    int,
> {
    let cur = frame_tracks(s, first, den, cfg, n);
    let t = Time { num: (first + n) as u64, den: den as u64 };
    if all_done(cur, t, cfg) {
        None
    } else {
        Some(mix(cur, t, cfg))
    }
}

/// The signal value written for sample `n`: the volume-scaled mix while
/// the source plays, exact silence from the sample at which it is
/// exhausted.
pub open spec fn frame_value(s: Seq<Track>, first: int, den: int, cfg: Config, n: nat) -> int {
    match frame_out(s, first, den, cfg, n) {
        Some(v) => scaled(v, cfg),
        None => 0,
    }
}

/// The state a rendering session threads through its buffer-fill calls.
pub struct RenderState {
    /// Samples rendered since the session began.
    pub counter: u64,
    /// Output sample rate in Hz, fixed for the session.
    pub sample_rate: u32,
    /// Interleaved output channels, fixed for the session.
    pub channel_count: usize,
    /// The source being played.
    pub source: Source,
    /// Sticky flag, raised the first time the source reports exhaustion.
    pub terminating: bool,
}

impl RenderState {
    /// The session's current wall-clock time.
    pub open spec fn time(self) -> Time {
        Time { num: self.counter, den: self.sample_rate as u64 }
    }

    /// A valid session has a positive sample rate, at least one channel,
    /// a valid source whose evaluation never ran ahead of the clock, and
    /// a termination flag that is raised only past exhaustion.
    pub open spec fn wf(self, cfg: Config) -> bool {
        &&& 1 <= self.sample_rate
        &&& 1 <= self.channel_count
        &&& self.source.wf()
        &&& self.source.synced(self.time(), cfg)
        &&& (self.terminating ==> self.source.exhausted())
    }

    /// A fresh session at sample zero over a source whose tracks are all
    /// at their beginning.
    pub fn new(sample_rate: u32, channel_count: usize, source: Source, cfg: &Config) -> (st:
        RenderState)
        requires
            1 <= sample_rate,
            1 <= channel_count,
            source.wf(),
            forall|i: int|
                0 <= i < source.tracks@.len() ==> (#[trigger] source.tracks@[i]).start_of_instruction
                    == 0,
        ensures
            st.wf(*cfg),
            st.counter == 0,
            st.sample_rate == sample_rate,
            st.channel_count == channel_count,
            st.source == source,
            !st.terminating,
    {
        let st = RenderState { counter: 0, sample_rate, channel_count, source, terminating: false };
        proof {
            assert forall|i: int|
                0 <= i < st.source.tracks@.len() implies time_reaches_ticks(
                st.time(),
                #[trigger] st.source.tracks@[i].start_of_instruction as int,
                *cfg,
            ) by {
                assert(st.source.tracks@[i].start_of_instruction == 0);
                vstd::arithmetic::mul::lemma_mul_basics(cfg.bpm as int);
                vstd::arithmetic::mul::lemma_mul_basics(cfg.ticks_per_measure as int);
                vstd::arithmetic::mul::lemma_mul_basics(sample_rate as int);
            }
        }
        st
    }
}

/// Fills `buffer` with the next `buffer.len() / channel_count` samples of
/// the session, each duplicated across the interleaved channels and
/// quantized by `q`; raises the sticky termination flag at the sample at
/// which the source is first exhausted and writes the quantized zero from
/// then on. The buffer length must be an exact multiple of the channel
/// count.
#[verifier::loop_isolation(false)]
pub fn fill_buffer<T, Q: Quantize<T>>(
    state: &mut RenderState,
    buffer: &mut Vec<T>,
    q: &Q,
    cfg: &Config,
)
    requires
        old(state).wf(*cfg),
        cfg.wf(),
        old(buffer).len() % old(state).channel_count == 0,
        old(state).counter + old(buffer).len() <= u64::MAX,
    ensures
        final(state).wf(*cfg),
        final(state).sample_rate == old(state).sample_rate,
        final(state).channel_count == old(state).channel_count,
        final(buffer).len() == old(buffer).len(),
        final(state).counter == old(state).counter + old(buffer).len() / old(
            state,
        ).channel_count,
        final(state).source.tracks@ == frame_tracks(
            old(state).source.tracks@,
            old(state).counter as int,
            old(state).sample_rate as int,
            *cfg,
            (old(buffer).len() / old(state).channel_count) as nat,
        ),
        final(state).terminating == (old(state).terminating || exists|k: nat|
            k < old(buffer).len() / old(state).channel_count && frame_out(
                old(state).source.tracks@,
                old(state).counter as int,
                old(state).sample_rate as int,
                *cfg,
                k,
            ) is None),
        old(state).terminating ==> final(state).terminating,
        forall|idx: int|
            0 <= idx < old(buffer).len() ==> #[trigger] final(buffer)@[idx] == q.spec_quantize(
                frame_value(
                    old(state).source.tracks@,
                    old(state).counter as int,
                    old(state).sample_rate as int,
                    *cfg,
                    (idx / old(state).channel_count as int) as nat,
                ),
            ),
{
    let ghost s0 = old(state).source.tracks@;
    let ghost c0 = old(state).counter as int;
    let ghost den = old(state).sample_rate as int;
    let ghost term0 = old(state).terminating;
    let ch = state.channel_count;
    let frames = buffer.len() / ch;
    proof {
        vstd::arithmetic::div_mod::lemma_fundamental_div_mod(buffer.len() as int, ch as int);
    }
    let mut i: usize = 0;
    while i < frames
        invariant
            state.sample_rate == old(state).sample_rate,
            state.channel_count == old(state).channel_count,
            ch == state.channel_count,
            1 <= state.sample_rate,
            1 <= ch,
            cfg.wf(),
            buffer.len() == old(buffer).len(),
            buffer.len() == frames * ch,
            i <= frames,
            c0 + frames <= u64::MAX,
            state.counter == c0 + i,
            state.source.wf(),
            state.source.synced(state.time(), *cfg),
            state.terminating ==> state.source.exhausted(),
            state.source.tracks@ == frame_tracks(s0, c0, den, *cfg, i as nat),
            state.terminating == (term0 || exists|k: nat|
                k < i && frame_out(s0, c0, den, *cfg, k) is None),
            forall|idx: int|
                0 <= idx < i * ch ==> #[trigger] buffer@[idx] == q.spec_quantize(
                    frame_value(s0, c0, den, *cfg, (idx / ch as int) as nat),
                ),
        decreases frames - i,
    {
        let t = Time { num: state.counter, den: state.sample_rate as u64 };
        let ghost pre = state.source.tracks@;
        let out = play_source(t, &mut state.source, cfg);
        proof {
            assert(state.source.tracks@.len() == pre.len());
            assert forall|x: int| 0 <= x < pre.len() implies step_all(pre, t, *cfg)[x]
                == state.source.tracks@[x] by {
                assert(state.source.tracks@[x] == track_step(pre[x], t, *cfg));
            }
            assert(step_all(pre, t, *cfg) =~= state.source.tracks@);
            assert(t == Time { num: (c0 + (i + 1) - 1) as u64, den: den as u64 });
            assert(frame_tracks(s0, c0, den, *cfg, (i + 1) as nat) == step_all(
                frame_tracks(s0, c0, den, *cfg, i as nat),
                Time { num: (c0 + (i + 1) - 1) as u64, den: den as u64 },
                *cfg,
            ));
            assert(frame_tracks(s0, c0, den, *cfg, (i + 1) as nat) == state.source.tracks@);
            if term0 || exists|k: nat| k < i && frame_out(s0, c0, den, *cfg, k) is None {
                lemma_exhausted_stays(pre, t, *cfg);
            }
        }
        let val: i64 = match out {
            Option::Some(sig) => {
                proof {
                    lemma_scale_fits(sig as int, cfg.volume as int);
                }
                let p = (sig as i128) * (cfg.volume as i128);
                div_floor_one(p) as i64
            },
            Option::None => {
                proof {
                    assert(all_done(pre, t, *cfg));
                    assert(frame_out(s0, c0, den, *cfg, i as nat) is None);
                    assert forall|x: int|
                        0 <= x < state.source.tracks@.len() implies (#[trigger] state.source.tracks@[x]).exhausted() by {
                        assert(track_step(pre[x], t, *cfg).exhausted());
                    }
                }
                state.terminating = true;
                0
            },
        };
        proof {
            assert(val == frame_value(s0, c0, den, *cfg, i as nat));
        }
        let mut j: usize = 0;
        while j < ch
            invariant
                j <= ch,
                1 <= ch,
                i < frames,
                buffer.len() == frames * ch,
                val == frame_value(s0, c0, den, *cfg, i as nat),
                forall|idx: int|
                    0 <= idx < i * ch + j ==> #[trigger] buffer@[idx] == q.spec_quantize(
                        frame_value(s0, c0, den, *cfg, (idx / ch as int) as nat),
                    ),
            decreases ch - j,
        {
            proof {
                lemma_mul_inequality(i as int + 1, frames as int, ch as int);
                lemma_mul_is_distributive_add(ch as int, i as int, 1);
                lemma_mul_is_commutative(i as int + 1, ch as int);
                lemma_mul_is_commutative(i as int, ch as int);
                lemma_mul_is_commutative(frames as int, ch as int);
            }
            let idx = i * ch + j;
            proof {
                vstd::arithmetic::div_mod::lemma_div_multiples_vanish_fancy(
                    i as int,
                    j as int,
                    ch as int,
                );
                lemma_mul_is_commutative(ch as int, i as int);
                assert((i * ch + j) as int / (ch as int) == i as int);
            }
            buffer[idx] = q.quantize(val);
            j = j + 1;
        }
        proof {
            lemma_mul_is_distributive_add(ch as int, i as int, 1);
            lemma_mul_is_commutative(ch as int, i as int);
            lemma_mul_is_commutative(ch as int, i as int + 1);
            assert((i as int + 1) * ch == i as int * ch + ch);
            let t2 = Time { num: (c0 + i + 1) as u64, den: state.sample_rate as u64 };
            assert forall|x: int|
                0 <= x < state.source.tracks@.len() implies time_reaches_ticks(
                t2,
                #[trigger] state.source.tracks@[x].start_of_instruction as int,
                *cfg,
            ) by {
                lemma_reaches_later(
                    t,
                    t2,
                    state.source.tracks@[x].start_of_instruction as int,
                    *cfg,
                );
            }
        }
        state.counter = state.counter + 1;
        i = i + 1;
    }
}

/// Termination is idempotent: once the evaluation of some sample reports
/// exhaustion, the evaluation of every later sample reports it again and
/// its written signal value is exact silence.
pub proof fn lemma_termination_idempotent(
    s: Seq<Track>,
    first: int,
    den: int,
    cfg: Config,
    n: nat,
    m: nat,
)
    requires
        frame_out(s, first, den, cfg, n) is None,
        n <= m,
    ensures
        frame_out(s, first, den, cfg, m) is None,
        frame_value(s, first, den, cfg, m) == 0,
    decreases m - n,
{
    if m > n {
        let cur = frame_tracks(s, first, den, cfg, n);
        let tn = Time { num: (first + n) as u64, den: den as u64 };
        assert(all_done(cur, tn, cfg));
        let nxt = frame_tracks(s, first, den, cfg, (n + 1) as nat);
        assert(nxt == step_all(cur, tn, cfg));
        assert forall|x: int| 0 <= x < nxt.len() implies (#[trigger] nxt[x]).exhausted() by {
            assert(track_step(cur[x], tn, cfg).exhausted());
            assert(nxt[x] == track_step(cur[x], tn, cfg));
        }
        let tn1 = Time { num: (first + n + 1) as u64, den: den as u64 };
        lemma_exhausted_stays(nxt, tn1, cfg);
        assert(frame_out(s, first, den, cfg, (n + 1) as nat) is None);
        lemma_termination_idempotent(s, first, den, cfg, (n + 1) as nat, m);
    }
}

/// The reference signal levels quantize exactly: the full positive scale
/// to the top of the output range, silence to the representation's zero
/// point, the full negative scale to its bottom.
pub proof fn lemma_quantize_landmarks()
    ensures
        SignedSixteen.spec_quantize(ONE as int) == 32767i16,
        SignedSixteen.spec_quantize(0int) == 0i16,
        SignedSixteen.spec_quantize(-(ONE as int)) == -32767i16,
        UnsignedSixteen.spec_quantize(ONE as int) == 65534u16,
        UnsignedSixteen.spec_quantize(0int) == 32767u16,
        UnsignedSixteen.spec_quantize(-(ONE as int)) == 0u16,
{
    lemma_mul_is_commutative(ONE as int, 32767);
    lemma_div_multiples_vanish(32767, ONE as int);
    vstd::arithmetic::mul::lemma_mul_basics(32767);
    vstd::arithmetic::div_mod::lemma_div_of0(ONE as int);
    lemma_mul_unary_negation(ONE as int, 32767);
    assert((2 * ONE) * 32767 == (ONE as int) * 65534) by {
        lemma_mul_is_commutative(2 * ONE, 32767);
        lemma_mul_is_distributive_add(32767, ONE as int, ONE as int);
        lemma_mul_is_commutative(ONE as int, 65534);
    }
    lemma_div_multiples_vanish(65534, ONE as int);
    assert(((ONE as int) + ONE) * 32767 == (2 * ONE) * 32767);
}

/// The volume-scaled mix of a well-formed source fits comfortably in 64
/// bits.
proof fn lemma_scale_fits(sig: int, volume: int)
    requires
        -(SCORE_MAX as int) * (DECAY_CAP as int) <= sig <= (SCORE_MAX as int) * (DECAY_CAP as int),
        0 <= volume <= ONE,
    ensures
        -0x1_0000_0000_0000_0000 <= sig * volume <= 0x1_0000_0000_0000_0000,
        -0x1000_0000_0000 <= sig * volume / (ONE as int) <= 0x1000_0000_0000,
{
    let bound = (SCORE_MAX as int) * (DECAY_CAP as int);
    lemma_mul_unary_negation(SCORE_MAX as int, DECAY_CAP as int);
    if sig >= 0 {
        lemma_mul_inequality(sig, bound, volume);
        lemma_mul_inequality(volume, ONE as int, bound);
        lemma_mul_is_commutative(bound, volume);
        vstd::arithmetic::mul::lemma_mul_nonnegative(sig, volume);
        lemma_div_is_ordered(0, sig * volume, ONE as int);
        lemma_div_is_ordered(sig * volume, 0x1_0000_0000_0000_0000, ONE as int);
    } else {
        lemma_mul_unary_negation(sig, volume);
        lemma_mul_inequality(-sig, bound, volume);
        lemma_mul_inequality(volume, ONE as int, bound);
        lemma_mul_is_commutative(bound, volume);
        vstd::arithmetic::mul::lemma_mul_nonnegative(-sig, volume);
        lemma_div_is_ordered(-0x1_0000_0000_0000_0000, sig * volume, ONE as int);
        lemma_div_is_ordered(sig * volume, 0x1_0000_0000_0000_0000, ONE as int);
    }
}

} // verus!
