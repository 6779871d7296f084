//! Track and source evaluation: the instruction sequencer.
//!
//! Evaluation is driven by wall-clock time, carried as an exact rational
//! number of seconds so that every comparison against an instruction
//! boundary is an exact integer cross-multiplication. Each evaluation of a
//! track advances its cursor by at most one instruction, renders the
//! active note (or silence for a rest), and reports exhaustion once the
//! final instruction's time window has elapsed; a source mixes its tracks
//! by summation and is exhausted only when every track is.

use crate::math::{
    decay, envelope, pitch_compute, sawtooth, spec_decay, spec_envelope, spec_pitch_freq,
    spec_sawtooth, DECAY_CAP, FREQ_MAX, ONE, PITCH_MAX, PITCH_MIN,
};
use crate::score::{
    lemma_ticks_before_bounds, ticks_before, Config, Instruction, Track, SCORE_MAX, TICK_MAX,
};
use vstd::arithmetic::div_mod::{
    lemma_div_is_ordered, lemma_div_multiples_vanish, lemma_div_multiples_vanish_fancy,
    lemma_fundamental_div_mod, lemma_mod_bound,
};
use vstd::arithmetic::mul::{
    lemma_mul_inequality, lemma_mul_is_commutative, lemma_mul_nonnegative,
    lemma_mul_strictly_positive, lemma_mul_unary_negation, lemma_mul_upper_bound,
};
use vstd::prelude::*;

verus! {

/// Wall-clock time as an exact rational number of seconds.
#[derive(Clone, Copy)]
pub struct Time {
    pub num: u64,
    pub den: u64,
}

impl Time {
    /// A valid time has a positive denominator.
    pub open spec fn wf(self) -> bool {
        1 <= self.den
    }
}

/// Holds when the time `t` lies strictly after the moment `ticks` ticks
/// from the start of the piece: `t > ticks * 240 / (bpm * tpm)` seconds,
/// cross-multiplied to avoid any rounding.
pub open spec fn time_past_ticks(t: Time, ticks: int, cfg: Config) -> bool {
    t.num * cfg.bpm * cfg.ticks_per_measure > ticks * 240 * t.den
}

/// Holds when the time `t` is at or after the moment `ticks` ticks from
/// the start of the piece.
pub open spec fn time_reaches_ticks(t: Time, ticks: int, cfg: Config) -> bool {
    t.num * cfg.bpm * cfg.ticks_per_measure >= ticks * 240 * t.den
}

/// Decides `time_past_ticks` exactly.
fn past_ticks(t: Time, ticks: u64, cfg: &Config) -> (r: bool)
    requires
        t.wf(),
        cfg.wf(),
        ticks <= 0x2_0000_0000,
    ensures
        r == time_past_ticks(t, ticks as int, *cfg),
{
    proof {
        lemma_mul_upper_bound(t.num as int, 0xffff_ffff_ffff_ffff, cfg.bpm as int, 1024);
        lemma_mul_upper_bound(
            (t.num * cfg.bpm) as int,
            0x3ff_ffff_ffff_ffff_fc00,
            cfg.ticks_per_measure as int,
            1024,
        );
        lemma_mul_upper_bound(
            (ticks * 240) as int,
            0x1e0_0000_0000_0000,
            t.den as int,
            0xffff_ffff_ffff_ffff,
        );
    }
    let lhs: u128 = (t.num as u128) * (cfg.bpm as u128) * (cfg.ticks_per_measure as u128);
    let rhs: u128 = (ticks as u128) * 240 * (t.den as u128);
    lhs > rhs
}

/// The state of `tr` after one evaluation at time `t`: the cursor either
/// stays on the current instruction or, when `t` lies strictly past that
/// instruction's end, advances one step.
pub open spec fn track_step(tr: Track, t: Time, cfg: Config) -> Track {
    if tr.current_instruction >= tr.instructions@.len() {
        tr
    } else {
        let end = tr.start_of_instruction + tr.instructions@[
            tr.current_instruction as int
        ].spec_length();
        if time_past_ticks(t, end, cfg) {
            Track {
                instructions: tr.instructions,
                start_of_instruction: end as u64,
                current_instruction: (tr.current_instruction + 1) as usize,
            }
        } else {
            tr
        }
    }
}

/// The signal sample of a note with the given pitch and length (in
/// ticks), started `start_ticks` ticks into the piece, evaluated at time
/// `t`: the waveform at the note's accumulated phase, shaped by the
/// envelope at the note's progress and by the per-pitch decay factor.
pub open spec fn note_sample(t: Time, start_ticks: int, pitch: int, length: int, cfg: Config) -> int {
    let num_s = t.num * cfg.bpm * cfg.ticks_per_measure - start_ticks * 240 * t.den;
    let freq = spec_pitch_freq(pitch, cfg.reference_frequency as int);
    let phase = num_s * freq / (t.den * cfg.bpm * cfg.ticks_per_measure);
    let prog = num_s * ONE / (t.den * 240 * length);
    spec_sawtooth(phase) * spec_envelope(prog) / (ONE as int) * spec_decay(pitch) / (ONE as int)
}

/// The signal sample produced by one evaluation of `tr` at time `t`,
/// meaningful when the evaluation does not end exhausted: silence for a
/// rest, the rendered note otherwise.
pub open spec fn track_signal(tr: Track, t: Time, cfg: Config) -> int {
    let st = track_step(tr, t, cfg);
    match st.instructions@[st.current_instruction as int] {
        Instruction::Rest { .. } => 0,
        Instruction::Note { pitch, length } => note_sample(
            t,
            st.start_of_instruction as int,
            pitch as int,
            length as int,
            cfg,
        ),
    }
}

/// The outcome of one evaluation of `tr` at time `t`: `None` when the
/// track ends the evaluation exhausted, the signal sample otherwise.
pub open spec fn track_out(tr: Track, t: Time, cfg: Config) -> Option<int> {
    let st = track_step(tr, t, cfg);
    if st.exhausted() {
        None
    } else {
        Some(track_signal(tr, t, cfg))
    }
}

/// Floor division of `a` by [`ONE`], exact also for negative `a`.
pub(crate) fn div_floor_one(a: i128) -> (q: i128)
    requires
        -0x1_0000_0000_0000_0000 <= a <= 0x1_0000_0000_0000_0000,
    ensures
        q == a as int / (ONE as int),
{
    if a >= 0 {
        ((a as u128) / (ONE as u128)) as i128
    } else {
        let b = (-a) as u128;
        let q1 = (b + (ONE - 1) as u128) / (ONE as u128);
        proof {
            lemma_floor_div_neg(b as int, ONE as int);
        }
        -(q1 as i128)
    }
}

/// For positive `b` and `d`, the floor of `-b / d` is the negated ceiling
/// of `b / d`.
proof fn lemma_floor_div_neg(b: int, d: int)
    requires
        b > 0,
        d > 0,
    ensures
        (-b) / d == -((b + d - 1) / d),
{
    let k = b / d;
    let r = b % d;
    lemma_fundamental_div_mod(b, d);
    lemma_mod_bound(b, d);
    if r == 0 {
        lemma_div_multiples_vanish_fancy(k, d - 1, d);
        assert(d * k + (d - 1) == b + d - 1);
        lemma_div_multiples_vanish(-k, d);
        assert(d * (-k) == -b) by {
            lemma_mul_unary_negation(d, k);
        }
    } else {
        lemma_div_multiples_vanish_fancy(k + 1, r - 1, d);
        assert(d * (k + 1) == d * k + d) by {
            vstd::arithmetic::mul::lemma_mul_is_distributive_add(d, k, 1);
        }
        assert(d * (k + 1) + (r - 1) == b + d - 1);
        lemma_div_multiples_vanish_fancy(-(k + 1), d - r, d);
        assert(d * (-(k + 1)) + (d - r) == -b) by {
            lemma_mul_unary_negation(d, k + 1);
        }
    }
}

/// A product of a value in `[-m, m]` and a value in `[0, n]` lies in
/// `[-(m * n), m * n]`.
proof fn lemma_mul_abs_bound(a: int, m: int, b: int, n: int)
    requires
        -m <= a <= m,
        0 <= b <= n,
    ensures
        -(m * n) <= a * b <= m * n,
{
    if a >= 0 {
        lemma_mul_upper_bound(a, m, b, n);
        lemma_mul_nonnegative(a, b);
        lemma_mul_nonnegative(m, n);
    } else {
        lemma_mul_upper_bound(-a, m, b, n);
        lemma_mul_unary_negation(a, b);
        lemma_mul_nonnegative(-a, b);
        lemma_mul_nonnegative(m, n);
    }
}

/// Renders the note begun `start_of_instruction` ticks into the piece at
/// time `t`: waveform times envelope times decay, in [`ONE`] units.
pub fn note_gen(
    t: Time,
    start_of_instruction: u64,
    pitch: i32,
    length: u32,
    cfg: &Config,
) -> (s: i64)
    requires
        t.wf(),
        cfg.wf(),
        PITCH_MIN <= pitch <= PITCH_MAX,
        1 <= length <= TICK_MAX,
        start_of_instruction <= 0x1_0001_0000,
        time_reaches_ticks(t, start_of_instruction as int, *cfg),
    ensures
        s == note_sample(t, start_of_instruction as int, pitch as int, length as int, *cfg),
        -DECAY_CAP <= s <= DECAY_CAP,
{
    proof {
        lemma_mul_upper_bound(t.num as int, 0xffff_ffff_ffff_ffff, cfg.bpm as int, 1024);
        lemma_mul_upper_bound(
            (t.num * cfg.bpm) as int,
            0x3ff_ffff_ffff_ffff_fc00,
            cfg.ticks_per_measure as int,
            1024,
        );
        lemma_mul_upper_bound(
            (start_of_instruction * 240) as int,
            0x1e0_1e00_0000,
            t.den as int,
            0xffff_ffff_ffff_ffff,
        );
    }
    let lhs: u128 = (t.num as u128) * (cfg.bpm as u128) * (cfg.ticks_per_measure as u128);
    let rhs: u128 = (start_of_instruction as u128) * 240 * (t.den as u128);
    let num_s: u128 = lhs - rhs;
    let freq = pitch_compute(pitch, cfg.reference_frequency);
    proof {
        lemma_mul_strictly_positive(t.den as int, cfg.bpm as int);
        lemma_mul_strictly_positive((t.den * cfg.bpm) as int, cfg.ticks_per_measure as int);
        lemma_mul_upper_bound(t.den as int, 0xffff_ffff_ffff_ffff, cfg.bpm as int, 1024);
        lemma_mul_upper_bound(
            (t.den * cfg.bpm) as int,
            0x3ff_ffff_ffff_ffff_fc00,
            cfg.ticks_per_measure as int,
            1024,
        );
        lemma_mul_upper_bound(
            num_s as int,
            0x10_0000_0000_0000_0000_0000,
            freq as int,
            FREQ_MAX as int,
        );
    }
    let denom: u128 = (t.den as u128) * (cfg.bpm as u128) * (cfg.ticks_per_measure as u128);
    let phase128: u128 = num_s * (freq as u128) / denom;
    let ph: u64 = (phase128 % (ONE as u128)) as u64;
    proof {
        crate::math::lemma_sawtooth_mod((num_s as int) * (freq as int) / (denom as int));
        lemma_mod_bound(phase128 as int, ONE as int);
    }
    let gen = sawtooth(ph);
    proof {
        lemma_mul_strictly_positive(t.den as int, 240);
        lemma_mul_strictly_positive((t.den * 240) as int, length as int);
        lemma_mul_upper_bound(t.den as int, 0xffff_ffff_ffff_ffff, 240, 240);
        lemma_mul_upper_bound(
            (t.den * 240) as int,
            0xf0_0000_0000_0000_0000,
            length as int,
            0x1_0000,
        );
        lemma_mul_upper_bound(num_s as int, 0x10_0000_0000_0000_0000_0000, ONE as int, ONE as int);
    }
    let pden: u128 = (t.den as u128) * 240 * (length as u128);
    let prog128: u128 = num_s * (ONE as u128) / pden;
    let env: i64 = if prog128 > ONE as u128 {
        0
    } else {
        envelope(prog128 as i64)
    };
    let dec = decay(pitch);
    proof {
        lemma_mul_abs_bound(gen as int, ONE as int, env as int, ONE as int);
    }
    let p1: i128 = (gen as i128) * (env as i128);
    let q1 = div_floor_one(p1);
    proof {
        lemma_div_is_ordered(p1 as int, (ONE as int) * (ONE as int), ONE as int);
        lemma_div_is_ordered(-((ONE as int) * (ONE as int)), p1 as int, ONE as int);
        lemma_div_multiples_vanish(ONE as int, ONE as int);
        lemma_div_multiples_vanish(-(ONE as int), ONE as int);
        lemma_mul_is_commutative(ONE as int, ONE as int);
        assert((ONE as int) * (ONE as int) / (ONE as int) == ONE as int);
        assert(-((ONE as int) * (ONE as int)) == (ONE as int) * (-(ONE as int))) by {
            lemma_mul_unary_negation(ONE as int, ONE as int);
            lemma_mul_is_commutative(ONE as int, -(ONE as int));
        }
        assert(-(ONE as int) <= q1 <= ONE as int);
        lemma_mul_abs_bound(q1 as int, ONE as int, dec as int, DECAY_CAP as int);
    }
    let p2: i128 = q1 * (dec as i128);
    let q2 = div_floor_one(p2);
    proof {
        lemma_div_is_ordered(p2 as int, (ONE as int) * (DECAY_CAP as int), ONE as int);
        lemma_div_is_ordered(-((ONE as int) * (DECAY_CAP as int)), p2 as int, ONE as int);
        lemma_mul_is_commutative(ONE as int, DECAY_CAP as int);
        lemma_div_multiples_vanish(DECAY_CAP as int, ONE as int);
        lemma_div_multiples_vanish(-(DECAY_CAP as int), ONE as int);
        assert(-((ONE as int) * (DECAY_CAP as int)) == (ONE as int) * (-(DECAY_CAP as int))) by {
            lemma_mul_unary_negation(ONE as int, DECAY_CAP as int);
            lemma_mul_is_commutative(ONE as int, -(DECAY_CAP as int));
        }
        assert(-(DECAY_CAP as int) <= q2 <= DECAY_CAP as int);
    }
    q2 as i64
}

/// Evaluates `track` at time `t`: advances the cursor past an expired
/// instruction, renders the active note or rest, and returns `None` once
/// the track is exhausted. Time must not run backwards: `t` is at or
/// after the start of the current instruction.
pub fn play_track(t: Time, track: &mut Track, cfg: &Config) -> (r: Option<i64>)
    requires
        old(track).wf(),
        t.wf(),
        cfg.wf(),
        time_reaches_ticks(t, old(track).start_of_instruction as int, *cfg),
    ensures
        *final(track) == track_step(*old(track), t, *cfg),
        final(track).wf(),
        time_reaches_ticks(t, final(track).start_of_instruction as int, *cfg),
        (r is None) <==> track_step(*old(track), t, *cfg).exhausted(),
        match r {
            Some(v) => Some(v as int) == track_out(*old(track), t, *cfg) && -DECAY_CAP <= v
                <= DECAY_CAP,
            None => true,
        },
{
    let ghost tr0 = *track;
    let len = track.instructions.len();
    if track.current_instruction >= len {
        return None;
    }
    let cur = track.current_instruction;
    let l = track.instructions[cur].length();
    proof {
        lemma_ticks_before_bounds(track.instructions@, cur as int);
        lemma_ticks_before_bounds(track.instructions@, (cur + 1) as int);
        assert(track.instructions@[cur as int].wf());
    }
    let end = track.start_of_instruction + (l as u64);
    if past_ticks(t, end, cfg) {
        track.start_of_instruction = end;
        track.current_instruction = cur + 1;
        if track.current_instruction >= len {
            return None;
        }
    }
    proof {
        assert(*track == track_step(tr0, t, *cfg));
        if time_past_ticks(t, end as int, *cfg) {
            assert(time_reaches_ticks(t, end as int, *cfg));
        }
        lemma_ticks_before_bounds(track.instructions@, track.current_instruction as int);
        assert(track.instructions@[track.current_instruction as int].wf());
    }
    match track.instructions[track.current_instruction] {
        Instruction::Rest { .. } => Some(0),
        Instruction::Note { pitch, length } => Some(
            note_gen(t, track.start_of_instruction, pitch, length, cfg),
        ),
    }
}

/// One or more tracks mixed into a single signal by summation.
pub struct Source {
    pub tracks: Vec<Track>,
}

impl Source {
    /// A valid source holds at most [`SCORE_MAX`] valid tracks.
    pub open spec fn wf(self) -> bool {
        &&& self.tracks@.len() <= SCORE_MAX
        &&& forall|i: int| 0 <= i < self.tracks@.len() ==> self.tracks@[i].wf()
    }

    /// The terminal state: every owned track is exhausted.
    pub open spec fn exhausted(self) -> bool {
        all_exhausted(self.tracks@)
    }

    /// Time `t` is at or after the start of every track's current
    /// instruction (evaluation times never run backwards).
    pub open spec fn synced(self, t: Time, cfg: Config) -> bool {
        forall|i: int|
            0 <= i < self.tracks@.len() ==> time_reaches_ticks(
                t,
                #[trigger] self.tracks@[i].start_of_instruction as int,
                cfg,
            )
    }
}

/// Every track of the sequence ends an evaluation at `t` exhausted.
pub open spec fn all_done(s: Seq<Track>, t: Time, cfg: Config) -> bool {
    forall|i: int| 0 <= i < s.len() ==> (#[trigger] track_step(s[i], t, cfg)).exhausted()
}

/// The mixed signal of the tracks evaluated at `t`: the sum of the
/// samples of the tracks that are not exhausted; an exhausted track
/// contributes nothing.
pub open spec fn mix(s: Seq<Track>, t: Time, cfg: Config) -> int
    decreases s.len(),
{
    if s.len() == 0 {
        0
    } else {
        mix(s.drop_last(), t, cfg) + match track_out(s.last(), t, cfg) {
            Some(v) => v,
            None => 0,
        }
    }
}

/// Evaluates every track of `source` at time `t` and mixes their signals:
/// `None` once every track is exhausted, the summed signal otherwise.
pub fn play_source(t: Time, source: &mut Source, cfg: &Config) -> (r: Option<i64>)
    requires
        old(source).wf(),
        t.wf(),
        cfg.wf(),
        old(source).synced(t, *cfg),
    ensures
        final(source).wf(),
        final(source).synced(t, *cfg),
        final(source).tracks@.len() == old(source).tracks@.len(),
        forall|i: int|
            0 <= i < old(source).tracks@.len() ==> final(source).tracks@[i] == track_step(
                old(source).tracks@[i],
                t,
                *cfg,
            ),
        (r is None) <==> all_done(old(source).tracks@, t, *cfg),
        match r {
            Some(v) => v as int == mix(old(source).tracks@, t, *cfg) && -(SCORE_MAX as i64)
                * DECAY_CAP <= v <= (SCORE_MAX as i64) * DECAY_CAP,
            None => true,
        },
{
    let ghost s0 = old(source).tracks@;
    let n = source.tracks.len();
    let mut acc: Option<i64> = None;
    let mut k: usize = 0;
    while k < n
        invariant
            source.tracks@.len() == n,
            n == s0.len(),
            n <= SCORE_MAX,
            k <= n,
            t.wf(),
            cfg.wf(),
            forall|i: int| 0 <= i < n ==> s0[i].wf(),
            forall|i: int|
                0 <= i < n ==> time_reaches_ticks(
                    t,
                    #[trigger] s0[i].start_of_instruction as int,
                    *cfg,
                ),
            forall|i: int|
                0 <= i < k ==> source.tracks@[i] == track_step(s0[i], t, *cfg),
            forall|i: int| k <= i < n ==> source.tracks@[i] == s0[i],
            forall|i: int| 0 <= i < n ==> (#[trigger] source.tracks@[i]).wf(),
            forall|i: int|
                0 <= i < n ==> time_reaches_ticks(
                    t,
                    #[trigger] source.tracks@[i].start_of_instruction as int,
                    *cfg,
                ),
            (acc is None) <==> (forall|i: int|
                0 <= i < k ==> (#[trigger] track_step(s0[i], t, *cfg)).exhausted()),
            match acc {
                Some(v) => v as int == mix(s0.take(k as int), t, *cfg) && -(k as i64) * DECAY_CAP
                    <= v <= (k as i64) * DECAY_CAP,
                None => true,
            },
        decreases n - k,
    {
        proof {
            assert(source.tracks@[k as int] == s0[k as int]);
        }
        let out = play_track(t, &mut source.tracks[k], cfg);
        proof {
            assert(s0.take(k as int + 1).drop_last() =~= s0.take(k as int));
            assert(s0.take(k as int + 1).last() == s0[k as int]);
            if acc is None {
                assert(mix(s0.take(k as int), t, *cfg) == 0) by {
                    lemma_mix_all_none(s0.take(k as int), t, *cfg);
                }
            }
        }
        acc = match (acc, out) {
            (Option::None, Option::None) => None,
            (Option::None, Option::Some(x)) => Some(x),
            (Option::Some(x), Option::None) => Some(x),
            (Option::Some(x), Option::Some(y)) => Some(x + y),
        };
        k = k + 1;
    }
    proof {
        assert(s0.take(n as int) =~= s0);
    }
    acc
}

/// Every track of the sequence is in its terminal state.
pub open spec fn all_exhausted(s: Seq<Track>) -> bool {
    forall|i: int| 0 <= i < s.len() ==> (#[trigger] s[i]).exhausted()
}

/// All tracks of a sequence stepped together at one time.
pub open spec fn step_all(s: Seq<Track>, t: Time, cfg: Config) -> Seq<Track> {
    s.map_values(|tr: Track| track_step(tr, t, cfg))
}

/// An exhausted track no longer changes: evaluation leaves its state
/// alone and reports no signal. Exhaustion is a terminal state.
pub proof fn lemma_exhausted_terminal(tr: Track, t: Time, cfg: Config)
    requires
        tr.exhausted(),
    ensures
        track_step(tr, t, cfg) == tr,
        track_out(tr, t, cfg) is None,
{
}

/// Exhaustion of a whole sequence of tracks is terminal: every later
/// evaluation reports exhaustion again and leaves every track alone.
pub proof fn lemma_exhausted_stays(s: Seq<Track>, t: Time, cfg: Config)
    requires
        all_exhausted(s),
    ensures
        all_done(s, t, cfg),
        step_all(s, t, cfg) == s,
{
    assert forall|i: int| 0 <= i < s.len() implies (#[trigger] track_step(
        s[i],
        t,
        cfg,
    )).exhausted() by {
        assert(s[i].exhausted());
    }
    assert(step_all(s, t, cfg) =~= s);
}

/// Once the time has reached a tick boundary, every later time (over the
/// same denominator) has reached it too.
pub proof fn lemma_reaches_later(t1: Time, t2: Time, ticks: int, cfg: Config)
    requires
        cfg.wf(),
        t1.den == t2.den,
        t1.num <= t2.num,
        time_reaches_ticks(t1, ticks, cfg),
    ensures
        time_reaches_ticks(t2, ticks, cfg),
{
    lemma_mul_inequality(t1.num as int, t2.num as int, cfg.bpm as int);
    lemma_mul_inequality(
        (t1.num * cfg.bpm) as int,
        (t2.num * cfg.bpm) as int,
        cfg.ticks_per_measure as int,
    );
}

/// A sequence of tracks that all report exhaustion mixes to silence.
proof fn lemma_mix_all_none(s: Seq<Track>, t: Time, cfg: Config)
    requires
        forall|i: int| 0 <= i < s.len() ==> (#[trigger] track_step(s[i], t, cfg)).exhausted(),
    ensures
        mix(s, t, cfg) == 0,
    decreases s.len(),
{
    if s.len() > 0 {
        lemma_mix_all_none(s.drop_last(), t, cfg);
        assert(track_step(s[s.len() - 1], t, cfg).exhausted());
    }
}

/// A track never exhausts before its total duration has elapsed, and a
/// track on its final instruction exhausts at the first evaluation
/// strictly past that duration: the boundary is exact.
pub proof fn lemma_track_exhaustion_boundary(tr: Track, t: Time, cfg: Config)
    requires
        tr.wf(),
        t.wf(),
        !tr.exhausted(),
    ensures
        !time_past_ticks(t, tr.total_ticks(), cfg) ==> !track_step(tr, t, cfg).exhausted(),
        tr.current_instruction + 1 == tr.instructions@.len() && time_past_ticks(
            t,
            tr.total_ticks(),
            cfg,
        ) ==> track_step(tr, t, cfg).exhausted(),
{
    let s = tr.instructions@;
    let cur = tr.current_instruction as int;
    let end = tr.start_of_instruction + s[cur].spec_length();
    assert(end == ticks_before(s, cur + 1));
    if cur + 1 == s.len() {
        assert(end == tr.total_ticks());
    }
}

/// While at least one track ends an evaluation still active, the source
/// as a whole is not exhausted at that evaluation.
pub proof fn lemma_active_track_keeps_source(s: Seq<Track>, t: Time, cfg: Config, i: int)
    requires
        0 <= i < s.len(),
        !track_step(s[i], t, cfg).exhausted(),
    ensures
        !all_done(s, t, cfg),
{
}

/// When every track but one reports exhaustion, the mixed signal equals
/// that one track's solo signal: finished tracks contribute nothing.
pub proof fn lemma_solo_mix(s: Seq<Track>, t: Time, cfg: Config, i: int)
    requires
        0 <= i < s.len(),
        forall|j: int| 0 <= j < s.len() && j != i ==> (#[trigger] track_out(s[j], t, cfg)) is None,
    ensures
        mix(s, t, cfg) == match track_out(s[i], t, cfg) {
            Some(v) => v,
            None => 0,
        },
    decreases s.len(),
{
    if i == s.len() - 1 {
        let pre = s.drop_last();
        assert forall|x: int| 0 <= x < pre.len() implies (#[trigger] track_step(
            pre[x],
            t,
            cfg,
        )).exhausted() by {
            assert(pre[x] == s[x]);
            assert(track_out(s[x], t, cfg) is None);
        }
        lemma_mix_all_none(pre, t, cfg);
    } else {
        assert(track_out(s[s.len() - 1], t, cfg) is None);
        let pre = s.drop_last();
        assert forall|j: int| 0 <= j < pre.len() && j != i implies (#[trigger] track_out(
            pre[j],
            t,
            cfg,
        )) is None by {
            assert(pre[j] == s[j]);
        }
        assert(pre[i] == s[i]);
        lemma_solo_mix(pre, t, cfg, i);
    }
}

} // verus!
