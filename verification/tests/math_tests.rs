use sequencer::math::{decay, envelope, pitch_compute, sawtooth, ONE};

const REF: u64 = 440 * (ONE as u64);

#[test]
fn envelope_is_zero_at_both_note_boundaries() {
    assert_eq!(envelope(0), 0);
    assert_eq!(envelope(ONE), 0);
}

#[test]
fn envelope_is_flat_at_full_amplitude_in_the_middle() {
    assert_eq!(envelope(ONE / 2), ONE);
    assert_eq!(envelope(ONE / 10 + 1), ONE);
    assert_eq!(envelope(9 * ONE / 10), ONE);
}

#[test]
fn envelope_clamps_out_of_range_progress_to_silence() {
    assert_eq!(envelope(-10486), 0);
    assert_eq!(envelope(ONE + 10486), 0);
    assert_eq!(envelope(i64::MIN + 1), 0);
    assert_eq!(envelope(i64::MAX), 0);
}

#[test]
fn envelope_fades_linearly_at_the_edges() {
    assert_eq!(envelope(ONE / 20), 10 * (ONE / 20));
    assert_eq!(envelope(ONE - ONE / 20), 10 * (ONE / 20));
}

#[test]
fn sawtooth_landmarks() {
    assert_eq!(sawtooth(0), 0);
    assert_eq!(sawtooth((ONE / 4) as u64), ONE);
    assert_eq!(sawtooth((3 * ONE / 4) as u64), -ONE);
    assert_eq!(sawtooth((ONE / 2) as u64), 0);
}

#[test]
fn sawtooth_is_periodic_in_one_cycle() {
    let one = ONE as u64;
    assert_eq!(sawtooth(one), 0);
    assert_eq!(sawtooth(one + one / 4), ONE);
    assert_eq!(sawtooth(17 * one + one / 2), 0);
}

#[test]
fn sawtooth_is_bounded_and_continuous_on_samples() {
    let mut prev = sawtooth(0);
    for x in 1..5000u64 {
        let cur = sawtooth(x * 419);
        assert!(-ONE <= cur && cur <= ONE);
        let step_prev = sawtooth(x * 419 - 1);
        assert!((cur - step_prev).abs() <= 4);
        prev = cur;
    }
    let _ = prev;
}

#[test]
fn pitch_zero_is_the_reference_frequency() {
    assert_eq!(pitch_compute(0, REF), REF);
}

#[test]
fn one_octave_doubles_the_frequency() {
    assert_eq!(pitch_compute(12, REF), 2 * pitch_compute(0, REF));
    assert_eq!(pitch_compute(-12, REF), pitch_compute(0, REF) / 2);
    for p in -108..=108 {
        assert_eq!(pitch_compute(p + 12, REF), 2 * pitch_compute(p, REF));
    }
}

#[test]
fn decay_is_unity_at_the_reference_pitch() {
    assert_eq!(decay(0), ONE);
}

#[test]
fn decay_steps_by_the_documented_ratio() {
    assert_eq!(decay(1), ONE * 96 / 100);
    assert_eq!(decay(-1), ONE * 100 / 96);
    assert!(decay(5) < decay(4));
    assert!(decay(-5) > decay(-4));
}
