use sequencer::melody::{bass, default_config, treble};
use sequencer::score::{Config, Instruction, Track};
use sequencer::sequencer::{play_source, play_track, Source, Time};

fn test_config() -> Config {
    Config { bpm: 120, ticks_per_measure: 16, reference_frequency: 461373440, volume: 104857 }
}

fn at(counter: u64) -> Time {
    Time { num: counter, den: 48000 }
}

#[test]
fn instruction_length_reads_either_variant() {
    assert_eq!(Instruction::Note { pitch: -12, length: 7 }.length(), 7);
    assert_eq!(Instruction::Rest { length: 3 }.length(), 3);
}

#[test]
fn track_new_starts_at_the_beginning() {
    let t = Track::new(vec![Instruction::Rest { length: 4 }]);
    assert_eq!(t.current_instruction, 0);
    assert_eq!(t.start_of_instruction, 0);
    assert_eq!(t.instructions.len(), 1);
}

#[test]
fn a_rest_plays_as_exact_silence() {
    let cfg = test_config();
    let mut t = Track::new(vec![Instruction::Rest { length: 4 }]);
    assert_eq!(play_track(at(0), &mut t, &cfg), Some(0));
    assert_eq!(play_track(at(100), &mut t, &cfg), Some(0));
}

// A four-tick note at 120 BPM over sixteen-tick measures lasts a quarter
// of a two-second measure: half a second, 24000 samples at 48 kHz.
#[test]
fn track_exhausts_exactly_one_sample_past_its_total_duration() {
    let cfg = test_config();
    let mut t = Track::new(vec![Instruction::Note { pitch: 0, length: 4 }]);
    for c in 0..=24000u64 {
        assert!(play_track(at(c), &mut t, &cfg).is_some(), "exhausted early at {c}");
    }
    assert_eq!(play_track(at(24001), &mut t, &cfg), None);
    assert_eq!(play_track(at(24002), &mut t, &cfg), None);
}

#[test]
fn exhaustion_is_terminal_for_a_track() {
    let cfg = test_config();
    let mut t = Track::new(vec![Instruction::Rest { length: 1 }]);
    assert_eq!(play_track(at(10_000_000), &mut t, &cfg), None);
    assert_eq!(play_track(at(10_000_001), &mut t, &cfg), None);
}

#[test]
fn empty_source_reports_exhaustion_not_silence() {
    let cfg = test_config();
    let mut s = Source { tracks: Vec::new() };
    assert_eq!(play_source(at(0), &mut s, &cfg), None);
}

#[test]
fn source_outlives_its_shorter_track_and_matches_the_longer_solo() {
    let cfg = test_config();
    let short = Track::new(vec![Instruction::Note { pitch: 0, length: 4 }]);
    let long = Track::new(vec![Instruction::Note { pitch: -12, length: 8 }]);
    let solo = Track::new(vec![Instruction::Note { pitch: -12, length: 8 }]);
    let mut duet = Source { tracks: vec![short, long] };
    let mut alone = Source { tracks: vec![solo] };
    for c in 0..=48000u64 {
        let d = play_source(at(c), &mut duet, &cfg);
        let a = play_source(at(c), &mut alone, &cfg);
        assert!(d.is_some(), "duet exhausted early at {c}");
        if c >= 24001 {
            assert_eq!(d, a, "after the short track ended, at {c}");
        }
    }
    assert_eq!(play_source(at(48001), &mut duet, &cfg), None);
    assert_eq!(play_source(at(48001), &mut alone, &cfg), None);
}

#[test]
fn source_mixes_by_summation() {
    let cfg = test_config();
    let a = Track::new(vec![Instruction::Note { pitch: -5, length: 8 }]);
    let b = Track::new(vec![Instruction::Note { pitch: -5, length: 8 }]);
    let solo = Track::new(vec![Instruction::Note { pitch: -5, length: 8 }]);
    let mut pair = Source { tracks: vec![a, b] };
    let mut one = Source { tracks: vec![solo] };
    for c in 0..1000u64 {
        let p = play_source(at(c), &mut pair, &cfg).unwrap();
        let s = play_source(at(c), &mut one, &cfg).unwrap();
        assert_eq!(p, 2 * s, "at {c}");
    }
}

#[test]
fn the_fixed_score_has_its_shape() {
    let t = treble();
    let b = bass();
    assert_eq!(t.instructions.len(), 97);
    assert_eq!(b.instructions.len(), 12);
    let cfg = default_config();
    assert_eq!(cfg.bpm, 120);
    assert_eq!(cfg.ticks_per_measure, 16);
    let mut s = Source { tracks: vec![treble(), bass()] };
    assert!(play_source(at(0), &mut s, &cfg).is_some());
}
