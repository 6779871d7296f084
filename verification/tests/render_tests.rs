use sequencer::math::ONE;
use sequencer::render::{
    fill_buffer, Quantize, RawSignal, RenderState, SignedSixteen, UnsignedSixteen,
};
use sequencer::score::{Config, Instruction, Track};
use sequencer::sequencer::Source;

fn test_config() -> Config {
    Config { bpm: 120, ticks_per_measure: 16, reference_frequency: 461373440, volume: 104857 }
}

#[test]
fn signed_sixteen_boundary_values() {
    assert_eq!(SignedSixteen.quantize(ONE), 32767);
    assert_eq!(SignedSixteen.quantize(0), 0);
    assert_eq!(SignedSixteen.quantize(-ONE), -32767);
}

#[test]
fn signed_sixteen_truncates_toward_zero_and_saturates() {
    assert_eq!(SignedSixteen.quantize(ONE / 2), 16383);
    assert_eq!(SignedSixteen.quantize(-(ONE / 2)), -16383);
    assert_eq!(SignedSixteen.quantize(ONE * 100), 32767);
    assert_eq!(SignedSixteen.quantize(-ONE * 100), -32767);
}

#[test]
fn unsigned_sixteen_boundary_values() {
    assert_eq!(UnsignedSixteen.quantize(-ONE), 0);
    assert_eq!(UnsignedSixteen.quantize(0), 32767);
    assert_eq!(UnsignedSixteen.quantize(ONE), 65534);
    assert_eq!(UnsignedSixteen.quantize(ONE * 5), 65534);
    assert_eq!(UnsignedSixteen.quantize(-ONE * 5), 0);
}

#[test]
fn raw_signal_passes_through() {
    assert_eq!(RawSignal.quantize(12345), 12345);
    assert_eq!(RawSignal.quantize(-12345), -12345);
}

// One tick at 120 BPM over sixteen-tick measures is 125 ms: 6000 samples
// at 48 kHz, so the source is exhausted inside the first 8000-sample call.
#[test]
fn termination_is_sticky_and_later_calls_write_quantized_silence() {
    let cfg = test_config();
    let src = Source { tracks: vec![Track::new(vec![Instruction::Note { pitch: 0, length: 1 }])] };
    let mut st = RenderState::new(48000, 1, src, &cfg);
    let mut buf: Vec<i16> = vec![7; 8000];
    fill_buffer(&mut st, &mut buf, &SignedSixteen, &cfg);
    assert!(st.terminating);
    for idx in 6002..8000 {
        assert_eq!(buf[idx], 0, "tail of the exhausting call at {idx}");
    }
    let counter_after_first = st.counter;
    for _ in 0..3 {
        let mut again: Vec<i16> = vec![7; 512];
        fill_buffer(&mut st, &mut again, &SignedSixteen, &cfg);
        assert!(st.terminating, "the flag must never reset");
        assert!(again.iter().all(|&v| v == 0), "silence after exhaustion");
    }
    assert_eq!(st.counter, counter_after_first + 3 * 512);
}

#[test]
fn samples_are_duplicated_across_channels() {
    let cfg = test_config();
    let src = Source { tracks: vec![Track::new(vec![Instruction::Note { pitch: -7, length: 8 }])] };
    let mut st = RenderState::new(48000, 2, src, &cfg);
    let mut buf: Vec<i64> = vec![0; 2000];
    fill_buffer(&mut st, &mut buf, &RawSignal, &cfg);
    for f in 0..1000 {
        assert_eq!(buf[2 * f], buf[2 * f + 1], "frame {f}");
    }
    assert_eq!(st.counter, 1000);
}

// The end-to-end scenario: a four-tick note then a four-tick rest at
// 120 BPM over sixteen-tick measures is half a second of tone and half a
// second of silence; at 48 kHz the note covers samples [0, 24000], the
// rest follows, and the source is exhausted from sample 48001 on.
#[test]
fn end_to_end_note_then_rest() {
    let cfg = test_config();
    let src = Source {
        tracks: vec![Track::new(vec![
            Instruction::Note { pitch: 0, length: 4 },
            Instruction::Rest { length: 4 },
        ])],
    };
    let mut st = RenderState::new(48000, 1, src, &cfg);
    let mut buf: Vec<i64> = vec![-1; 48002];
    fill_buffer(&mut st, &mut buf, &RawSignal, &cfg);
    assert_eq!(buf[0], 0, "the envelope opens at zero amplitude");
    assert_eq!(buf[12001], 3844, "mid-note sample, computed by hand");
    assert!(buf[12001] != 0);
    assert_ne!(buf[18013], 0, "the note region is not silent");
    for idx in 24001..48002 {
        assert_eq!(buf[idx], 0, "rest and post-exhaustion at {idx}");
    }
    assert!(st.terminating);
}

#[test]
fn termination_fires_exactly_one_sample_past_the_piece() {
    let cfg = test_config();
    let mk = || Source {
        tracks: vec![Track::new(vec![
            Instruction::Note { pitch: 0, length: 4 },
            Instruction::Rest { length: 4 },
        ])],
    };
    let mut st = RenderState::new(48000, 1, mk(), &cfg);
    let mut buf: Vec<i64> = vec![0; 48001];
    fill_buffer(&mut st, &mut buf, &RawSignal, &cfg);
    assert!(!st.terminating, "still playing through the final sample");
    let mut one: Vec<i64> = vec![0; 1];
    fill_buffer(&mut st, &mut one, &RawSignal, &cfg);
    assert!(st.terminating, "exhausted one sample later");
}

#[test]
fn buffer_fill_advances_the_counter_by_whole_frames() {
    let cfg = test_config();
    let src = Source { tracks: vec![Track::new(vec![Instruction::Rest { length: 16 }])] };
    let mut st = RenderState::new(44100, 3, src, &cfg);
    let mut buf: Vec<u16> = vec![0; 300];
    fill_buffer(&mut st, &mut buf, &UnsignedSixteen, &cfg);
    assert_eq!(st.counter, 100);
    assert!(buf.iter().all(|&v| v == 32767), "a rest quantizes to the midpoint");
}
