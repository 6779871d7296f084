//! The fixed score: two tracks of a short piece, and the configuration it
//! plays at.
//!
//! Durations are counted on a sixteen-tick measure grid: a sixteenth note
//! is one tick, an eighth two, a quarter four, a half eight, a whole
//! sixteen.

use crate::math::ONE;
use crate::score::{Config, Instruction, Track, SCORE_MAX, TICK_MAX};
use vstd::prelude::*;

verus! {

/// The configuration the fixed score plays at: 120 beats per minute over
/// sixteen-tick measures, a 440 Hz reference pitch, and a master volume
/// of one tenth to keep the summed tracks clear of clipping.
pub fn default_config() -> (c: Config)
    ensures
        c.wf(),
        c.bpm == 120,
        c.ticks_per_measure == 16,
        c.reference_frequency == 440 * (ONE as u64),
        c.volume == 104857,
{
    Config { bpm: 120, ticks_per_measure: 16, reference_frequency: 461373440, volume: 104857 }
}

/// Appends one note to a score under construction.
fn push_note(v: &mut Vec<Instruction>, pitch: i32, length: u32)
    requires
        crate::math::PITCH_MIN <= pitch <= crate::math::PITCH_MAX,
        1 <= length <= TICK_MAX,
        old(v)@.len() < SCORE_MAX,
        forall|j: int| 0 <= j < old(v)@.len() ==> old(v)@[j].wf(),
    ensures
        final(v)@.len() == old(v)@.len() + 1,
        forall|j: int| 0 <= j < final(v)@.len() ==> final(v)@[j].wf(),
{
    v.push(Instruction::Note { pitch, length });
}

/// Appends one rest to a score under construction.
fn push_rest(v: &mut Vec<Instruction>, length: u32)
    requires
        1 <= length <= TICK_MAX,
        old(v)@.len() < SCORE_MAX,
        forall|j: int| 0 <= j < old(v)@.len() ==> old(v)@[j].wf(),
    ensures
        final(v)@.len() == old(v)@.len() + 1,
        forall|j: int| 0 <= j < final(v)@.len() ==> final(v)@[j].wf(),
{
    v.push(Instruction::Rest { length });
}

/// Appends one measure-long phrase of the treble line, led by the pitch
/// `lead` on its opening pair of sixteenths.
fn phrase(v: &mut Vec<Instruction>, lead: i32)
    requires
        -23 <= lead <= -19,
        old(v)@.len() + 12 <= SCORE_MAX,
        forall|j: int| 0 <= j < old(v)@.len() ==> old(v)@[j].wf(),
    ensures
        final(v)@.len() == old(v)@.len() + 12,
        forall|j: int| 0 <= j < final(v)@.len() ==> final(v)@[j].wf(),
{
    push_note(v, lead, 1);
    push_note(v, lead, 1);
    push_note(v, -7, 1);
    push_rest(v, 1);
    push_note(v, -12, 2);
    push_rest(v, 1);
    push_note(v, -13, 2);
    push_note(v, -14, 2);
    push_note(v, -16, 2);
    push_note(v, -19, 1);
    push_note(v, -16, 1);
    push_note(v, -14, 1);
}

/// The treble track: eight measures of the running phrase, the lead pitch
/// stepping down through the bars, closed by a final sixteenth rest.
pub fn treble() -> (t: Track)
    ensures
        t.wf(),
        t.current_instruction == 0,
        t.start_of_instruction == 0,
        t.instructions@.len() == 97,
{
    let mut v: Vec<Instruction> = Vec::new();
    phrase(&mut v, -19);
    phrase(&mut v, -21);
    phrase(&mut v, -22);
    phrase(&mut v, -23);
    phrase(&mut v, -19);
    phrase(&mut v, -21);
    phrase(&mut v, -22);
    phrase(&mut v, -23);
    push_rest(&mut v, 1);
    Track::new(v)
}

/// The bass track: four measures of silence, three sustained whole notes
/// stepping down, a dotted-quarter figure, and a final sixteenth rest.
pub fn bass() -> (t: Track)
    ensures
        t.wf(),
        t.current_instruction == 0,
        t.start_of_instruction == 0,
        t.instructions@.len() == 12,
{
    let mut v: Vec<Instruction> = Vec::new();
    push_rest(&mut v, 16);
    push_rest(&mut v, 16);
    push_rest(&mut v, 16);
    push_rest(&mut v, 16);
    push_note(&mut v, -31, 16);
    push_note(&mut v, -33, 16);
    push_note(&mut v, -34, 16);
    push_note(&mut v, -35, 6);
    push_note(&mut v, -35, 2);
    push_note(&mut v, -33, 8);
    push_note(&mut v, -33, 2);
    push_rest(&mut v, 1);
    Track::new(v)
}

} // verus!
