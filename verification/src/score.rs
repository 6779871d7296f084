//! The score data model: playback configuration, instructions and tracks.
//!
//! Musical durations are counted in ticks: a configuration fixes how many
//! ticks one measure holds, and every instruction's length is a whole
//! number of ticks. At a given tempo the duration of `n` ticks in seconds
//! is the exact rational `n * 240 / (bpm * ticks_per_measure)`, so note
//! boundaries are exact at any sample rate.

use crate::math::{ONE, PITCH_MAX, PITCH_MIN};
use vstd::arithmetic::mul::lemma_mul_inequality;
use vstd::prelude::*;

verus! {

/// Largest instruction length, in ticks.
pub const TICK_MAX: u32 = 65536;

/// Largest number of instructions in a track, and of tracks in a source.
pub const SCORE_MAX: usize = 65536;

/// Playback configuration, fixed for the lifetime of a rendering session.
pub struct Config {
    /// Tempo in beats per minute, with four beats to the measure.
    pub bpm: u32,
    /// How many ticks one measure is divided into.
    pub ticks_per_measure: u32,
    /// Frequency of the reference pitch, in [`ONE`] units of Hz.
    pub reference_frequency: u64,
    /// Master volume applied to the mixed signal, in [`ONE`] units.
    pub volume: i64,
}

impl Config {
    /// Field ranges under which every rendering computation fits its
    /// machine integers.
    pub open spec fn wf(self) -> bool {
        &&& 1 <= self.bpm <= 1024
        &&& 1 <= self.ticks_per_measure <= 1024
        &&& 1 <= self.reference_frequency <= 0x4000_0000
        &&& 0 <= self.volume <= ONE
    }
}

/// One scored event: a pitched note or a silent rest, each lasting a
/// positive whole number of ticks.
pub enum Instruction {
    Note { pitch: i32, length: u32 },
    Rest { length: u32 },
}

impl Instruction {
    /// The event's duration in ticks.
    pub open spec fn spec_length(self) -> u32 {
        match self {
            Instruction::Note { length, .. } => length,
            Instruction::Rest { length } => length,
        }
    }

    /// The event's duration in ticks.
    pub fn length(&self) -> (r: u32)
        ensures
            r == self.spec_length(),
    {
        match self {
            Instruction::Note { length, .. } => *length,
            Instruction::Rest { length } => *length,
        }
    }

    /// A valid event lasts at least one tick and, for a note, keeps its
    /// pitch within the supported range.
    pub open spec fn wf(self) -> bool {
        &&& 1 <= self.spec_length() <= TICK_MAX
        &&& match self {
            Instruction::Note { pitch, .. } => PITCH_MIN <= pitch <= PITCH_MAX,
            Instruction::Rest { .. } => true,
        }
    }
}

/// Total ticks taken by the first `i` instructions of a score.
pub open spec fn ticks_before(s: Seq<Instruction>, i: int) -> int
    decreases i,
{
    if i <= 0 {
        0
    } else {
        ticks_before(s, i - 1) + s[i - 1].spec_length()
    }
}

/// Cumulative tick counts are nonnegative and grow at most [`TICK_MAX`]
/// per instruction.
pub proof fn lemma_ticks_before_bounds(s: Seq<Instruction>, i: int)
    requires
        0 <= i <= s.len(),
        forall|j: int| 0 <= j < s.len() ==> s[j].wf(),
    ensures
        0 <= ticks_before(s, i) <= i * TICK_MAX,
    decreases i,
{
    if i > 0 {
        lemma_ticks_before_bounds(s, i - 1);
        assert(s[i - 1].wf());
        lemma_mul_inequality(i - 1, i, TICK_MAX as int);
    }
}

/// A later cut of the same score never has fewer cumulative ticks.
pub proof fn lemma_ticks_before_monotone(s: Seq<Instruction>, i: int, j: int)
    requires
        0 <= i <= j <= s.len(),
        forall|k: int| 0 <= k < s.len() ==> s[k].wf(),
    ensures
        ticks_before(s, i) <= ticks_before(s, j),
    decreases j - i,
{
    if i < j {
        lemma_ticks_before_monotone(s, i, j - 1);
        assert(s[j - 1].wf());
    }
}

/// An ordered sequence of instructions together with a forward-only
/// playback cursor: the index of the active instruction and the tick at
/// which it began.
pub struct Track {
    pub instructions: Vec<Instruction>,
    pub start_of_instruction: u64,
    pub current_instruction: usize,
}

impl Track {
    /// A valid track has valid instructions, a cursor no further than one
    /// past the score's end, and a start tick that is exactly the total
    /// length of the instructions already passed.
    pub open spec fn wf(self) -> bool {
        &&& self.instructions@.len() <= SCORE_MAX
        &&& forall|j: int|
            0 <= j < self.instructions@.len() ==> self.instructions@[j].wf()
        &&& self.current_instruction <= self.instructions@.len()
        &&& self.start_of_instruction == ticks_before(
            self.instructions@,
            self.current_instruction as int,
        )
    }

    /// The terminal state: every instruction's time window has elapsed.
    pub open spec fn exhausted(self) -> bool {
        self.current_instruction == self.instructions@.len()
    }

    /// The track's total duration in ticks.
    pub open spec fn total_ticks(self) -> int {
        ticks_before(self.instructions@, self.instructions@.len() as int)
    }

    /// A fresh track with the cursor at the first instruction.
    pub fn new(instructions: Vec<Instruction>) -> (t: Track)
        requires
            instructions@.len() <= SCORE_MAX,
            forall|j: int| 0 <= j < instructions@.len() ==> instructions@[j].wf(),
        ensures
            t.wf(),
            t.instructions == instructions,
            t.start_of_instruction == 0,
            t.current_instruction == 0,
    {
        Track { instructions, start_of_instruction: 0, current_instruction: 0 }
    }
}

} // verus!
