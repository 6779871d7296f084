//! A real-time musical sequencer and signal generator.
//!
//! A score is a set of tracks, each an ordered list of note and rest
//! instructions measured in ticks of a musical measure. The sequencer
//! advances each track in wall-clock time, renders the active note through
//! a waveform generator and a trapezoidal amplitude envelope, mixes the
//! tracks, and quantizes the mixed signal into the output device's sample
//! representation, raising a sticky termination flag once every track is
//! exhausted.
//!
//! All signal amplitudes, envelope values and phases are exact fixed-point
//! integers scaled by [`math::ONE`]; wall-clock time is an exact rational
//! number of seconds. This keeps every boundary decision (note changes,
//! exhaustion, quantization) exactly reproducible at any sample rate.

pub mod math;
pub mod melody;
pub mod render;
pub mod score;
pub mod sequencer;
