//! Verified core of the 120Pedal MIDI tools: reading MIDI status bytes,
//! the configuration grammars of the translator, the command runner and
//! the Jack router, and the decisions each of them takes per MIDI byte.
use vstd::prelude::*;

pub mod controls;
pub mod midi;
pub mod midi_command;
pub mod midi_jack;
pub mod midi_status;
pub mod midi_translate;
pub mod pedal_state;
pub mod text;
pub mod translate;

verus! {

} // verus!
