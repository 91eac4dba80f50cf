//! What a song or a chip log is turned into: notes, MIDI, Live sets, audio stems.
pub mod als;
pub mod automation;
pub mod clip;
pub mod clock;
pub mod curves;
pub mod ids;
pub mod levels;
pub mod midi;
pub mod midi_file;
pub mod notes;
pub mod pace;
pub mod pitch;
pub mod pointees;
pub mod sampler;
pub mod simulate;
pub mod tempo;
pub mod time;
pub mod unique;
pub mod vgm_als;
pub mod vgm_operator;
pub mod vgm_render;
pub mod vgm_set;
pub mod vgm_unique;
pub mod vgm_wavetable;
pub mod voices;
pub mod wav;
