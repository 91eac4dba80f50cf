//! Tracker modules (`.mod`, `.xm`) and VGM/VGZ chip rips turned into Ableton Live sets,
//! MIDI files and WAV stems: the parsing, playback simulation and document building.
//!
//! The crate holds no floating-point arithmetic and does no I/O. Times are exact (rows and
//! ticks of a song, samples of a chip log), levels are the integers of the source formats,
//! and what is written to disk is handed back as bytes or as a document tree.
pub mod chips;
pub mod cli;
pub mod export;
pub mod formats;
pub mod gui;
pub mod gzip;
pub mod laws;
pub mod preview;
pub mod report;
pub mod text;
pub mod xml;
pub mod xmlutil;

use vstd::prelude::*;

verus! {

} // verus!
