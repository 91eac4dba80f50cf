//! The source formats: tracker modules and chip register logs.
pub mod base;
pub mod bytes;
pub mod counts;
pub mod detect;
pub mod effects;
pub mod fasttracker2;
pub mod playback;
pub mod protracker;
pub mod vgm;
