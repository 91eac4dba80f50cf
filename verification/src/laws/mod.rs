//! What the parts of the library are for, stated on what goes in and what comes out.
pub mod clips;
pub mod curves;
pub mod effects;
pub mod fasttracker2;
pub mod files;
pub mod instruments;
pub mod midi;
pub mod notes;
pub mod operator;
pub mod parts;
pub mod paths;
pub mod placed;
pub mod playing;
pub mod protracker;
pub mod reports;
pub mod rips;
pub mod sampler;
pub mod sets;
pub mod song;
pub mod tracks;
pub mod values;
pub mod vgm;
pub mod wavetable;
