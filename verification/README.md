# ablemod

Tracker modules (ProTracker `.mod`, FastTracker 2 `.xm`) and chip rips (`.vgm`, `.vgz`) as
Ableton Live sets, MIDI files and WAV files.

The library in `src/` is verified with [Verus](https://github.com/verus-lang/verus): every
function states in its contract what it returns, and the contracts are proved, but for those of
the calls that leave the library (below). It reads the formats, plays songs row by row, assigns
notes to voices, lays out automation, and assembles the documents that Live opens.

- `formats/` reads modules and chip rips, and walks a song in the order in which it is played.
- `export/time.rs`, `tempo.rs`, `simulate.rs`, `levels.rs`, `voices.rs`, `notes.rs`,
  `pitch.rs` play a song: which notes sound when, on which voice, and how their pitch, volume and
  panning move.
- `export/clock.rs`, `midi.rs`, `midi_file.rs` turn that into a Standard MIDI File.
- `export/ids.rs`, `automation.rs`, `curves.rs`, `clip.rs`, `sampler.rs`, `als.rs` turn it into a
  Live set; `unique.rs` proves that no identity is given twice in it, and `pointees.rs` that
  automation drives what is on its own track.
- `export/pace.rs`, `vgm_*.rs` do the same for chip rips: stems, wavetables, FM patches; and
  `vgm_unique.rs` for the identities of their sets.
- `xmlutil.rs`, `xml.rs`, `gzip.rs` hold documents, and read and write them.
- `chips.rs`, `preview.rs`, `cli.rs`, `gui.rs`, `report.rs`, `text.rs` hold the rest: channel
  masks, the layout of the preview, the commands, the window's state, and what is printed.

Times are exact. A moment is a row and a tick; it is rounded once, when it is written out, to
millionths of a beat or to MIDI ticks.

What is taken on trust stands beside the calls that it is about:

- `text.rs`: `String::push`, `char::is_alphanumeric` (what it says is only named:
  `alphanumeric`), `char::is_whitespace`, `String::from_utf8_lossy` (named: `lossy_text`) and
  `String::from_utf16_lossy` of the standard library.
- `export/als.rs`: `std::str::from_utf8`.
- `gzip.rs`: the decoder of `flate2` (named: `gunzipped`) and its encoder.
- `xml.rs`: the nodes of `xmltree` (what they hold is named: `nodes_of`), taken apart and put
  together, its parser (named: `parsed_xml`) and its writer.

The program in `app/` does what cannot be proved: files, sound, windows, the native player, and
the logarithms and sines behind pitches. It hands the library plain numbers. Templates for sets
and tracks are read from `templates/`, and the preview's font from `assets/`, beside the program
or in the working directory.

`tests/` runs the library on small modules, rips and templates.
