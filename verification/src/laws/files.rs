//! What files are called and taken for, and what is offered to be done with them.
use crate::cli::{is_vgm, refusal, Command};
use crate::export::pitch::{bend_at, linear_period};
use crate::export::simulate::BendStep;
use crate::export::clock::{law_nearest_is_near, nearest};
use crate::export::vgm_als::stem_files;
use crate::export::wav::{frames_of, safe_char, safe_name, safe_or, wav_filename};
use crate::formats::base::SampleView;
use crate::formats::detect::{detected, loaded};
use crate::formats::effects::{simulates, simulates_subcommand};
use crate::formats::{fasttracker2, protracker};
use crate::gui::Task;
use crate::laws::fasttracker2::word;
use crate::preview::{cells_of, center_of, column_of, pictures};
use crate::text::{alphanumeric, ascii_lower, decimal, lemma_digits_len, trimmed};
use vstd::prelude::*;

verus! {

/// The frames of a sample are its bytes in pairs, the low one first, as signed numbers.
pub proof fn law_frames_are_pairs_of_bytes(pcm: Seq<u8>, i: int)
    requires
        0 <= i < pcm.len() / 2,
    ensures
        frames_of(pcm).len() == pcm.len() / 2,
        word(pcm, 2 * i) < 0x8000 ==> frames_of(pcm)[i] == word(pcm, 2 * i),
        word(pcm, 2 * i) >= 0x8000 ==> frames_of(pcm)[i] == word(pcm, 2 * i) - 0x1_0000,
{
}

/// A file's name has nothing but letters, digits, blanks, hyphens and underscores; what was one
/// of these is kept.
pub proof fn law_names_are_safe(c: char)
    ensures
        ({
            let d = safe_char(c);
            &&& alphanumeric(d) || d == '-' || d == '_' || d == ' '
            &&& alphanumeric(c) || c == '-' || c == '_' || c == ' ' ==> d == c
        }),
{
}

/// The file of a sample is called by its number, in two digits at least, and its name.
pub proof fn law_sample_files_are_named(s: SampleView)
    ensures
        ({
            let number = if s.index < 10 {
                seq!['0'] + decimal(s.index as int)
            } else {
                decimal(s.index as int)
            };
            wav_filename(s) == number + seq!['_'] + safe_name(s.name) + seq!['.', 'w', 'a', 'v']
        }),
        safe_name(s.name) == {
            let t = trimmed(s.name.map_values(|c: char| safe_char(c)));
            if t.len() > 0 {
                t
            } else {
                "sample"@
            }
        },
{
    reveal_strlit("_");
    reveal_strlit(".wav");
    let n = s.index as int;
    lemma_digits_len(n, 10, false);
    assert("_"@ =~= seq!['_']);
    assert(".wav"@ =~= seq!['.', 'w', 'a', 'v']);
    if n < 10 {
        assert(decimal(n).len() == 1);
        assert(Seq::new(1, |i: int| '0') =~= seq!['0']);
    } else {
        lemma_digits_len(n / 10, 10, false);
        assert(decimal(n).len() >= 2);
    }
}

/// The files of a stem are called by its number and its name, and by which part of it they are.
pub proof fn law_stem_files_are_named(index: int, name: Seq<char>)
    requires
        9 <= index,
    ensures
        ({
            let start = decimal(index + 1) + seq!['_'] + safe_or(name, "track"@);
            &&& stem_files(index, name, false) == seq![start + ".wav"@]
            &&& stem_files(index, name, true) == seq![start + "_intro.wav"@, start + "_loop.wav"@]
        }),
{
    reveal_strlit("_");
    assert("_"@ =~= seq!['_']);
    let n = index + 1;
    lemma_digits_len(n, 10, false);
    lemma_digits_len(n / 10, 10, false);
    assert(decimal(n).len() >= 2);
}

/// A letter is taken for its small form, whatever else a character is.
pub proof fn law_letters_are_taken_small(c: char)
    ensures
        'A' <= c && c <= 'Z' ==> ascii_lower(c) as int == c as int + 32,
        !('A' <= c && c <= 'Z') ==> ascii_lower(c) == c,
{
}

/// A module is taken for what its extension says, whatever its case: a ProTracker's for .mod, a
/// FastTracker's for .xm, and nothing else is read.
pub proof fn law_modules_are_taken_by_extension(e: Seq<char>)
    ensures
        ({
            let small = e.map_values(|c: char| ascii_lower(c));
            &&& small == "mod"@ ==> detected(Some(e)) == Ok::<Seq<char>, Seq<char>>("protracker"@)
            &&& small == "xm"@ ==> detected(Some(e)) == Ok::<Seq<char>, Seq<char>>(
                "fasttracker2"@,
            )
            &&& small != "mod"@ && small != "xm"@ ==> detected(Some(e)) is Err
            &&& is_vgm(Some(e)) <==> small == "vgm"@ || small == "vgz"@
        }),
        detected(None) is Err,
        !is_vgm(None),
{
    reveal_strlit("mod");
    reveal_strlit("xm");
    reveal_strlit("s3m");
    reveal_strlit("protracker");
    reveal_strlit("fasttracker2");
    reveal_strlit("screamtracker3");
    assert("mod"@.len() == 3 && "xm"@.len() == 2);
    assert("mod"@[0] == 'm' && "s3m"@[0] == 's');
    assert("screamtracker3"@.len() == 14 && "protracker"@.len() == 10 && "fasttracker2"@.len()
        == 12);
    let none = Seq::<char>::empty();
    assert(none.len() == 0);
}

/// A module is read by the reader of its format.
pub proof fn law_modules_are_read_by_format(data: Seq<u8>, rates: Seq<u32>)
    ensures
        loaded("protracker"@, data, rates) == protracker::module_of(data),
        loaded("fasttracker2"@, data, rates) == fasttracker2::module_of(data, rates),
{
    reveal_strlit("protracker");
    reveal_strlit("fasttracker2");
    assert("protracker"@.len() == 10 && "fasttracker2"@.len() == 12);
}

/// Samples and MIDI are extracted from modules only, and sound is rendered of rips only; both are
/// listed and converted.
pub proof fn law_commands_are_refused(command: Command, vgm: bool, preview_built: bool)
    ensures
        refusal(command, vgm, preview_built) is Some <==> match command {
            Command::List { .. } | Command::ConvertAls { .. } => false,
            Command::ExtractSamples { .. } | Command::ExtractMidi { .. } => vgm,
            Command::ExtractMixedTracks { .. } | Command::ExtractSeparatedTracksWav { .. } => !vgm,
            Command::Preview { .. } => !vgm || !preview_built,
        },
{
}

/// A task is run on the file, by the command of its own, and into the output where it has one.
pub proof fn law_tasks_run_on_their_file(task: Task, file: Seq<char>, output: Seq<char>)
    ensures
        ({
            let a = task.arguments(file, output);
            &&& a[1] == file
            &&& a[0] == match task {
                Task::ConvertAls => "convert-als"@,
                Task::ExtractMixedTrack => "extract-mixed-tracks"@,
                Task::ExtractSeparatedTracks => "extract-separated-tracks-wav"@,
                Task::ExtractSamples => "extract-samples"@,
                Task::ExtractMidi => "extract-midi"@,
                Task::Preview | Task::ExportVideo => "preview"@,
            }
            &&& task == Task::Preview ==> a.len() == 2
            &&& task != Task::Preview ==> a.len() == 4 && a[3] == output
            &&& task == Task::ExportVideo ==> a[2] == "--record"@
            &&& task != Task::Preview && task != Task::ExportVideo ==> a[2] == "-o"@
        }),
{
}

/// The effects that are played: all of the sixteen plain ones, and of the extended ones the fine
/// slides, retriggers, cuts and delays.
pub proof fn law_played_effects(code: u32, extra: Option<u32>)
    ensures
        code < 16 && code != 14 ==> simulates(code, extra),
        code == 14 || code >= 16 ==> (simulates(code, extra) <==> extra == Some(code)),
        0xE0 <= code <= 0xEF ==> (simulates_subcommand(code) <==> code == 0xE1 || code == 0xE2
            || code == 0xE9 || code == 0xEA || code == 0xEB || code == 0xEC || code == 0xED),
{
}

/// By the linear table a note is sixteen periods below the next, and a period is a sixteenth of a
/// semitone wherever the note is.
pub proof fn law_linear_periods_are_even(note: int)
    ensures
        linear_period(60) == 1152,
        linear_period(note) - linear_period(note + 1) == 16,
{
}

/// An arpeggio is its semitones above the note, and a vibrato swings by up to 255 128ths of its
/// depth of a period to either side, a longer period being lower.
pub proof fn law_bends_are_heard(pitch: int, semitones: u32, pos: u32, depth: u32, sines: Seq<i64>)
    requires
        pos < 256,
        depth < 16,
        sines.len() == 256,
        -1_000_000_000_000 <= sines[pos as int] <= 1_000_000_000_000,
    ensures
        ({
            let p = linear_period(pitch);
            let a = bend_at(pitch, p, BendStep::Arpeggio { semitones }, sines);
            let v = bend_at(pitch, p, BendStep::Vibrato { pos, depth }, sines);
            &&& a == 1_000_000 * semitones
            &&& -2_048_000 <= 2 * (2_048_000 * v + 255 * (depth * sines[pos as int])) <= 2_048_000
        }),
{
    let x = depth * sines[pos as int];
    assert(-15_000_000_000_000 <= x <= 15_000_000_000_000) by (nonlinear_arith)
        requires
            x == depth * sines[pos as int],
            depth < 16,
            -1_000_000_000_000 <= sines[pos as int] <= 1_000_000_000_000,
    ;
    let num = -(255 * x);
    law_nearest_is_near(num, 2_048_000);
    let n = nearest(num, 2_048_000);
    assert(pos as int % 256 == pos);
}

/// A preview shows up to fifteen channels, and thirty pictures to the second; what is heard first
/// is drawn on the left.
pub proof fn law_previews_show_their_channels(tracks: int, frames: int, rate: int)
    requires
        0 <= tracks,
        0 <= frames,
        0 < rate,
    ensures
        tracks <= 15 ==> cells_of(tracks) == tracks,
        tracks > 15 ==> cells_of(tracks) == 15,
        frames > 0 ==> rate * (pictures(frames, rate) - 1) < 30 * frames <= rate * pictures(
            frames,
            rate,
        ),
        frames == 0 ==> pictures(frames, rate) == 1,
{
    let n = (30 * frames + rate - 1) / rate;
    assert(rate * n <= 30 * frames + rate - 1 && 30 * frames + rate - 1 < rate * n + rate)
        by (nonlinear_arith)
        requires
            n == (30 * frames + rate - 1) / rate,
            rate > 0,
    ;
    assert(rate * (n - 1) == rate * n - rate) by (nonlinear_arith);
    if frames > 0 {
        assert(n >= 1) by (nonlinear_arith)
            requires
                30 * frames + rate - 1 < rate * n + rate,
                frames > 0,
                rate > 0,
        ;
    } else {
        assert(n == 0) by (nonlinear_arith)
            requires
                n == (30 * frames + rate - 1) / rate,
                frames == 0,
                rate > 0,
        ;
    }
}

/// A picture of a sound goes from left to right: each column holds the frames of its share of the
/// width, the first frame the first column and the last one the last.
pub proof fn law_pictures_go_from_left_to_right(offset: int, width: int, frames: int)
    requires
        0 <= offset < frames,
        0 < width,
    ensures
        ({
            let c = column_of(offset, width, frames);
            &&& 0 <= c < width
            &&& c * frames <= offset * width < (c + 1) * frames
        }),
{
    let c = offset * width / frames;
    vstd::arithmetic::div_mod::lemma_fundamental_div_mod(offset * width, frames);
    vstd::arithmetic::div_mod::lemma_mod_bound(offset * width, frames);
    assert(c * frames <= offset * width < (c + 1) * frames) by (nonlinear_arith)
        requires
            offset * width == frames * c + (offset * width) % frames,
            0 <= (offset * width) % frames < frames,
    ;
    assert(0 <= c < width) by (nonlinear_arith)
        requires
            c * frames <= offset * width < (c + 1) * frames,
            0 <= offset < frames,
            0 < width,
    ;
}

/// The panel in the center stands in the middle row and the middle column of the grid.
pub proof fn law_the_center_is_in_the_middle(columns: u32, rows: u32)
    requires
        0 < columns,
    ensures
        center_of(columns, rows) / columns as int == rows as int / 2,
        center_of(columns, rows) % columns as int == columns as int / 2,
{
    let (c, r) = (columns as int, rows as int);
    let x = center_of(columns, rows);
    assert(x == (r / 2) * c + c / 2);
    vstd::arithmetic::div_mod::lemma_fundamental_div_mod_converse(x, c, r / 2, c / 2);
}

} // verus!
