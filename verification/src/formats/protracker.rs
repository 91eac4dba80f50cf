//! Parser for ProTracker/NoiseTracker/SoundTracker .mod files.
//!
//! Both the 31-sample layout (identified by a 4-byte tag at offset 1080, e.g. "M.K.", "6CHN",
//! "8CHN") and the legacy 15-sample Ultimate SoundTracker layout (no tag, always 4 channels,
//! header ends at offset 600) are read.
use crate::formats::base::{
    patterns_view, rows_view, sample_views, Cell, Module, ModuleView, Pattern, Sample, SampleView,
};
use crate::formats::bytes::{be16, before_zero, read_be16, until_zero};
use crate::formats::effects::{effect_report, is_report};
use crate::text::{lossy_text, utf8_lossy};
use std::collections::BTreeMap;
use vstd::prelude::*;

verus! {

pub const TITLE_LEN: usize = 20;

pub const SAMPLE_HEADER_LEN: usize = 30;

pub const ROWS_PER_PATTERN: usize = 64;

/// MIDI note assigned to period 428 ("C-2").
pub const BASE_MIDI_NOTE: i32 = 60;

/// The name of an effect. Exx sub-commands have codes of their own: 0xE0 and the sub-command.
pub open spec fn name_of_effect(code: u32) -> &'static str {
    match code {
        0x0 => "Arpeggio",
        0x1 => "Portamento Up",
        0x2 => "Portamento Down",
        0x3 => "Tone Portamento",
        0x4 => "Vibrato",
        0x5 => "Tone Portamento + Volume Slide",
        0x6 => "Vibrato + Volume Slide",
        0x7 => "Tremolo",
        0x8 => "Set Panning",
        0x9 => "Sample Offset",
        0xA => "Volume Slide",
        0xB => "Position Jump",
        0xC => "Set Volume",
        0xD => "Pattern Break",
        0xE => "Extended Effects (Exx)",
        0xF => "Speed/Tempo",
        0xE0 => "Set Filter (Exx, unused on Amiga)",
        0xE1 => "Fine Portamento Up (Exx)",
        0xE2 => "Fine Portamento Down (Exx)",
        0xE3 => "Glissando Control (Exx)",
        0xE4 => "Set Vibrato Waveform (Exx)",
        0xE5 => "Set Finetune (Exx)",
        0xE6 => "Pattern Loop (Exx)",
        0xE7 => "Set Tremolo Waveform (Exx)",
        0xE8 => "unused (Exx)",
        0xE9 => "Retrigger Note (Exx)",
        0xEA => "Fine Volume Slide Up (Exx)",
        0xEB => "Fine Volume Slide Down (Exx)",
        0xEC => "Note Cut (Exx)",
        0xED => "Note Delay (Exx)",
        0xEE => "Pattern Delay (Exx)",
        0xEF => "unused (Exx)",
        _ => "?",
    }
}

/// Human-readable name of an effect code, 0xE0-0xEF standing for the Exx sub-commands.
pub fn effect_name(code: u32) -> (r: &'static str)
    ensures
        r == name_of_effect(code),
{
    match code {
        0x0 => "Arpeggio",
        0x1 => "Portamento Up",
        0x2 => "Portamento Down",
        0x3 => "Tone Portamento",
        0x4 => "Vibrato",
        0x5 => "Tone Portamento + Volume Slide",
        0x6 => "Vibrato + Volume Slide",
        0x7 => "Tremolo",
        0x8 => "Set Panning",
        0x9 => "Sample Offset",
        0xA => "Volume Slide",
        0xB => "Position Jump",
        0xC => "Set Volume",
        0xD => "Pattern Break",
        0xE => "Extended Effects (Exx)",
        0xF => "Speed/Tempo",
        0xE0 => "Set Filter (Exx, unused on Amiga)",
        0xE1 => "Fine Portamento Up (Exx)",
        0xE2 => "Fine Portamento Down (Exx)",
        0xE3 => "Glissando Control (Exx)",
        0xE4 => "Set Vibrato Waveform (Exx)",
        0xE5 => "Set Finetune (Exx)",
        0xE6 => "Pattern Loop (Exx)",
        0xE7 => "Set Tremolo Waveform (Exx)",
        0xE8 => "unused (Exx)",
        0xE9 => "Retrigger Note (Exx)",
        0xEA => "Fine Volume Slide Up (Exx)",
        0xEB => "Fine Volume Slide Down (Exx)",
        0xEC => "Note Cut (Exx)",
        0xED => "Note Delay (Exx)",
        0xEE => "Pattern Delay (Exx)",
        0xEF => "unused (Exx)",
        _ => "?",
    }
}

/// Effect codes present in the module that are parsed but not simulated, each counted.
pub fn unimplemented_effect_counts(module: &Module) -> (r: BTreeMap<u32, u32>)
    requires
        module@.cells().len() <= u32::MAX,
    ensures
        is_report(r@, module@, None, false),
{
    effect_report(module, None, false)
}

/// Effect codes present in the module that are simulated, each counted.
pub fn implemented_effect_counts(module: &Module) -> (r: BTreeMap<u32, u32>)
    requires
        module@.cells().len() <= u32::MAX,
    ensures
        is_report(r@, module@, None, true),
{
    effect_report(module, None, true)
}

/// Whether a byte is an ASCII digit.
pub open spec fn is_digit(b: u8) -> bool {
    0x30 <= b <= 0x39
}

/// The channels that a four-byte tag stands for, if it is one of the known ones: "M.K.", "M!K!",
/// "M&K!", "N.T.", "FLT4"; "FLT8", "CD81", "OKTA", "OCTA"; "16CN", "32CN"; two digits and "CH",
/// or a digit and "CHN".
pub open spec fn tag_channels(t: Seq<u8>) -> Option<int> {
    if t == seq![0x4Du8, 0x2E, 0x4B, 0x2E] || t == seq![0x4Du8, 0x21, 0x4B, 0x21] || t
        == seq![0x4Du8, 0x26, 0x4B, 0x21] || t == seq![0x4Eu8, 0x2E, 0x54, 0x2E] || t
        == seq![0x46u8, 0x4C, 0x54, 0x34] {
        Some(4)
    } else if t == seq![0x46u8, 0x4C, 0x54, 0x38] || t == seq![0x43u8, 0x44, 0x38, 0x31] || t
        == seq![0x4Fu8, 0x4B, 0x54, 0x41] || t == seq![0x4Fu8, 0x43, 0x54, 0x41] {
        Some(8)
    } else if t == seq![0x31u8, 0x36, 0x43, 0x4E] {
        Some(16)
    } else if t == seq![0x33u8, 0x32, 0x43, 0x4E] {
        Some(32)
    } else if t.len() == 4 && t[2] == 0x43 && t[3] == 0x48 && is_digit(t[0]) && is_digit(t[1]) {
        Some(10 * (t[0] - 0x30) + (t[1] - 0x30))
    } else if t.len() == 4 && t[1] == 0x43 && t[2] == 0x48 && t[3] == 0x4E && is_digit(t[0]) {
        Some(t[0] - 0x30)
    } else {
        None
    }
}

fn is_tag(t: &[u8], a: u8, b: u8, c: u8, d: u8) -> (r: bool)
    requires
        t@.len() == 4,
    ensures
        r == (t@ == seq![a, b, c, d]),
{
    let r: bool = t[0] == a && t[1] == b && t[2] == c && t[3] == d;
    assert(r ==> t@ =~= seq![a, b, c, d]);
    r
}

fn detect_channels(t: &[u8]) -> (r: Option<usize>)
    requires
        t@.len() == 4,
    ensures
        match r {
            Some(n) => tag_channels(t@) == Some(n as int) && n <= 99,
            None => tag_channels(t@) is None,
        },
{
    if is_tag(t, 0x4D, 0x2E, 0x4B, 0x2E) || is_tag(t, 0x4D, 0x21, 0x4B, 0x21) || is_tag(
        t,
        0x4D,
        0x26,
        0x4B,
        0x21,
    ) || is_tag(t, 0x4E, 0x2E, 0x54, 0x2E) || is_tag(t, 0x46, 0x4C, 0x54, 0x34) {
        return Some(4);
    }
    if is_tag(t, 0x46, 0x4C, 0x54, 0x38) || is_tag(t, 0x43, 0x44, 0x38, 0x31) || is_tag(
        t,
        0x4F,
        0x4B,
        0x54,
        0x41,
    ) || is_tag(t, 0x4F, 0x43, 0x54, 0x41) {
        return Some(8);
    }
    if is_tag(t, 0x31, 0x36, 0x43, 0x4E) {
        return Some(16);
    }
    if is_tag(t, 0x33, 0x32, 0x43, 0x4E) {
        return Some(32);
    }
    let first: bool = 0x30 <= t[0] && t[0] <= 0x39;
    let second: bool = 0x30 <= t[1] && t[1] <= 0x39;
    if t[2] == 0x43 && t[3] == 0x48 && first && second {
        Some(10 * (t[0] - 0x30) as usize + (t[1] - 0x30) as usize)
    } else if t[1] == 0x43 && t[2] == 0x48 && t[3] == 0x4E && first {
        Some((t[0] - 0x30) as usize)
    } else {
        None
    }
}

/// The periods of the first octave, from C-1 up.
pub open spec fn first_octave() -> Seq<i32> {
    seq![856i32, 808, 762, 720, 678, 640, 604, 570, 538, 508, 480, 453]
}

/// The period table: three octaves, each period half that of the octave below, rounded down.
pub open spec fn period(i: int) -> int {
    let p = first_octave()[i % 12] as int;
    if i < 12 {
        p
    } else if i < 24 {
        p / 2
    } else {
        p / 4
    }
}

/// The table of periods and the MIDI notes that they stand for.
pub open spec fn period_table() -> Seq<(i32, i32)> {
    Seq::new(36, |i: int| (period(i) as i32, (BASE_MIDI_NOTE - 12 + i) as i32))
}

pub fn build_period_table() -> (r: Vec<(i32, i32)>)
    ensures
        r@ == period_table(),
{
    let mut octave: Vec<i32> = Vec::new();
    octave.push(856);
    octave.push(808);
    octave.push(762);
    octave.push(720);
    octave.push(678);
    octave.push(640);
    octave.push(604);
    octave.push(570);
    octave.push(538);
    octave.push(508);
    octave.push(480);
    octave.push(453);
    assert(octave@ =~= first_octave());
    let mut out: Vec<(i32, i32)> = Vec::new();
    let mut i: usize = 0;
    while i < 36
        invariant
            i <= 36,
            octave@ == first_octave(),
            out@ == period_table().take(i as int),
        decreases 36 - i,
    {
        let p: i32 = octave[i % 12];
        assert(first_octave()[i as int % 12] >= 0) by {
            assert(i % 12 == 0 || i % 12 == 1 || i % 12 == 2 || i % 12 == 3 || i % 12 == 4 || i % 12
                == 5 || i % 12 == 6 || i % 12 == 7 || i % 12 == 8 || i % 12 == 9 || i % 12 == 10
                || i % 12 == 11);
        }
        let halved: i32 = if i < 12 {
            p
        } else if i < 24 {
            p / 2
        } else {
            p / 4
        };
        out.push((halved, 48 + i as i32));
        assert(out@ =~= period_table().take(i + 1));
        i += 1;
    }
    assert(period_table().take(36) =~= period_table());
    out
}

pub open spec fn distance(a: int, b: int) -> int {
    if a < b {
        b - a
    } else {
        a - b
    }
}

/// The first of the first `n` table entries whose period is nearest.
pub open spec fn nearest(table: Seq<(i32, i32)>, p: int, n: int) -> int
    decreases n,
{
    if n <= 1 {
        0
    } else {
        let before = nearest(table, p, n - 1);
        if distance(table[n - 1].0 as int, p) < distance(table[before].0 as int, p) {
            n - 1
        } else {
            before
        }
    }
}

/// The note of the table entry whose period is nearest; the first one of several.
pub open spec fn note_in(table: Seq<(i32, i32)>, p: int) -> i32 {
    table[nearest(table, p, table.len() as int)].1
}

/// The MIDI note whose period is nearest; the lower one of two.
pub open spec fn note_of_period(p: int) -> i32 {
    note_in(period_table(), p)
}

proof fn lemma_nearest(table: Seq<(i32, i32)>, p: int, n: int)
    requires
        1 <= n <= table.len(),
    ensures
        0 <= nearest(table, p, n) < n,
        forall|i: int|
            0 <= i < n ==> distance(table[nearest(table, p, n)].0 as int, p) <= distance(
                (#[trigger] table[i]).0 as int,
                p,
            ),
        forall|i: int|
            0 <= i < nearest(table, p, n) ==> distance(table[nearest(table, p, n)].0 as int, p)
                < distance((#[trigger] table[i]).0 as int, p),
    decreases n,
{
    if n > 1 {
        lemma_nearest(table, p, n - 1);
    }
}

proof fn lemma_periods_fall(i: int, j: int)
    requires
        0 <= i < j < 36,
    ensures
        period(i) > period(j),
    decreases j - i,
{
    if j == i + 1 {
        let k = i % 12;
        assert(k == 0 || k == 1 || k == 2 || k == 3 || k == 4 || k == 5 || k == 6 || k == 7 || k
            == 8 || k == 9 || k == 10 || k == 11);
        assert(j % 12 == if k == 11 {
            0
        } else {
            k + 1
        });
        assert(i == 11 || i == 23 || k < 11);
    } else {
        lemma_periods_fall(i, j - 1);
        lemma_periods_fall(j - 1, j);
    }
}

proof fn lemma_table(i: int)
    requires
        0 <= i < 36,
    ensures
        period_table()[i].0 == period(i),
        period_table()[i].1 == 48 + i,
{
    lemma_periods(i);
}

/// Every period of the table stands for its own note; period 428 is note 60.
pub proof fn law_table_periods_keep_their_note(i: int)
    requires
        0 <= i < 36,
    ensures
        note_of_period(period(i)) == BASE_MIDI_NOTE - 12 + i,
        period(12) == 428,
        note_of_period(428) == 60,
{
    let t = period_table();
    assert forall|k: int| 0 <= k < 36 implies note_of_period(#[trigger] period(k)) == 48 + k by {
        lemma_nearest(t, period(k), 36);
        let r = nearest(t, period(k), 36);
        lemma_table(k);
        lemma_table(r);
        assert(distance(t[k].0 as int, period(k)) == 0);
        if r < k {
            lemma_periods_fall(r, k);
        } else if k < r {
            lemma_periods_fall(k, r);
        }
    }
    assert(period(12) == 428);
    assert(note_of_period(period(i)) == 48 + i);
    assert(note_of_period(period(12)) == 60);
}

/// A smaller period never stands for a lower note, and all notes are of the three octaves.
pub proof fn law_smaller_periods_are_no_lower(p: int, q: int)
    requires
        p <= q,
    ensures
        note_of_period(p) >= note_of_period(q),
        48 <= note_of_period(p) <= 83,
{
    let t = period_table();
    lemma_nearest(t, p, 36);
    lemma_nearest(t, q, 36);
    let a = nearest(t, p, 36);
    let b = nearest(t, q, 36);
    lemma_table(a);
    lemma_table(b);
    if a < b {
        lemma_periods_fall(a, b);
        assert(distance(t[a].0 as int, p) <= distance(t[b].0 as int, p));
        assert(distance(t[b].0 as int, q) < distance(t[a].0 as int, q));
    }
}

/// The note of a period is in the table, and no period of the table is nearer.
pub proof fn law_note_is_nearest(p: int)
    ensures
        exists|i: int|
            0 <= i < 36 && note_of_period(p) == BASE_MIDI_NOTE - 12 + i && forall|j: int|
                0 <= j < 36 ==> distance(#[trigger] period(i), p) <= distance(
                    #[trigger] period(j),
                    p,
                ),
{
    let t = period_table();
    lemma_nearest(t, p, 36);
    let i = nearest(t, p, 36);
    assert forall|j: int| 0 <= j < 36 implies #[trigger] period(j) == t[j].0 by {
        assert(0 <= j % 12 < 12);
        assert(j % 12 == 0 || j % 12 == 1 || j % 12 == 2 || j % 12 == 3 || j % 12 == 4 || j % 12
            == 5 || j % 12 == 6 || j % 12 == 7 || j % 12 == 8 || j % 12 == 9 || j % 12 == 10 || j
            % 12 == 11);
    }
    assert(period(i) == t[i].0);
}

/// The note whose period is nearest.
pub fn period_to_note(p: i32, table: &Vec<(i32, i32)>) -> (r: i32)
    requires
        table.len() > 0,
    ensures
        r == note_in(table@, p as int),
{
    let mut best: usize = 0;
    let mut i: usize = 1;
    while i < table.len()
        invariant
            1 <= i <= table.len(),
            best < i,
            best == nearest(table@, p as int, i as int),
        decreases table.len() - i,
    {
        if apart(table[i].0, p) < apart(table[best].0, p) {
            best = i;
        }
        i += 1;
    }
    table[best].1
}

fn apart(a: i32, b: i32) -> (r: i64)
    ensures
        r == distance(a as int, b as int),
{
    if a < b {
        b as i64 - a as i64
    } else {
        a as i64 - b as i64
    }
}

proof fn lemma_periods(i: int)
    requires
        0 <= i < 36,
    ensures
        0 <= period_table()[i].0 <= 856,
{
    assert(i % 12 == 0 || i % 12 == 1 || i % 12 == 2 || i % 12 == 3 || i % 12 == 4 || i % 12 == 5
        || i % 12 == 6 || i % 12 == 7 || i % 12 == 8 || i % 12 == 9 || i % 12 == 10 || i % 12
        == 11);
}

/// The rate of a sample in Hz: 8363 raised by an eighth of a semitone for each step of
/// finetune, i.e. `8363 * 2^(finetune / 96)`, rounded to the nearest integer.
pub open spec fn finetuned_rate(finetune: int) -> u32 {
    seq![
        7894u32,
        7951,
        8008,
        8066,
        8125,
        8184,
        8243,
        8303,
        8363,
        8424,
        8485,
        8546,
        8608,
        8670,
        8733,
        8797,
    ][finetune + 8]
}

fn rate_of_finetune(finetune: i32) -> (r: u32)
    requires
        -8 <= finetune <= 7,
    ensures
        r == finetuned_rate(finetune as int),
{
    match finetune {
        -8 => 7894,
        -7 => 7951,
        -6 => 8008,
        -5 => 8066,
        -4 => 8125,
        -3 => 8184,
        -2 => 8243,
        -1 => 8303,
        0 => 8363,
        1 => 8424,
        2 => 8485,
        3 => 8546,
        4 => 8608,
        5 => 8670,
        6 => 8733,
        _ => 8797,
    }
}

/// Where the header of sample `i` stands.
pub open spec fn header_at(i: int) -> int {
    TITLE_LEN + SAMPLE_HEADER_LEN * i
}

/// The length of sample `i`, in bytes.
pub open spec fn sample_length(data: Seq<u8>, i: int) -> int {
    2 * be16(data, header_at(i) + 22)
}

/// The finetune of sample `i`: four bits, signed.
pub open spec fn sample_finetune(data: Seq<u8>, i: int) -> int {
    let f = data[header_at(i) + 24] % 16;
    if f >= 8 {
        f - 16
    } else {
        f as int
    }
}

/// The samples of the layout: 31 where the tag is known, else 15.
pub open spec fn num_samples(data: Seq<u8>) -> int {
    if tag_channels(data.subrange(1080, 1084)) is Some {
        31
    } else {
        15
    }
}

/// The channels of the file: what the tag says, else 4.
pub open spec fn num_channels(data: Seq<u8>) -> int {
    match tag_channels(data.subrange(1080, 1084)) {
        Some(n) => n,
        None => 4,
    }
}

/// Where the song length stands, behind the sample headers.
pub open spec fn song_at(data: Seq<u8>) -> int {
    header_at(num_samples(data))
}

/// The 128 bytes of the order table.
pub open spec fn order_table(data: Seq<u8>) -> Seq<u8> {
    data.subrange(song_at(data) + 2, song_at(data) + 130)
}

/// The largest byte.
pub open spec fn largest(s: Seq<u8>) -> u8
    decreases s.len(),
{
    if s.len() == 0 {
        0
    } else if s.last() > largest(s.drop_last()) {
        s.last()
    } else {
        largest(s.drop_last())
    }
}

/// The patterns of the file: up to the largest number in the order table, played or not.
pub open spec fn num_patterns(data: Seq<u8>) -> int {
    largest(order_table(data)) + 1
}

/// Where the patterns start.
pub open spec fn patterns_at(data: Seq<u8>) -> int {
    if num_samples(data) == 31 {
        1084
    } else {
        song_at(data) + 130
    }
}

/// The bytes of one row.
pub open spec fn row_size(data: Seq<u8>) -> int {
    4 * num_channels(data)
}

/// Where the sound of sample `i` starts.
pub open spec fn sound_at(data: Seq<u8>, i: int) -> int
    decreases i,
{
    if i <= 0 {
        patterns_at(data) + num_patterns(data) * (ROWS_PER_PATTERN * row_size(data))
    } else {
        sound_at(data, i - 1) + sample_length(data, i - 1)
    }
}

/// The file is complete: it holds the headers, all patterns and all samples, and the song is
/// no longer than its order table.
pub open spec fn complete(data: Seq<u8>) -> bool {
    &&& data.len() >= 1084
    &&& data[song_at(data)] <= 128
    &&& sound_at(data, num_samples(data)) <= data.len()
}

/// The cell that four bytes stand for.
pub open spec fn cell_of(b0: u8, b1: u8, b2: u8, b3: u8) -> Cell {
    let number = b0 / 16 * 16 + b2 / 16;
    let p = b0 % 16 * 256 + b1;
    let effect = b2 % 16;
    let has_effect = effect != 0 || b3 != 0;
    Cell {
        sample_index: if number != 0 {
            Some(number as u32)
        } else {
            None
        },
        midi_note: if p > 0 {
            Some(note_of_period(p as int))
        } else {
            None
        },
        volume: if effect == 0xC {
            Some(if b3 > 64 {
                64
            } else {
                b3 as u32
            })
        } else {
            None
        },
        effect: if has_effect {
            Some(effect as u32)
        } else {
            None
        },
        effect_param: if has_effect {
            Some(b3 as u32)
        } else {
            None
        },
        note_off: false,
    }
}

/// A cell sets a volume exactly where its effect does, and never one beyond 64.
pub proof fn law_volumes_are_tracker_volumes(b0: u8, b1: u8, b2: u8, b3: u8)
    ensures
        cell_of(b0, b1, b2, b3).volume is Some <==> b2 % 16 == 0xC,
        cell_of(b0, b1, b2, b3).volume matches Some(v) ==> v <= 64,
{
}

/// The row of `channels` cells at `at`.
pub open spec fn row_at(data: Seq<u8>, at: int, channels: int) -> Seq<Cell> {
    Seq::new(
        channels as nat,
        |c: int|
            cell_of(data[at + 4 * c], data[at + 4 * c + 1], data[at + 4 * c + 2], data[at + 4 * c
                + 3]),
    )
}

/// The pattern at `at`.
pub open spec fn pattern_at(data: Seq<u8>, at: int, channels: int) -> Seq<Seq<Cell>> {
    Seq::new(ROWS_PER_PATTERN as nat, |r: int| row_at(data, at + r * (4 * channels), channels))
}

/// 8-bit samples made 16-bit: the byte becomes the high byte.
pub open spec fn widened(raw: Seq<u8>) -> Seq<u8> {
    Seq::new(
        2 * raw.len(),
        |i: int|
            if i % 2 == 0 {
                0u8
            } else {
                raw[i / 2]
            },
    )
}

/// Sample `i` of the file. A loop of one word or less is no loop.
pub open spec fn sample_of(data: Seq<u8>, i: int) -> SampleView {
    let h = header_at(i);
    let loop_length = 2 * be16(data, h + 28);
    SampleView {
        index: (i + 1) as u32,
        name: lossy_text(until_zero(data.subrange(h, h + 22))),
        pcm16: widened(
            data.subrange(sound_at(data, i), sound_at(data, i) + sample_length(data, i)),
        ),
        sample_rate_hz: finetuned_rate(sample_finetune(data, i)),
        loop_start: (2 * be16(data, h + 26)) as u32,
        loop_length: if loop_length > 2 {
            loop_length as u32
        } else {
            0
        },
        volume: if data[h + 25] > 64 {
            64
        } else {
            data[h + 25] as u32
        },
        finetune: sample_finetune(data, i) as i32,
        base_note: BASE_MIDI_NOTE,
        pan: 0,
        volume_envelope: None,
        panning_envelope: None,
        fadeout: 0,
    }
}

/// The title, or a stand-in where there is none.
pub open spec fn title_or_default(title: Seq<char>) -> Seq<char> {
    if title.len() == 0 {
        "(untitled)"@
    } else {
        title
    }
}

/// The module that the file holds.
pub open spec fn module_of(data: Seq<u8>) -> ModuleView {
    ModuleView {
        title: title_or_default(lossy_text(until_zero(data.subrange(0, TITLE_LEN as int)))),
        source_format: "protracker"@,
        num_channels: num_channels(data) as usize,
        samples: Seq::new(num_samples(data) as nat, |i: int| sample_of(data, i)),
        patterns: Seq::new(
            num_patterns(data) as nat,
            |p: int|
                pattern_at(
                    data,
                    patterns_at(data) + p * (ROWS_PER_PATTERN * row_size(data)),
                    num_channels(data),
                ),
        ),
        order: order_table(data).take(data[song_at(data)] as int).map_values(|b: u8| b as u32),
        restart_position: data[song_at(data) + 1] as u32,
        initial_tempo_bpm: 125,
        initial_speed_ticks: 6,
        linear_frequency_table: false,
    }
}

/// Whatever a file holds, its volumes go up to 64, and its cells start notes only.
pub proof fn law_modules_fit(data: Seq<u8>)
    ensures
        module_of(data).cells_and_samples_fit(),
{
}

fn convert_8bit_to_16bit(raw: &[u8]) -> (r: Vec<u8>)
    ensures
        r@ == widened(raw@),
{
    let mut out: Vec<u8> = Vec::new();
    let mut i: usize = 0;
    assert(out@ =~= widened(raw@).take(0));
    while i < raw.len()
        invariant
            i <= raw@.len(),
            out@ == widened(raw@).take(2 * i),
        decreases raw@.len() - i,
    {
        out.push(0);
        out.push(raw[i]);
        assert(out@ =~= widened(raw@).take(2 * (i + 1)));
        i += 1;
    }
    assert(out@ =~= widened(raw@));
    out
}

fn parse_row(data: &[u8], at: usize, channels: usize, table: &Vec<(i32, i32)>) -> (r: Vec<Cell>)
    requires
        at + 4 * channels <= data@.len(),
        table@ == period_table(),
    ensures
        r@ == row_at(data@, at as int, channels as int),
{
    let n: usize = data.len();
    let mut row: Vec<Cell> = Vec::new();
    let mut c: usize = 0;
    while c < channels
        invariant
            c <= channels,
            n == data@.len(),
            at + 4 * channels <= n,
            table@ == period_table(),
            row@ == row_at(data@, at as int, channels as int).take(c as int),
        decreases channels - c,
    {
        let o: usize = at + 4 * c;
        let b0: u8 = data[o];
        let b1: u8 = data[o + 1];
        let b2: u8 = data[o + 2];
        let b3: u8 = data[o + 3];
        let number: u8 = b0 / 16 * 16 + b2 / 16;
        let p: i32 = (b0 % 16) as i32 * 256 + b1 as i32;
        let effect: u8 = b2 % 16;
        let has_effect: bool = effect != 0 || b3 != 0;
        let cell = Cell {
            sample_index: if number != 0 {
                Some(number as u32)
            } else {
                None
            },
            midi_note: if p > 0 {
                Some(period_to_note(p, table))
            } else {
                None
            },
            volume: if effect == 0xC {
                Some(if b3 > 64 {
                    64
                } else {
                    b3 as u32
                })
            } else {
                None
            },
            effect: if has_effect {
                Some(effect as u32)
            } else {
                None
            },
            effect_param: if has_effect {
                Some(b3 as u32)
            } else {
                None
            },
            note_off: false,
        };
        assert(cell == cell_of(b0, b1, b2, b3));
        row.push(cell);
        assert(row@ =~= row_at(data@, at as int, channels as int).take(c + 1));
        c += 1;
    }
    assert(row@ =~= row_at(data@, at as int, channels as int));
    row
}

proof fn lemma_multiple_below(k: int, n: int, size: int)
    requires
        0 <= k < n,
        0 <= size,
    ensures
        0 <= k * size,
        k * size + size <= n * size,
{
    assert(0 <= k * size && k * size + size <= n * size) by (nonlinear_arith)
        requires
            0 <= k < n,
            0 <= size,
    ;
}

fn parse_pattern(data: &[u8], start: usize, channels: usize, table: &Vec<(i32, i32)>) -> (r:
    Pattern)
    requires
        start + ROWS_PER_PATTERN * (4 * channels) <= data@.len(),
        table@ == period_table(),
    ensures
        r@ == pattern_at(data@, start as int, channels as int),
{
    let n: usize = data.len();
    let size: usize = 4 * channels;
    let mut rows: Vec<Vec<Cell>> = Vec::new();
    let mut r: usize = 0;
    let ghost whole = pattern_at(data@, start as int, channels as int);
    assert(rows_view(rows@) =~= whole.take(0));
    while r < ROWS_PER_PATTERN
        invariant
            r <= ROWS_PER_PATTERN,
            n == data@.len(),
            size == 4 * channels,
            start + ROWS_PER_PATTERN * size <= n,
            table@ == period_table(),
            whole == pattern_at(data@, start as int, channels as int),
            rows_view(rows@) == whole.take(r as int),
        decreases ROWS_PER_PATTERN - r,
    {
        proof {
            lemma_multiple_below(r as int, ROWS_PER_PATTERN as int, size as int);
        }
        let row: Vec<Cell> = parse_row(data, start + r * size, channels, table);
        proof {
            assert(whole[r as int] == row@);
            assert(rows_view(rows@.push(row)) =~= rows_view(rows@).push(row@));
            assert(whole.take(r + 1) =~= whole.take(r as int).push(row@));
        }
        rows.push(row);
        r += 1;
    }
    assert(whole.take(r as int) =~= whole);
    Pattern { rows }
}

fn parse_patterns(
    data: &[u8],
    start: usize,
    count: usize,
    channels: usize,
    table: &Vec<(i32, i32)>,
) -> (r: Vec<Pattern>)
    requires
        start + count * (ROWS_PER_PATTERN * (4 * channels)) <= data@.len(),
        table@ == period_table(),
    ensures
        patterns_view(r@) == Seq::new(
            count as nat,
            |p: int|
                pattern_at(
                    data@,
                    start + p * (ROWS_PER_PATTERN * (4 * channels)),
                    channels as int,
                ),
        ),
{
    let n: usize = data.len();
    let mut patterns: Vec<Pattern> = Vec::new();
    if count == 0 {
        assert(patterns_view(patterns@) =~= Seq::empty());
        return patterns;
    }
    proof {
        lemma_multiple_below(0, count as int, ROWS_PER_PATTERN * (4 * channels));
    }
    let size: usize = ROWS_PER_PATTERN * (4 * channels);
    let mut p: usize = 0;
    let ghost whole = Seq::new(
        count as nat,
        |p: int| pattern_at(data@, start + p * size, channels as int),
    );
    assert(patterns_view(patterns@) =~= whole.take(0));
    while p < count
        invariant
            p <= count,
            n == data@.len(),
            size == ROWS_PER_PATTERN * (4 * channels),
            start + count * size <= n,
            table@ == period_table(),
            whole == Seq::new(
                count as nat,
                |p: int| pattern_at(data@, start + p * size, channels as int),
            ),
            patterns_view(patterns@) == whole.take(p as int),
        decreases count - p,
    {
        proof {
            lemma_multiple_below(p as int, count as int, size as int);
        }
        let pattern: Pattern = parse_pattern(data, start + p * size, channels, table);
        proof {
            assert(whole[p as int] == pattern@);
            assert(patterns_view(patterns@.push(pattern)) =~= patterns_view(patterns@).push(
                pattern@,
            ));
            assert(whole.take(p + 1) =~= whole.take(p as int).push(pattern@));
        }
        patterns.push(pattern);
        p += 1;
    }
    assert(whole.take(p as int) =~= whole);
    patterns
}

fn parse_sample(data: &[u8], i: usize, at: usize) -> (r: Sample)
    requires
        i < 31,
        data@.len() >= 1084,
        at == sound_at(data@, i as int),
        at + sample_length(data@, i as int) <= data@.len(),
    ensures
        r@ == sample_of(data@, i as int),
{
    let h: usize = TITLE_LEN + SAMPLE_HEADER_LEN * i;
    let raw_name: &[u8] = vstd::slice::slice_subrange(data, h, h + 22);
    let name: String = utf8_lossy(before_zero(raw_name));
    let length: usize = 2 * read_be16(data, h + 22) as usize;
    let f: u8 = data[h + 24] % 16;
    let finetune: i32 = if f >= 8 {
        f as i32 - 16
    } else {
        f as i32
    };
    let v: u8 = data[h + 25];
    let loop_length: u32 = 2 * read_be16(data, h + 28) as u32;
    let sound: &[u8] = vstd::slice::slice_subrange(data, at, at + length);
    Sample {
        index: i as u32 + 1,
        name,
        pcm16: convert_8bit_to_16bit(sound),
        sample_rate_hz: rate_of_finetune(finetune),
        loop_start: 2 * read_be16(data, h + 26) as u32,
        loop_length: if loop_length > 2 {
            loop_length
        } else {
            0
        },
        volume: if v > 64 {
            64
        } else {
            v as u32
        },
        finetune,
        base_note: BASE_MIDI_NOTE,
        pan: 0,
        volume_envelope: None,
        panning_envelope: None,
        fadeout: 0,
    }
}

pub(crate) proof fn lemma_sound_grows(data: Seq<u8>, i: int, n: int)
    requires
        data.len() >= 1084,
        0 <= i <= n <= 31,
    ensures
        sound_at(data, i) <= sound_at(data, n),
        i < n ==> sound_at(data, i) + sample_length(data, i) <= sound_at(data, n),
    decreases n - i,
{
    if i < n {
        lemma_sound_grows(data, i + 1, n);
    }
}

fn largest_of(bytes: &[u8]) -> (r: u8)
    ensures
        r == largest(bytes@),
{
    let mut best: u8 = 0;
    let mut i: usize = 0;
    while i < bytes.len()
        invariant
            i <= bytes@.len(),
            best == largest(bytes@.take(i as int)),
        decreases bytes@.len() - i,
    {
        assert(bytes@.take(i + 1).drop_last() =~= bytes@.take(i as int));
        if bytes[i] > best {
            best = bytes[i];
        }
        i += 1;
    }
    assert(bytes@.take(i as int) =~= bytes@);
    best
}

/// What stands where in the file.
struct Layout {
    channels: usize,
    samples: usize,
    song: usize,
    patterns: usize,
    num_patterns: usize,
}

fn layout(data: &[u8]) -> (r: Layout)
    requires
        data@.len() >= 1084,
    ensures
        r.channels == num_channels(data@),
        r.channels <= 99,
        r.samples == num_samples(data@),
        r.samples == 31 || r.samples == 15,
        r.song == song_at(data@),
        r.song + 130 <= 1084,
        r.patterns == patterns_at(data@),
        r.patterns <= 1084,
        r.num_patterns == num_patterns(data@),
        1 <= r.num_patterns <= 256,
{
    let tag: &[u8] = vstd::slice::slice_subrange(data, 1080, 1084);
    let detected: Option<usize> = detect_channels(tag);
    let samples: usize = if detected.is_some() {
        31
    } else {
        15
    };
    let channels: usize = match detected {
        Some(n) => n,
        None => 4,
    };
    let song: usize = TITLE_LEN + SAMPLE_HEADER_LEN * samples;
    let order: &[u8] = vstd::slice::slice_subrange(data, song + 2, song + 130);
    Layout {
        channels,
        samples,
        song,
        patterns: if samples == 31 {
            1084
        } else {
            song + 130
        },
        num_patterns: largest_of(order) as usize + 1,
    }
}

/// Whether the file is complete.
pub fn is_complete(data: &[u8]) -> (r: bool)
    ensures
        r == complete(data@),
{
    if data.len() < 1084 {
        return false;
    }
    let l: Layout = layout(data);
    if data[l.song] > 128 {
        return false;
    }
    proof {
        assert(l.num_patterns * (ROWS_PER_PATTERN * (4 * l.channels)) <= 256 * (64 * (4 * 99)))
            by (nonlinear_arith)
            requires
                0 <= l.num_patterns <= 256,
                0 <= l.channels <= 99,
                ROWS_PER_PATTERN == 64,
        ;
        assert(0 <= l.num_patterns * (ROWS_PER_PATTERN * (4 * l.channels))) by (nonlinear_arith)
            requires
                0 <= l.num_patterns,
                0 <= l.channels,
                ROWS_PER_PATTERN == 64,
        ;
    }
    let mut end: usize = l.patterns + l.num_patterns * (ROWS_PER_PATTERN * (4 * l.channels));
    let mut i: usize = 0;
    while i < l.samples
        invariant
            i <= l.samples <= 31,
            data@.len() >= 1084,
            end == sound_at(data@, i as int),
            end <= 1084 + 256 * (64 * (4 * 99)) + i * 0x20000,
        decreases l.samples - i,
    {
        end = end + 2 * read_be16(data, TITLE_LEN + SAMPLE_HEADER_LEN * i + 22) as usize;
        i += 1;
    }
    end <= data.len()
}

/// Parses a complete file.
pub fn parse(data: &[u8]) -> (r: Module)
    requires
        complete(data@),
    ensures
        r@ == module_of(data@),
{
    let n: usize = data.len();
    let l: Layout = layout(data);
    let raw_title: &[u8] = vstd::slice::slice_subrange(data, 0, TITLE_LEN);
    let title: String = utf8_lossy(before_zero(raw_title));
    let song_length: usize = data[l.song] as usize;
    let mut order: Vec<u32> = Vec::new();
    let ghost orders = order_table(data@).take(song_length as int).map_values(|b: u8| b as u32);
    let mut k: usize = 0;
    while k < song_length
        invariant
            k <= song_length <= 128,
            n == data@.len(),
            l.song == song_at(data@),
            l.song + 130 <= n,
            orders == order_table(data@).take(song_length as int).map_values(|b: u8| b as u32),
            order@ == orders.take(k as int),
        decreases song_length - k,
    {
        order.push(data[l.song + 2 + k] as u32);
        assert(order@ =~= orders.take(k + 1));
        k += 1;
    }
    assert(order@ =~= orders);
    proof {
        lemma_sound_grows(data@, 0, l.samples as int);
        assert(0 <= l.num_patterns * (ROWS_PER_PATTERN * (4 * l.channels))) by (nonlinear_arith)
            requires
                0 <= l.num_patterns,
                0 <= l.channels,
                ROWS_PER_PATTERN == 64,
        ;
        assert(l.num_patterns * (ROWS_PER_PATTERN * (4 * l.channels)) <= 256 * (64 * (4 * 99)))
            by (nonlinear_arith)
            requires
                0 <= l.num_patterns <= 256,
                0 <= l.channels <= 99,
                ROWS_PER_PATTERN == 64,
        ;
    }
    let table: Vec<(i32, i32)> = build_period_table();
    let patterns: Vec<Pattern> = parse_patterns(
        data,
        l.patterns,
        l.num_patterns,
        l.channels,
        &table,
    );
    let mut samples: Vec<Sample> = Vec::new();
    let mut at: usize = l.patterns + l.num_patterns * (ROWS_PER_PATTERN * (4 * l.channels));
    let mut i: usize = 0;
    let ghost whole = Seq::new(l.samples as nat, |i: int| sample_of(data@, i));
    assert(sample_views(samples@) =~= whole.take(0));
    while i < l.samples
        invariant
            i <= l.samples <= 31,
            n == data@.len(),
            complete(data@),
            l.samples == num_samples(data@),
            at == sound_at(data@, i as int),
            whole == Seq::new(l.samples as nat, |i: int| sample_of(data@, i)),
            sample_views(samples@) == whole.take(i as int),
        decreases l.samples - i,
    {
        proof {
            lemma_sound_grows(data@, i as int, l.samples as int);
        }
        let sample: Sample = parse_sample(data, i, at);
        proof {
            assert(sample_views(samples@.push(sample)) =~= sample_views(samples@).push(sample@));
            assert(whole.take(i + 1) =~= whole.take(i as int).push(sample@));
        }
        at = at + 2 * read_be16(data, TITLE_LEN + SAMPLE_HEADER_LEN * i + 22) as usize;
        samples.push(sample);
        i += 1;
    }
    assert(whole.take(i as int) =~= whole);
    let named: String = if title.as_str().is_empty() {
        "(untitled)".to_owned()
    } else {
        title
    };
    Module {
        title: named,
        source_format: "protracker".to_owned(),
        num_channels: l.channels,
        samples,
        patterns,
        order,
        restart_position: data[l.song + 1] as u32,
        initial_tempo_bpm: 125,
        initial_speed_ticks: 6,
        linear_frequency_table: false,
    }
}

/// The 96th power.
pub open spec fn pow96(x: int) -> int {
    let x3 = x * x * x;
    let x6 = x3 * x3;
    let x12 = x6 * x6;
    let x24 = x12 * x12;
    let x48 = x24 * x24;
    x48 * x48
}

/// The rate of a sample is `8363 * 2^(finetune / 96)`, rounded to the nearest integer: it lies
/// within a half of that, as the 96th powers of the doubled numbers show.
pub proof fn law_rate_is_nearest(finetune: int)
    requires
        -8 <= finetune <= 7,
    ensures
        ({
            let r = finetuned_rate(finetune) as int;
            let up = vstd::arithmetic::power2::pow2((finetune + 8) as nat);
            pow96(2 * r - 1) * 256 <= pow96(16726) * up <= pow96(2 * r + 1) * 256
        }),
{
    vstd::arithmetic::power2::lemma2_to64();
    if finetune == -8 {
        assert(finetuned_rate(-8) == 7894);
        assert(pow96(15787) * 256 <= pow96(16726) * 1 <= pow96(15789) * 256) by (nonlinear_arith);
    }
    if finetune == -7 {
        assert(finetuned_rate(-7) == 7951);
        assert(pow96(15901) * 256 <= pow96(16726) * 2 <= pow96(15903) * 256) by (nonlinear_arith);
    }
    if finetune == -6 {
        assert(finetuned_rate(-6) == 8008);
        assert(pow96(16015) * 256 <= pow96(16726) * 4 <= pow96(16017) * 256) by (nonlinear_arith);
    }
    if finetune == -5 {
        assert(finetuned_rate(-5) == 8066);
        assert(pow96(16131) * 256 <= pow96(16726) * 8 <= pow96(16133) * 256) by (nonlinear_arith);
    }
    if finetune == -4 {
        assert(finetuned_rate(-4) == 8125);
        assert(pow96(16249) * 256 <= pow96(16726) * 16 <= pow96(16251) * 256) by (nonlinear_arith);
    }
    if finetune == -3 {
        assert(finetuned_rate(-3) == 8184);
        assert(pow96(16367) * 256 <= pow96(16726) * 32 <= pow96(16369) * 256) by (nonlinear_arith);
    }
    if finetune == -2 {
        assert(finetuned_rate(-2) == 8243);
        assert(pow96(16485) * 256 <= pow96(16726) * 64 <= pow96(16487) * 256) by (nonlinear_arith);
    }
    if finetune == -1 {
        assert(finetuned_rate(-1) == 8303);
        assert(pow96(16605) * 256 <= pow96(16726) * 128 <= pow96(16607) * 256) by (nonlinear_arith);
    }
    if finetune == 0 {
        assert(finetuned_rate(0) == 8363);
        assert(pow96(16725) * 256 <= pow96(16726) * 256 <= pow96(16727) * 256) by (nonlinear_arith);
    }
    if finetune == 1 {
        assert(finetuned_rate(1) == 8424);
        assert(pow96(16847) * 256 <= pow96(16726) * 512 <= pow96(16849) * 256) by (nonlinear_arith);
    }
    if finetune == 2 {
        assert(finetuned_rate(2) == 8485);
        assert(pow96(16969) * 256 <= pow96(16726) * 1024 <= pow96(16971) * 256) by (nonlinear_arith);
    }
    if finetune == 3 {
        assert(finetuned_rate(3) == 8546);
        assert(pow96(17091) * 256 <= pow96(16726) * 2048 <= pow96(17093) * 256) by (nonlinear_arith);
    }
    if finetune == 4 {
        assert(finetuned_rate(4) == 8608);
        assert(pow96(17215) * 256 <= pow96(16726) * 4096 <= pow96(17217) * 256) by (nonlinear_arith);
    }
    if finetune == 5 {
        assert(finetuned_rate(5) == 8670);
        assert(pow96(17339) * 256 <= pow96(16726) * 8192 <= pow96(17341) * 256) by (nonlinear_arith);
    }
    if finetune == 6 {
        assert(finetuned_rate(6) == 8733);
        assert(pow96(17465) * 256 <= pow96(16726) * 16384 <= pow96(17467) * 256) by (nonlinear_arith);
    }
    if finetune == 7 {
        assert(finetuned_rate(7) == 8797);
        assert(pow96(17593) * 256 <= pow96(16726) * 32768 <= pow96(17595) * 256) by (nonlinear_arith);
    }
}

} // verus!
