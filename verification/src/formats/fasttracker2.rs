//! Parser for FastTracker 2 .xm files.
//!
//! Pattern and instrument headers have their own size fields, pattern cells are compressed,
//! PCM is delta-encoded, and an instrument sends its notes through a keymap to one of several
//! samples. That indirection is resolved here: every (instrument, note) pair that occurs is
//! traced to its sample, so that everything behind this module only sees the flat IR.
use crate::formats::base::{
    envelope_view, patterns_view, rows_view, sample_views, Cell, Envelope, EnvelopePoint,
    EnvelopeView, Module, ModuleView, Pattern, Sample, SampleView,
};
use crate::formats::bytes::{
    before_zero, le16, le32, read_le16, read_le32, read_signed8, signed8, until_zero,
};
use crate::formats::effects::{effect_report, is_report};
use crate::formats::protracker::title_or_default;
use crate::text::{lossy_text, trim, trimmed, utf8_lossy};
use std::collections::BTreeMap;
use vstd::prelude::*;

verus! {

/// MIDI note that every sample is pitched to.
pub const BASE_MIDI_NOTE: i32 = 60;

/// Note 49 of a file, "C-4", is MIDI note 60.
pub const NOTE_OFFSET: i32 = 11;

pub const KEY_OFF_NOTE: u8 = 97;

/// The effect letter K: letters and digits count directly, 0-9 and A-Z being 0-35.
pub const EFFECT_KEY_OFF: u32 = 0x14;

/// The name of an effect. Exx sub-commands have codes of their own: 0xE0 and the sub-command.
pub open spec fn name_of_effect(code: u32) -> &'static str {
    match code {
        0x0 => "Arpeggio",
        0x1 => "Portamento Up",
        0x2 => "Portamento Down",
        0x3 => "Tone Portamento",
        0x4 => "Vibrato",
        0x5 => "Tone Portamento + Volume Slide",
        0x6 => "Vibrato + Volume Slide",
        0x7 => "Tremolo",
        0x8 => "Set Panning",
        0x9 => "Sample Offset",
        0xA => "Volume Slide",
        0xB => "Position Jump",
        0xC => "Set Volume",
        0xD => "Pattern Break",
        0xE => "Extended Effects (Exx)",
        0xF => "Speed/Tempo",
        0x10 => "Set Global Volume (Gxx)",
        0x11 => "Global Volume Slide (Hxx)",
        0x14 => "Key Off (Kxx)",
        0x15 => "Set Envelope Position (Lxx)",
        0x19 => "Panning Slide (Pxx)",
        0x1B => "Multi Retrig Note (Rxy)",
        0x1D => "Tremor (Txy)",
        0x21 => "Extra Fine Portamento (Xxx)",
        0xE0 => "Set Filter (Exx, unused on Amiga)",
        0xE1 => "Fine Portamento Up (Exx)",
        0xE2 => "Fine Portamento Down (Exx)",
        0xE3 => "Glissando Control (Exx)",
        0xE4 => "Set Vibrato Waveform (Exx)",
        0xE5 => "Set Finetune (Exx)",
        0xE6 => "Pattern Loop (Exx)",
        0xE7 => "Set Tremolo Waveform (Exx)",
        0xE8 => "unused (Exx)",
        0xE9 => "Retrigger Note (Exx)",
        0xEA => "Fine Volume Slide Up (Exx)",
        0xEB => "Fine Volume Slide Down (Exx)",
        0xEC => "Note Cut (Exx)",
        0xED => "Note Delay (Exx)",
        0xEE => "Pattern Delay (Exx)",
        0xEF => "unused (Exx)",
        _ => "?",
    }
}

/// Human-readable name of an effect code, 0xE0-0xEF standing for the Exx sub-commands.
pub fn effect_name(code: u32) -> (r: &'static str)
    ensures
        r == name_of_effect(code),
{
    match code {
        0x0 => "Arpeggio",
        0x1 => "Portamento Up",
        0x2 => "Portamento Down",
        0x3 => "Tone Portamento",
        0x4 => "Vibrato",
        0x5 => "Tone Portamento + Volume Slide",
        0x6 => "Vibrato + Volume Slide",
        0x7 => "Tremolo",
        0x8 => "Set Panning",
        0x9 => "Sample Offset",
        0xA => "Volume Slide",
        0xB => "Position Jump",
        0xC => "Set Volume",
        0xD => "Pattern Break",
        0xE => "Extended Effects (Exx)",
        0xF => "Speed/Tempo",
        0x10 => "Set Global Volume (Gxx)",
        0x11 => "Global Volume Slide (Hxx)",
        0x14 => "Key Off (Kxx)",
        0x15 => "Set Envelope Position (Lxx)",
        0x19 => "Panning Slide (Pxx)",
        0x1B => "Multi Retrig Note (Rxy)",
        0x1D => "Tremor (Txy)",
        0x21 => "Extra Fine Portamento (Xxx)",
        0xE0 => "Set Filter (Exx, unused on Amiga)",
        0xE1 => "Fine Portamento Up (Exx)",
        0xE2 => "Fine Portamento Down (Exx)",
        0xE3 => "Glissando Control (Exx)",
        0xE4 => "Set Vibrato Waveform (Exx)",
        0xE5 => "Set Finetune (Exx)",
        0xE6 => "Pattern Loop (Exx)",
        0xE7 => "Set Tremolo Waveform (Exx)",
        0xE8 => "unused (Exx)",
        0xE9 => "Retrigger Note (Exx)",
        0xEA => "Fine Volume Slide Up (Exx)",
        0xEB => "Fine Volume Slide Down (Exx)",
        0xEC => "Note Cut (Exx)",
        0xED => "Note Delay (Exx)",
        0xEE => "Pattern Delay (Exx)",
        0xEF => "unused (Exx)",
        _ => "?",
    }
}

/// Effect codes present in the module that are parsed but not simulated, each counted.
pub fn unimplemented_effect_counts(module: &Module) -> (r: BTreeMap<u32, u32>)
    requires
        module@.cells().len() <= u32::MAX,
    ensures
        is_report(r@, module@, Some(EFFECT_KEY_OFF), false),
{
    effect_report(module, Some(EFFECT_KEY_OFF), false)
}

/// Effect codes present in the module that are simulated, each counted.
pub fn implemented_effect_counts(module: &Module) -> (r: BTreeMap<u32, u32>)
    requires
        module@.cells().len() <= u32::MAX,
    ensures
        is_report(r@, module@, Some(EFFECT_KEY_OFF), true),
{
    effect_report(module, Some(EFFECT_KEY_OFF), true)
}

/// The text of a fixed-size field.
pub open spec fn field_text(raw: Seq<u8>) -> Seq<char> {
    trimmed(lossy_text(until_zero(raw)))
}

fn trimmed_string(raw: &[u8]) -> (r: String)
    ensures
        r@ == field_text(raw@),
{
    trim(utf8_lossy(before_zero(raw)).as_str())
}

/// One cell of a pattern as the file holds it.
#[derive(Debug, Clone, Copy, PartialEq, Eq, Structural)]
pub struct RawCell {
    /// 1-96, 97 for Key Off, 0 for none.
    pub note: u8,
    /// 1-based, 0 for the channel's current instrument.
    pub instrument: u8,
    pub volume: u8,
    pub effect: u8,
    pub effect_param: u8,
}

/// Bit `i` of a byte.
pub open spec fn bit(b: u8, i: int) -> int {
    if i == 0 {
        b as int % 2
    } else if i == 1 {
        b as int / 2 % 2
    } else if i == 2 {
        b as int / 4 % 2
    } else if i == 3 {
        b as int / 8 % 2
    } else {
        b as int / 16 % 2
    }
}

/// The byte at `at` if the bit says that it is there, else 0.
pub open spec fn byte_if(data: Seq<u8>, at: int, present: int) -> u8 {
    if present == 1 {
        data[at]
    } else {
        0
    }
}

/// The cell at `at` and the position behind it; `None` where the data ends within it.
///
/// A first byte with its top bit set tells which of the five fields follow; the others are 0.
/// Without it, it is the note itself, and the other four follow.
pub open spec fn cell_at(data: Seq<u8>, at: int) -> Option<(RawCell, int)> {
    if at >= data.len() {
        None
    } else if data[at] >= 0x80 {
        let m = data[at];
        let p1 = at + 1;
        let p2 = p1 + bit(m, 0);
        let p3 = p2 + bit(m, 1);
        let p4 = p3 + bit(m, 2);
        let p5 = p4 + bit(m, 3);
        let end = p5 + bit(m, 4);
        if end > data.len() {
            None
        } else {
            Some(
                (
                    RawCell {
                        note: byte_if(data, p1, bit(m, 0)),
                        instrument: byte_if(data, p2, bit(m, 1)),
                        volume: byte_if(data, p3, bit(m, 2)),
                        effect: byte_if(data, p4, bit(m, 3)),
                        effect_param: byte_if(data, p5, bit(m, 4)),
                    },
                    end,
                ),
            )
        }
    } else if at + 5 > data.len() {
        None
    } else {
        Some(
            (
                RawCell {
                    note: data[at],
                    instrument: data[at + 1],
                    volume: data[at + 2],
                    effect: data[at + 3],
                    effect_param: data[at + 4],
                },
                at + 5,
            ),
        )
    }
}

fn read_if(data: &[u8], at: usize, present: bool) -> (r: (u8, usize))
    requires
        present ==> at < data@.len(),
        at <= data@.len(),
    ensures
        r.0 == byte_if(
            data@,
            at as int,
            if present {
                1int
            } else {
                0int
            },
        ),
        r.1 == at + (if present {
            1int
        } else {
            0int
        }),
{
    if present {
        (data[at], at + 1)
    } else {
        (0, at)
    }
}

#[verifier::spinoff_prover]
#[verifier::rlimit(30)]
fn read_cell(data: &[u8], at: usize) -> (r: Option<(RawCell, usize)>)
    ensures
        match r {
            Some((cell, end)) => cell_at(data@, at as int) == Some((cell, end as int)) && at < end
                <= data@.len(),
            None => cell_at(data@, at as int) is None,
        },
{
    let n: usize = data.len();
    if at >= n {
        return None;
    }
    let m: u8 = data[at];
    if m >= 0x80 {
        let b0: bool = m % 2 == 1;
        let b1: bool = m / 2 % 2 == 1;
        let b2: bool = m / 4 % 2 == 1;
        let b3: bool = m / 8 % 2 == 1;
        let b4: bool = m / 16 % 2 == 1;
        let mut need: usize = 1;
        if b0 {
            need += 1;
        }
        if b1 {
            need += 1;
        }
        if b2 {
            need += 1;
        }
        if b3 {
            need += 1;
        }
        if b4 {
            need += 1;
        }
        if n - at < need {
            return None;
        }
        let (note, p2) = read_if(data, at + 1, b0);
        let (instrument, p3) = read_if(data, p2, b1);
        let (volume, p4) = read_if(data, p3, b2);
        let (effect, p5) = read_if(data, p4, b3);
        let (effect_param, end) = read_if(data, p5, b4);
        Some((RawCell { note, instrument, volume, effect, effect_param }, end))
    } else if n - at < 5 {
        None
    } else {
        Some(
            (
                RawCell {
                    note: m,
                    instrument: data[at + 1],
                    volume: data[at + 2],
                    effect: data[at + 3],
                    effect_param: data[at + 4],
                },
                at + 5,
            ),
        )
    }
}

/// The `n` cells from `at` on, and the position behind them.
pub open spec fn row_at(data: Seq<u8>, at: int, n: nat) -> Option<(Seq<RawCell>, int)>
    decreases n,
{
    if n == 0 {
        Some((Seq::empty(), at))
    } else {
        match row_at(data, at, (n - 1) as nat) {
            None => None,
            Some((cells, p)) => match cell_at(data, p) {
                None => None,
                Some((cell, end)) => Some((cells.push(cell), end)),
            },
        }
    }
}

/// The `n` rows of `channels` cells from `at` on, and the position behind them.
pub open spec fn rows_at(data: Seq<u8>, at: int, n: nat, channels: nat) -> Option<
    (Seq<Seq<RawCell>>, int),
>
    decreases n,
{
    if n == 0 {
        Some((Seq::empty(), at))
    } else {
        match rows_at(data, at, (n - 1) as nat, channels) {
            None => None,
            Some((rows, p)) => match row_at(data, p, channels) {
                None => None,
                Some((row, end)) => Some((rows.push(row), end)),
            },
        }
    }
}

proof fn lemma_row_fails(data: Seq<u8>, at: int, k: nat, n: nat)
    requires
        k <= n,
        row_at(data, at, k) is None,
    ensures
        row_at(data, at, n) is None,
    decreases n,
{
    if k < n {
        lemma_row_fails(data, at, k, (n - 1) as nat);
    }
}

proof fn lemma_rows_fail(data: Seq<u8>, at: int, k: nat, n: nat, channels: nat)
    requires
        k <= n,
        rows_at(data, at, k, channels) is None,
    ensures
        rows_at(data, at, n, channels) is None,
    decreases n,
{
    if k < n {
        lemma_rows_fail(data, at, k, (n - 1) as nat, channels);
    }
}

fn read_row(data: &[u8], at: usize, n: usize) -> (r: Option<(Vec<RawCell>, usize)>)
    ensures
        match r {
            Some((cells, end)) => row_at(data@, at as int, n as nat) == Some(
                (cells@, end as int),
            ) && (end <= data@.len() || end == at),
            None => row_at(data@, at as int, n as nat) is None,
        },
{
    let mut cells: Vec<RawCell> = Vec::new();
    let mut p: usize = at;
    let mut k: usize = 0;
    while k < n
        invariant
            k <= n,
            row_at(data@, at as int, k as nat) == Some((cells@, p as int)),
            p <= data@.len() || p == at,
        decreases n - k,
    {
        match read_cell(data, p) {
            None => {
                proof {
                    assert(row_at(data@, at as int, (k + 1) as nat) is None);
                    lemma_row_fails(data@, at as int, (k + 1) as nat, n as nat);
                }
                return None;
            },
            Some((cell, end)) => {
                cells.push(cell);
                p = end;
            },
        }
        k += 1;
    }
    Some((cells, p))
}

/// The cells of the given rows.
pub open spec fn raw_rows(rows: Seq<Vec<RawCell>>) -> Seq<Seq<RawCell>> {
    rows.map_values(|r: Vec<RawCell>| r@)
}

/// The cells of the given patterns.
pub open spec fn raw_patterns(patterns: Seq<Vec<Vec<RawCell>>>) -> Seq<Seq<Seq<RawCell>>> {
    patterns.map_values(|p: Vec<Vec<RawCell>>| raw_rows(p@))
}

fn decompress_pattern(data: &[u8], at: usize, n: usize, channels: usize) -> (r: Option<
    Vec<Vec<RawCell>>,
>)
    ensures
        match r {
            Some(rows) => rows_at(data@, at as int, n as nat, channels as nat) matches Some(v)
                && v.0 == raw_rows(rows@),
            None => rows_at(data@, at as int, n as nat, channels as nat) is None,
        },
{
    let mut rows: Vec<Vec<RawCell>> = Vec::new();
    let mut p: usize = at;
    let mut k: usize = 0;
    assert(raw_rows(rows@) =~= Seq::<Seq<RawCell>>::empty());
    while k < n
        invariant
            k <= n,
            rows_at(data@, at as int, k as nat, channels as nat) == Some(
                (raw_rows(rows@), p as int),
            ),
        decreases n - k,
    {
        match read_row(data, p, channels) {
            None => {
                proof {
                    assert(rows_at(data@, at as int, (k + 1) as nat, channels as nat) is None);
                    lemma_rows_fail(
                        data@,
                        at as int,
                        (k + 1) as nat,
                        n as nat,
                        channels as nat,
                    );
                }
                return None;
            },
            Some((row, end)) => {
                assert(raw_rows(rows@.push(row)) =~= raw_rows(rows@).push(row@));
                rows.push(row);
                p = end;
            },
        }
        k += 1;
    }
    Some(rows)
}

/// The patterns from `at` on, and the position behind them. A pattern's header tells its own
/// size, the number of rows and the size of the compressed cells.
pub open spec fn patterns_at(data: Seq<u8>, at: int, n: nat, channels: nat) -> Option<
    (Seq<Seq<Seq<RawCell>>>, int),
>
    decreases n,
{
    if n == 0 {
        Some((Seq::empty(), at))
    } else {
        match patterns_at(data, at, (n - 1) as nat, channels) {
            None => None,
            Some((patterns, p)) => if p + 9 > data.len() {
                None
            } else {
                let cells = p + le32(data, p);
                match rows_at(data, cells, le16(data, p + 5) as nat, channels) {
                    None => None,
                    Some((rows, _)) => Some((patterns.push(rows), cells + le16(data, p + 7))),
                }
            },
        }
    }
}

proof fn lemma_patterns_fail(data: Seq<u8>, at: int, k: nat, n: nat, channels: nat)
    requires
        k <= n,
        patterns_at(data, at, k, channels) is None,
    ensures
        patterns_at(data, at, n, channels) is None,
    decreases n,
{
    if k < n {
        lemma_patterns_fail(data, at, k, (n - 1) as nat, channels);
    }
}

/// A position that may lie behind the end of the data, as far as it can be told.
fn position(p: u128, data: &[u8]) -> (r: usize)
    ensures
        p <= data@.len() ==> r == p,
        p > data@.len() ==> r == data@.len(),
{
    if p <= data.len() as u128 {
        p as usize
    } else {
        data.len()
    }
}

proof fn lemma_rows_past_end(data: Seq<u8>, at: int, n: nat, channels: nat)
    requires
        at > data.len(),
    ensures
        match (rows_at(data, at, n, channels), rows_at(data, data.len() as int, n, channels)) {
            (Some((a, p)), Some((b, q))) => a == b && p == at && q == data.len(),
            (None, None) => true,
            _ => false,
        },
    decreases n,
{
    if n > 0 {
        lemma_rows_past_end(data, at, (n - 1) as nat, channels);
        lemma_row_past_end(data, at, channels);
    }
}

proof fn lemma_row_past_end(data: Seq<u8>, at: int, n: nat)
    requires
        at > data.len(),
    ensures
        row_at(data, at, n) is Some <==> n == 0,
        row_at(data, data.len() as int, n) is Some <==> n == 0,
    decreases n,
{
    if n > 0 {
        lemma_row_past_end(data, at, (n - 1) as nat);
    }
}

fn read_patterns(data: &[u8], at: u128, n: usize, channels: usize) -> (r: Option<
    (Vec<Vec<Vec<RawCell>>>, u128),
>)
    requires
        at <= 0x2_0000_0000,
        n <= 0xFFFF,
    ensures
        match r {
            Some((patterns, end)) => patterns_at(data@, at as int, n as nat, channels as nat)
                == Some((raw_patterns(patterns@), end as int)) && end <= usize::MAX
                + 0x2_0000_0000,
            None => patterns_at(data@, at as int, n as nat, channels as nat) is None,
        },
{
    let mut patterns: Vec<Vec<Vec<RawCell>>> = Vec::new();
    let mut p: u128 = at;
    let mut k: usize = 0;
    assert(raw_patterns(patterns@) =~= Seq::<Seq<Seq<RawCell>>>::empty());
    while k < n
        invariant
            k <= n,
            p <= usize::MAX + 0x2_0000_0000,
            patterns_at(data@, at as int, k as nat, channels as nat) == Some(
                (raw_patterns(patterns@), p as int),
            ),
        decreases n - k,
    {
        let fits: bool = p + 9 <= data.len() as u128;
        let mut rows: Option<Vec<Vec<RawCell>>> = None;
        let mut next: u128 = p;
        if fits {
            let q: usize = p as usize;
            let cells: u128 = p + read_le32(data, q) as u128;
            let count: usize = read_le16(data, q + 5) as usize;
            let packed: usize = read_le16(data, q + 7) as usize;
            proof {
                if cells > data@.len() {
                    lemma_rows_past_end(data@, cells as int, count as nat, channels as nat);
                }
            }
            rows = decompress_pattern(data, position(cells, data), count, channels);
            next = cells + packed as u128;
        }
        match rows {
            None => {
                proof {
                    assert(patterns_at(data@, at as int, (k + 1) as nat, channels as nat) is None);
                    lemma_patterns_fail(
                        data@,
                        at as int,
                        (k + 1) as nat,
                        n as nat,
                        channels as nat,
                    );
                }
                return None;
            },
            Some(pattern) => {
                assert(raw_patterns(patterns@.push(pattern)) =~= raw_patterns(patterns@).push(
                    raw_rows(pattern@),
                ));
                patterns.push(pattern);
                p = next;
            },
        }
        k += 1;
    }
    Some((patterns, p))
}

/// The points of an envelope field.
pub open spec fn envelope_points(raw: Seq<u8>, n: int) -> Seq<EnvelopePoint> {
    Seq::new(
        n as nat,
        |i: int|
            EnvelopePoint {
                tick: le16(raw, 4 * i) as u32,
                value: le16(raw, 4 * i + 2) as u32,
            },
    )
}

/// An index that a flag bit of an envelope switches on, if it is one of the points.
pub open spec fn point_index(on: int, i: u8, n: int) -> Option<usize> {
    if on == 1 && i < n {
        Some(i as usize)
    } else {
        None
    }
}

/// How many points count: at most 12.
pub open spec fn counted_points(num_points: u8) -> int {
    if num_points > 12 {
        12
    } else {
        num_points as int
    }
}

/// The envelope that the fields give: none where it is switched off or has no points. At most
/// 12 points count.
pub open spec fn envelope_of(
    raw: Seq<u8>,
    num_points: u8,
    sustain: u8,
    loop_start: u8,
    loop_end: u8,
    flags: u8,
) -> Option<EnvelopeView> {
    let n = counted_points(num_points);
    if bit(flags, 0) == 0 || n == 0 {
        None
    } else {
        let looped = bit(flags, 2) == 1 && loop_start < n && loop_end < n;
        Some(
            EnvelopeView {
                points: envelope_points(raw, n),
                sustain_point: point_index(bit(flags, 1), sustain, n),
                loop_start_point: if looped {
                    Some(loop_start as usize)
                } else {
                    None
                },
                loop_end_point: if looped {
                    Some(loop_end as usize)
                } else {
                    None
                },
            },
        )
    }
}

/// Reads an envelope. The points that count have to be there if it is switched on.
pub fn parse_envelope(
    raw: &[u8],
    num_points: u8,
    sustain: u8,
    loop_start: u8,
    loop_end: u8,
    flags: u8,
) -> (r: Option<Envelope>)
    requires
        bit(flags, 0) == 1 ==> raw@.len() >= 4 * counted_points(num_points),
    ensures
        envelope_view(r) == envelope_of(raw@, num_points, sustain, loop_start, loop_end, flags),
{
    let n: usize = if num_points > 12 {
        12
    } else {
        num_points as usize
    };
    if flags % 2 == 0 || n == 0 {
        return None;
    }
    let mut points: Vec<EnvelopePoint> = Vec::new();
    let mut i: usize = 0;
    while i < n
        invariant
            i <= n <= 12,
            raw@.len() >= 4 * n,
            points@ == envelope_points(raw@, n as int).take(i as int),
        decreases n - i,
    {
        points.push(
            EnvelopePoint {
                tick: read_le16(raw, 4 * i) as u32,
                value: read_le16(raw, 4 * i + 2) as u32,
            },
        );
        assert(points@ =~= envelope_points(raw@, n as int).take(i + 1));
        i += 1;
    }
    assert(points@ =~= envelope_points(raw@, n as int));
    let looped: bool = flags / 4 % 2 == 1 && (loop_start as usize) < n && (loop_end as usize) < n;
    Some(
        Envelope {
            points,
            sustain_point: if flags / 2 % 2 == 1 && (sustain as usize) < n {
                Some(sustain as usize)
            } else {
                None
            },
            loop_start_point: if looped {
                Some(loop_start as usize)
            } else {
                None
            },
            loop_end_point: if looped {
                Some(loop_end as usize)
            } else {
                None
            },
        },
    )
}

/// The extended block of an instrument header, of `size` bytes in all.
pub open spec fn extended_block(data: Seq<u8>, at: int, size: int) -> Seq<u8> {
    if size > 29 {
        data.subrange(at + 29, at + size)
    } else {
        Seq::empty()
    }
}

/// Byte `i` of the block, 0 where it is too short.
pub open spec fn block_byte(ext: Seq<u8>, i: int) -> u8 {
    if i < ext.len() {
        ext[i]
    } else {
        0
    }
}

/// Which sample of the instrument each of the 96 notes plays.
pub open spec fn keymap_of(ext: Seq<u8>) -> Seq<u8> {
    Seq::new(96, |i: int| block_byte(ext, 4 + i))
}

/// The volume envelope of the block.
pub open spec fn volume_envelope_of(ext: Seq<u8>) -> Option<EnvelopeView> {
    if ext.len() >= 148 {
        envelope_of(
            ext.subrange(100, 148),
            block_byte(ext, 196),
            block_byte(ext, 198),
            block_byte(ext, 199),
            block_byte(ext, 200),
            block_byte(ext, 204),
        )
    } else {
        None
    }
}

/// The panning envelope of the block.
pub open spec fn panning_envelope_of(ext: Seq<u8>) -> Option<EnvelopeView> {
    if ext.len() >= 196 {
        envelope_of(
            ext.subrange(148, 196),
            block_byte(ext, 197),
            block_byte(ext, 201),
            block_byte(ext, 202),
            block_byte(ext, 203),
            block_byte(ext, 205),
        )
    } else {
        None
    }
}

/// The fadeout of the block.
pub open spec fn fadeout_of(ext: Seq<u8>) -> u32 {
    if ext.len() >= 212 {
        le16(ext, 210) as u32
    } else {
        0
    }
}

/// An instrument: its keymap and envelopes, and where its samples' headers and sounds stand.
#[derive(Debug)]
pub struct Instrument {
    pub keymap: Vec<u8>,
    pub volume_envelope: Option<Envelope>,
    pub panning_envelope: Option<Envelope>,
    pub fadeout: u32,
    pub headers: Vec<usize>,
    pub sounds: Vec<usize>,
}

/// What an `Instrument` holds.
pub struct InstrumentView {
    pub keymap: Seq<u8>,
    pub volume_envelope: Option<EnvelopeView>,
    pub panning_envelope: Option<EnvelopeView>,
    pub fadeout: u32,
    pub headers: Seq<usize>,
    pub sounds: Seq<usize>,
}

impl View for Instrument {
    type V = InstrumentView;

    open spec fn view(&self) -> InstrumentView {
        InstrumentView {
            keymap: self.keymap@,
            volume_envelope: envelope_view(self.volume_envelope),
            panning_envelope: envelope_view(self.panning_envelope),
            fadeout: self.fadeout,
            headers: self.headers@,
            sounds: self.sounds@,
        }
    }
}

/// The views of a list of instruments.
pub open spec fn instrument_views(list: Seq<Instrument>) -> Seq<InstrumentView> {
    list.map_values(|i: Instrument| i@)
}

/// Where the sound of sample `j` starts, where the headers of `n` samples start at `headers`.
pub open spec fn sound_at(data: Seq<u8>, headers: int, n: int, j: int) -> int
    decreases j,
{
    if j <= 0 {
        headers + 40 * n
    } else {
        sound_at(data, headers, n, j - 1) + le32(data, headers + 40 * (j - 1))
    }
}

/// The instrument at `at`, and the position behind its samples. One without samples has no
/// extended block.
pub open spec fn instrument_at(data: Seq<u8>, at: int) -> Option<(InstrumentView, int)> {
    if at + 29 > data.len() {
        None
    } else {
        let size = le32(data, at);
        let n = le16(data, at + 27);
        if n == 0 {
            Some(
                (
                    InstrumentView {
                        keymap: Seq::new(96, |i: int| 0u8),
                        volume_envelope: None,
                        panning_envelope: None,
                        fadeout: 0,
                        headers: Seq::empty(),
                        sounds: Seq::empty(),
                    },
                    at + size,
                ),
            )
        } else if at + size + 40 * n > data.len() || sound_at(data, at + size, n, n)
            > data.len() {
            None
        } else {
            let ext = extended_block(data, at, size);
            Some(
                (
                    InstrumentView {
                        keymap: keymap_of(ext),
                        volume_envelope: volume_envelope_of(ext),
                        panning_envelope: panning_envelope_of(ext),
                        fadeout: fadeout_of(ext),
                        headers: Seq::new(n as nat, |j: int| (at + size + 40 * j) as usize),
                        sounds: Seq::new(
                            n as nat,
                            |j: int| sound_at(data, at + size, n, j) as usize,
                        ),
                    },
                    sound_at(data, at + size, n, n),
                ),
            )
        }
    }
}

fn byte_of(ext: &[u8], i: usize) -> (r: u8)
    ensures
        r == block_byte(ext@, i as int),
{
    if i < ext.len() {
        ext[i]
    } else {
        0
    }
}

proof fn lemma_sound_grows(data: Seq<u8>, headers: int, n: int, i: int, j: int)
    requires
        0 <= i <= j <= n,
        0 <= headers,
        headers + 40 * n <= data.len(),
    ensures
        headers + 40 * n <= sound_at(data, headers, n, i) <= sound_at(data, headers, n, j),
        i < j ==> sound_at(data, headers, n, i) + le32(data, headers + 40 * i) <= sound_at(
            data,
            headers,
            n,
            j,
        ),
    decreases j,
{
    if i < j {
        lemma_sound_grows(data, headers, n, i, j - 1);
    } else if j > 0 {
        lemma_sound_grows(data, headers, n, i - 1, j - 1);
    }
}

fn read_block(data: &[u8], at: usize, size: usize) -> (r: &[u8])
    requires
        at + 29 <= data@.len(),
        at + size <= data@.len(),
    ensures
        r@ == extended_block(data@, at as int, size as int),
{
    let total: usize = data.len();
    if size > 29 {
        vstd::slice::slice_subrange(data, at + 29, at + size)
    } else {
        let r: &[u8] = vstd::slice::slice_subrange(data, 0, 0);
        assert(r@ =~= Seq::<u8>::empty());
        r
    }
}

fn read_keymap(ext: &[u8]) -> (r: Vec<u8>)
    ensures
        r@ == keymap_of(ext@),
{
    let mut keymap: Vec<u8> = Vec::new();
    let mut i: usize = 0;
    while i < 96
        invariant
            i <= 96,
            keymap@ == keymap_of(ext@).take(i as int),
        decreases 96 - i,
    {
        keymap.push(byte_of(ext, 4 + i));
        assert(keymap@ =~= keymap_of(ext@).take(i + 1));
        i += 1;
    }
    assert(keymap@ =~= keymap_of(ext@));
    keymap
}

fn parse_instrument(ext: &[u8], headers: Vec<usize>, sounds: Vec<usize>) -> (r: Instrument)
    ensures
        r@ == (InstrumentView {
            keymap: keymap_of(ext@),
            volume_envelope: volume_envelope_of(ext@),
            panning_envelope: panning_envelope_of(ext@),
            fadeout: fadeout_of(ext@),
            headers: headers@,
            sounds: sounds@,
        }),
{
    let n: usize = ext.len();
    let volume_envelope: Option<Envelope> = if n >= 148 {
        parse_envelope(
            vstd::slice::slice_subrange(ext, 100, 148),
            byte_of(ext, 196),
            byte_of(ext, 198),
            byte_of(ext, 199),
            byte_of(ext, 200),
            byte_of(ext, 204),
        )
    } else {
        None
    };
    let panning_envelope: Option<Envelope> = if n >= 196 {
        parse_envelope(
            vstd::slice::slice_subrange(ext, 148, 196),
            byte_of(ext, 197),
            byte_of(ext, 201),
            byte_of(ext, 202),
            byte_of(ext, 203),
            byte_of(ext, 205),
        )
    } else {
        None
    };
    let fadeout: u32 = if n >= 212 {
        read_le16(ext, 210) as u32
    } else {
        0
    };
    Instrument {
        keymap: read_keymap(ext),
        volume_envelope,
        panning_envelope,
        fadeout,
        headers,
        sounds,
    }
}

fn read_instrument(data: &[u8], p: u128) -> (r: Option<(Instrument, u128)>)
    requires
        p <= usize::MAX + 0x2_0000_0000,
    ensures
        match r {
            Some((inst, end)) => instrument_at(data@, p as int) == Some((inst@, end as int)) && end
                <= usize::MAX + 0x2_0000_0000,
            None => instrument_at(data@, p as int) is None,
        },
{
    if p + 29 > data.len() as u128 {
        return None;
    }
    let at: usize = p as usize;
    let size: u32 = read_le32(data, at);
    let n: usize = read_le16(data, at + 27) as usize;
    let first: u128 = p + size as u128;
    if n == 0 {
        let mut keymap: Vec<u8> = Vec::new();
        let mut i: usize = 0;
        while i < 96
            invariant
                i <= 96,
                keymap@ == Seq::new(i as nat, |j: int| 0u8),
            decreases 96 - i,
        {
            keymap.push(0);
            i += 1;
            assert(keymap@ =~= Seq::new(i as nat, |j: int| 0u8));
        }
        return Some(
            (
                Instrument {
                    keymap,
                    volume_envelope: None,
                    panning_envelope: None,
                    fadeout: 0,
                    headers: Vec::new(),
                    sounds: Vec::new(),
                },
                first,
            ),
        );
    }
    if first + 40 * n as u128 > data.len() as u128 {
        return None;
    }
    let base: usize = first as usize;
    let total: usize = data.len();
    let mut headers: Vec<usize> = Vec::new();
    let mut sounds: Vec<usize> = Vec::new();
    let mut sound: usize = base + 40 * n;
    let ghost all_headers = Seq::new(n as nat, |j: int| (base + 40 * j) as usize);
    let ghost all_sounds = Seq::new(
        n as nat,
        |j: int| sound_at(data@, base as int, n as int, j) as usize,
    );
    let mut j: usize = 0;
    while j < n
        invariant
            j <= n <= 0xFFFF,
            total == data@.len(),
            base + 40 * n <= total,
            sound == sound_at(data@, base as int, n as int, j as int),
            sound <= data@.len(),
            all_headers == Seq::new(n as nat, |j: int| (base + 40 * j) as usize),
            all_sounds == Seq::new(
                n as nat,
                |j: int| sound_at(data@, base as int, n as int, j) as usize,
            ),
            headers@ == all_headers.take(j as int),
            sounds@ == all_sounds.take(j as int),
            p + 29 <= data@.len(),
            instrument_at(data@, p as int) is Some ==> sound_at(
                data@,
                base as int,
                n as int,
                n as int,
            ) <= data@.len(),
        decreases n - j,
    {
        headers.push(base + 40 * j);
        sounds.push(sound);
        let length: usize = read_le32(data, base + 40 * j) as usize;
        proof {
            lemma_sound_grows(data@, base as int, n as int, j as int, n as int);
            lemma_sound_grows(data@, base as int, n as int, j + 1, n as int);
            assert(headers@ =~= all_headers.take(j + 1));
            assert(sounds@ =~= all_sounds.take(j + 1));
        }
        if data.len() - sound < length {
            return None;
        }
        sound = sound + length;
        j += 1;
    }
    assert(headers@ =~= all_headers);
    assert(sounds@ =~= all_sounds);
    let ext: &[u8] = read_block(data, at, size as usize);
    Some((parse_instrument(ext, headers, sounds), sound as u128))
}

/// The instruments from `at` on.
pub open spec fn instruments_at(data: Seq<u8>, at: int, n: nat) -> Option<
    (Seq<InstrumentView>, int),
>
    decreases n,
{
    if n == 0 {
        Some((Seq::empty(), at))
    } else {
        match instruments_at(data, at, (n - 1) as nat) {
            None => None,
            Some((list, p)) => match instrument_at(data, p) {
                None => None,
                Some((inst, end)) => Some((list.push(inst), end)),
            },
        }
    }
}

proof fn lemma_instruments_fail(data: Seq<u8>, at: int, k: nat, n: nat)
    requires
        k <= n,
        instruments_at(data, at, k) is None,
    ensures
        instruments_at(data, at, n) is None,
    decreases n,
{
    if k < n {
        lemma_instruments_fail(data, at, k, (n - 1) as nat);
    }
}

fn read_instruments(data: &[u8], at: u128, n: usize) -> (r: Option<Vec<Instrument>>)
    requires
        at <= usize::MAX + 0x2_0000_0000,
    ensures
        match r {
            Some(list) => instruments_at(data@, at as int, n as nat) matches Some(v) && v.0
                == instrument_views(list@),
            None => instruments_at(data@, at as int, n as nat) is None,
        },
{
    let mut list: Vec<Instrument> = Vec::new();
    let mut p: u128 = at;
    let mut k: usize = 0;
    assert(instrument_views(list@) =~= Seq::<InstrumentView>::empty());
    while k < n
        invariant
            k <= n,
            p <= usize::MAX + 0x2_0000_0000,
            instruments_at(data@, at as int, k as nat) == Some(
                (instrument_views(list@), p as int),
            ),
        decreases n - k,
    {
        match read_instrument(data, p) {
            None => {
                proof {
                    assert(instruments_at(data@, at as int, (k + 1) as nat) is None);
                    lemma_instruments_fail(data@, at as int, (k + 1) as nat, n as nat);
                }
                return None;
            },
            Some((inst, end)) => {
                assert(instrument_views(list@.push(inst)) =~= instrument_views(list@).push(inst@));
                list.push(inst);
                p = end;
            },
        }
        k += 1;
    }
    Some(list)
}

/// The instrument that a channel has after a cell: the one that the cell names, else the one it
/// had.
pub open spec fn carried(cell: RawCell, before: Option<usize>) -> Option<usize> {
    if cell.instrument > 0 {
        Some((cell.instrument - 1) as usize)
    } else {
        before
    }
}

/// The instrument of channel `ch` after a row, which may be too short to have a cell for it.
pub open spec fn carried_over(row: Seq<RawCell>, before: Option<usize>, ch: int) -> Option<usize> {
    if ch < row.len() {
        carried(row[ch], before)
    } else {
        before
    }
}

/// The instrument of channel `ch` after the first `n` rows of a pattern.
pub open spec fn after_rows(
    rows: Seq<Seq<RawCell>>,
    before: Option<usize>,
    ch: int,
    n: int,
) -> Option<usize>
    decreases n,
{
    if n <= 0 {
        before
    } else {
        carried_over(rows[n - 1], after_rows(rows, before, ch, n - 1), ch)
    }
}

/// The instrument of channel `ch` after the first `p` patterns, in the order of the file.
pub open spec fn after_patterns(patterns: Seq<Seq<Seq<RawCell>>>, ch: int, p: int) -> Option<usize>
    decreases p,
{
    if p <= 0 {
        None
    } else {
        after_rows(
            patterns[p - 1],
            after_patterns(patterns, ch, p - 1),
            ch,
            patterns[p - 1].len() as int,
        )
    }
}

/// The instrument in effect on a cell: the one named there, or the channel's last one, across
/// rows and patterns in the order of the file.
pub open spec fn effective(patterns: Seq<Seq<Seq<RawCell>>>, p: int, r: int, ch: int) -> Option<
    usize,
> {
    after_rows(patterns[p], after_patterns(patterns, ch, p), ch, r + 1)
}

/// The instrument in effect on each cell of each pattern.
pub open spec fn effective_of(patterns: Seq<Seq<Seq<RawCell>>>) -> Seq<Seq<Seq<Option<usize>>>> {
    Seq::new(
        patterns.len(),
        |p: int|
            Seq::new(
                patterns[p].len(),
                |r: int| Seq::new(patterns[p][r].len(), |c: int| effective(patterns, p, r, c)),
            ),
    )
}

/// The cell of channel `ch` on this row is there and names an instrument.
pub open spec fn names(patterns: Seq<Seq<Seq<RawCell>>>, p: int, r: int, ch: int) -> bool {
    &&& 0 <= p < patterns.len()
    &&& 0 <= r < patterns[p].len()
    &&& 0 <= ch < patterns[p][r].len()
    &&& patterns[p][r][ch].instrument > 0
}

/// Row `s` of pattern `q` is at or before row `r` of pattern `p`, in the order of the file.
pub open spec fn at_or_before(q: int, s: int, p: int, r: int) -> bool {
    q < p || (q == p && s <= r)
}

proof fn lemma_unnamed_rows(
    patterns: Seq<Seq<Seq<RawCell>>>,
    p: int,
    before: Option<usize>,
    ch: int,
    from: int,
    n: int,
)
    requires
        0 <= p < patterns.len(),
        0 <= from <= n <= patterns[p].len(),
        0 <= ch,
        forall|r: int| from <= r < n ==> !#[trigger] names(patterns, p, r, ch),
    ensures
        after_rows(patterns[p], before, ch, n) == after_rows(patterns[p], before, ch, from),
    decreases n - from,
{
    if from < n {
        lemma_unnamed_rows(patterns, p, before, ch, from, n - 1);
        assert(!names(patterns, p, n - 1, ch));
    }
}

proof fn lemma_unnamed_patterns(patterns: Seq<Seq<Seq<RawCell>>>, ch: int, from: int, n: int)
    requires
        0 <= from <= n <= patterns.len(),
        0 <= ch,
        forall|p: int, r: int| from <= p < n ==> !#[trigger] names(patterns, p, r, ch),
    ensures
        after_patterns(patterns, ch, n) == after_patterns(patterns, ch, from),
    decreases n - from,
{
    if from < n {
        lemma_unnamed_patterns(patterns, ch, from, n - 1);
        lemma_unnamed_rows(
            patterns,
            n - 1,
            after_patterns(patterns, ch, n - 1),
            ch,
            0,
            patterns[n - 1].len() as int,
        );
    }
}

/// The instrument in effect on a cell is the one that was named last on its channel, at or before
/// the cell and across patterns in the order of the file; where none was named, there is none.
/// Rows may be too short to have a cell for the channel.
pub proof fn law_instruments_carry_forward(
    patterns: Seq<Seq<Seq<RawCell>>>,
    p: int,
    r: int,
    ch: int,
    q: int,
    s: int,
)
    requires
        0 <= p < patterns.len(),
        0 <= r < patterns[p].len(),
        0 <= ch,
    ensures
        (forall|u: int, v: int| #[trigger]
            names(patterns, u, v, ch) ==> !at_or_before(u, v, p, r)) ==> effective(
            patterns,
            p,
            r,
            ch,
        ) is None,
        names(patterns, q, s, ch) && at_or_before(q, s, p, r) && (forall|u: int, v: int| #[trigger]
            names(patterns, u, v, ch) && at_or_before(u, v, p, r) ==> at_or_before(u, v, q, s))
            ==> effective(patterns, p, r, ch) == Some(
            (patterns[q][s][ch].instrument - 1) as usize,
        ),
{
    let before = after_patterns(patterns, ch, p);
    if forall|u: int, v: int| #[trigger]
        names(patterns, u, v, ch) ==> !at_or_before(u, v, p, r) {
        lemma_unnamed_patterns(patterns, ch, 0, p);
        lemma_unnamed_rows(patterns, p, before, ch, 0, r + 1);
    }
    if names(patterns, q, s, ch) && at_or_before(q, s, p, r) && (forall|u: int, v: int| #[trigger]
        names(patterns, u, v, ch) && at_or_before(u, v, p, r) ==> at_or_before(u, v, q, s)) {
        if q == p {
            lemma_unnamed_rows(patterns, p, before, ch, s + 1, r + 1);
        } else {
            lemma_unnamed_rows(patterns, p, before, ch, 0, r + 1);
            lemma_unnamed_patterns(patterns, ch, q + 1, p);
            lemma_unnamed_rows(
                patterns,
                q,
                after_patterns(patterns, ch, q),
                ch,
                s + 1,
                patterns[q].len() as int,
            );
        }
    }
}

/// A sample of an instrument: the numbers of both.
pub type Slot = (usize, usize);

/// The sample that a note plays on an instrument, if the keymap leads to one.
pub open spec fn slot_of(
    note: u8,
    instrument: Option<usize>,
    list: Seq<InstrumentView>,
) -> Option<Slot> {
    match instrument {
        Some(i) => if 1 <= note <= 96 && i < list.len() && list[i as int].keymap[note - 1]
            < list[i as int].headers.len() {
            Some((i, list[i as int].keymap[note - 1] as usize))
        } else {
            None
        },
        None => None,
    }
}

/// The sample that each cell of each pattern plays.
pub open spec fn slots_of(patterns: Seq<Seq<Seq<RawCell>>>, list: Seq<InstrumentView>) -> Seq<
    Seq<Seq<Option<Slot>>>,
> {
    Seq::new(
        patterns.len(),
        |p: int|
            Seq::new(
                patterns[p].len(),
                |r: int|
                    Seq::new(
                        patterns[p][r].len(),
                        |c: int|
                            slot_of(patterns[p][r][c].note, effective(patterns, p, r, c), list),
                    ),
            ),
    )
}

/// Slots are ordered by instrument, then by sample.
pub open spec fn slot_less(a: Slot, b: Slot) -> bool {
    a.0 < b.0 || (a.0 == b.0 && a.1 < b.1)
}

/// A slot put into an ordered list, unless it is there.
pub open spec fn with_slot(s: Seq<Slot>, x: Slot) -> Seq<Slot>
    decreases s.len(),
{
    if s.len() == 0 || slot_less(s.last(), x) {
        s.push(x)
    } else if s.last() == x {
        s
    } else {
        with_slot(s.drop_last(), x).push(s.last())
    }
}

/// The slots of a row put into the list.
pub open spec fn with_row(s: Seq<Slot>, row: Seq<Option<Slot>>) -> Seq<Slot>
    decreases row.len(),
{
    if row.len() == 0 {
        s
    } else {
        let before = with_row(s, row.drop_last());
        match row.last() {
            Some(x) => with_slot(before, x),
            None => before,
        }
    }
}

/// The slots of a pattern put into the list.
pub open spec fn with_pattern(s: Seq<Slot>, rows: Seq<Seq<Option<Slot>>>) -> Seq<Slot>
    decreases rows.len(),
{
    if rows.len() == 0 {
        s
    } else {
        with_row(with_pattern(s, rows.drop_last()), rows.last())
    }
}

/// The samples that are played, in order, each once.
pub open spec fn reachable(slots: Seq<Seq<Seq<Option<Slot>>>>) -> Seq<Slot>
    decreases slots.len(),
{
    if slots.len() == 0 {
        Seq::empty()
    } else {
        with_pattern(reachable(slots.drop_last()), slots.last())
    }
}

pub open spec fn slots_ascend(s: Seq<Slot>) -> bool {
    forall|i: int, j: int| 0 <= i < j < s.len() ==> slot_less(#[trigger] s[i], #[trigger] s[j])
}

proof fn lemma_with_slot(s: Seq<Slot>, x: Slot)
    requires
        slots_ascend(s),
    ensures
        slots_ascend(with_slot(s, x)),
        with_slot(s, x).contains(x),
        forall|y: Slot| #[trigger] with_slot(s, x).contains(y) <==> s.contains(y) || y == x,
    decreases s.len(),
{
    let r = with_slot(s, x);
    if s.len() == 0 || slot_less(s.last(), x) {
        assert(r[s.len() as int] == x);
        assert forall|y: Slot| #[trigger] r.contains(y) <==> s.contains(y) || y == x by {
            if r.contains(y) {
                let i = choose|i: int| 0 <= i < r.len() && r[i] == y;
                if i < s.len() {
                    assert(s[i] == y);
                }
            }
            if s.contains(y) {
                let i = choose|i: int| 0 <= i < s.len() && s[i] == y;
                assert(r[i] == y);
            }
        }
        assert forall|i: int, j: int| 0 <= i < j < r.len() implies slot_less(
            #[trigger] r[i],
            #[trigger] r[j],
        ) by {
            if j == s.len() && i < s.len() - 1 {
                assert(slot_less(s[i], s[s.len() - 1]));
            }
        }
    } else if s.last() == x {
        assert(s[s.len() - 1] == x);
    } else {
        let d = s.drop_last();
        lemma_with_slot(d, x);
        let p = with_slot(d, x);
        assert forall|i: int, j: int| 0 <= i < j < r.len() implies slot_less(
            #[trigger] r[i],
            #[trigger] r[j],
        ) by {
            if j == p.len() {
                assert(p.contains(p[i]));
                if d.contains(p[i]) {
                    let q = choose|q: int| 0 <= q < d.len() && d[q] == p[i];
                    assert(slot_less(s[q], s[s.len() - 1]));
                }
            }
        }
        assert forall|y: Slot| #[trigger] r.contains(y) <==> s.contains(y) || y == x by {
            if r.contains(y) {
                let i = choose|i: int| 0 <= i < r.len() && r[i] == y;
                if i < p.len() {
                    assert(p.contains(y));
                    if d.contains(y) {
                        let q = choose|q: int| 0 <= q < d.len() && d[q] == y;
                        assert(s[q] == y);
                    }
                } else {
                    assert(s[s.len() - 1] == y);
                }
            }
            if s.contains(y) {
                let i = choose|i: int| 0 <= i < s.len() && s[i] == y;
                if i < d.len() {
                    assert(d[i] == y);
                    assert(p.contains(y));
                    let q = choose|q: int| 0 <= q < p.len() && p[q] == y;
                    assert(r[q] == y);
                } else {
                    assert(r[p.len() as int] == y);
                }
            }
            if y == x {
                assert(p.contains(y));
                let q = choose|q: int| 0 <= q < p.len() && p[q] == y;
                assert(r[q] == y);
            }
        }
        assert(r.contains(x));
    }
}

proof fn lemma_with_row(s: Seq<Slot>, row: Seq<Option<Slot>>)
    requires
        slots_ascend(s),
    ensures
        slots_ascend(with_row(s, row)),
        forall|y: Slot| #[trigger]
            with_row(s, row).contains(y) <==> s.contains(y) || row.contains(Some(y)),
    decreases row.len(),
{
    if row.len() > 0 {
        let d = row.drop_last();
        lemma_with_row(s, d);
        let before = with_row(s, d);
        if row.last() is Some {
            lemma_with_slot(before, row.last()->0);
        }
        assert forall|y: Slot| #[trigger] with_row(s, row).contains(y) <==> s.contains(y)
            || row.contains(Some(y)) by {
            assert(before.contains(y) <==> s.contains(y) || d.contains(Some(y)));
            if d.contains(Some(y)) {
                let i = choose|i: int| 0 <= i < d.len() && d[i] == Some(y);
                assert(row[i] == Some(y));
            }
            if row.contains(Some(y)) {
                let i = choose|i: int| 0 <= i < row.len() && row[i] == Some(y);
                if i < d.len() {
                    assert(d[i] == Some(y));
                }
            }
            if row.last() == Some(y) {
                assert(row[row.len() - 1] == Some(y));
            }
        }
    }
}

/// Whether a cell of the pattern plays the slot.
pub open spec fn plays_in(rows: Seq<Seq<Option<Slot>>>, y: Slot) -> bool {
    exists|r: int| 0 <= r < rows.len() && (#[trigger] rows[r]).contains(Some(y))
}

proof fn lemma_with_pattern(s: Seq<Slot>, rows: Seq<Seq<Option<Slot>>>)
    requires
        slots_ascend(s),
    ensures
        slots_ascend(with_pattern(s, rows)),
        forall|y: Slot| #[trigger]
            with_pattern(s, rows).contains(y) <==> s.contains(y) || plays_in(rows, y),
    decreases rows.len(),
{
    if rows.len() > 0 {
        let d = rows.drop_last();
        lemma_with_pattern(s, d);
        lemma_with_row(with_pattern(s, d), rows.last());
        assert forall|y: Slot| #[trigger] with_pattern(s, rows).contains(y) <==> s.contains(y)
            || plays_in(rows, y) by {
            assert(with_pattern(s, d).contains(y) <==> s.contains(y) || plays_in(d, y));
            if plays_in(d, y) {
                let r = choose|r: int| 0 <= r < d.len() && (#[trigger] d[r]).contains(Some(y));
                assert(rows[r].contains(Some(y)));
            }
            if plays_in(rows, y) {
                let r = choose|r: int|
                    0 <= r < rows.len() && (#[trigger] rows[r]).contains(Some(y));
                if r < d.len() {
                    assert(d[r].contains(Some(y)));
                }
            }
            if rows.last().contains(Some(y)) {
                assert(rows[rows.len() - 1].contains(Some(y)));
            }
        }
    }
}

/// The samples that are played are numbered in order, each once: those that some cell of some
/// pattern leads to, and no others.
pub proof fn law_reachable_samples(slots: Seq<Seq<Seq<Option<Slot>>>>)
    ensures
        slots_ascend(reachable(slots)),
        forall|y: Slot| #[trigger]
            reachable(slots).contains(y) <==> exists|p: int|
                0 <= p < slots.len() && plays_in(#[trigger] slots[p], y),
    decreases slots.len(),
{
    if slots.len() > 0 {
        let d = slots.drop_last();
        law_reachable_samples(d);
        lemma_with_pattern(reachable(d), slots.last());
        assert forall|y: Slot| #[trigger] reachable(slots).contains(y) <==> exists|p: int|
            0 <= p < slots.len() && plays_in(#[trigger] slots[p], y) by {
            let before = reachable(d).contains(y);
            if before {
                let p = choose|p: int| 0 <= p < d.len() && plays_in(#[trigger] d[p], y);
                assert(plays_in(slots[p], y));
            }
            if plays_in(slots.last(), y) {
                assert(plays_in(slots[slots.len() - 1], y));
            }
            if exists|p: int| 0 <= p < slots.len() && plays_in(#[trigger] slots[p], y) {
                let p = choose|p: int| 0 <= p < slots.len() && plays_in(#[trigger] slots[p], y);
                if p < d.len() {
                    assert(plays_in(d[p], y));
                }
            }
        }
    }
}

/// The 1-based number of a slot in the list.
pub open spec fn number_of(list: Seq<Slot>, x: Slot) -> Option<u32>
    decreases list.len(),
{
    if list.len() == 0 {
        None
    } else if list.last() == x {
        Some(list.len() as u32)
    } else {
        number_of(list.drop_last(), x)
    }
}

/// 16-bit sample `i` of delta-encoded data: the sum of the deltas up to it, modulo 2^16.
pub open spec fn undelta16(raw: Seq<u8>, i: int) -> int
    decreases i + 1,
{
    if i < 0 {
        0
    } else {
        (undelta16(raw, i - 1) + le16(raw, 2 * i)) % 0x1_0000
    }
}

/// 8-bit sample `i` of delta-encoded data: the sum of the deltas up to it, modulo 256.
pub open spec fn undelta8(raw: Seq<u8>, i: int) -> int
    decreases i + 1,
{
    if i < 0 {
        0
    } else {
        (undelta8(raw, i - 1) + raw[i]) % 256
    }
}

/// Delta-encoded sound as 16-bit little-endian PCM. 8-bit samples become the high byte.
pub open spec fn decoded(raw: Seq<u8>, sixteen_bit: bool) -> Seq<u8> {
    if sixteen_bit {
        Seq::new(
            raw.len() / 2 * 2,
            |i: int|
                if i % 2 == 0 {
                    (undelta16(raw, i / 2) % 256) as u8
                } else {
                    (undelta16(raw, i / 2) / 256) as u8
                },
        )
    } else {
        Seq::new(
            2 * raw.len(),
            |i: int|
                if i % 2 == 0 {
                    0u8
                } else {
                    undelta8(raw, i / 2) as u8
                },
        )
    }
}

/// The deltas of 16-bit samples are what the file holds: taking differences undoes the
/// decoding.
pub proof fn law_deltas_undo_decoding(raw: Seq<u8>, i: int)
    requires
        0 <= i,
    ensures
        2 * i + 1 < raw.len() ==> (undelta16(raw, i) - undelta16(raw, i - 1)) % 0x1_0000 == le16(
            raw,
            2 * i,
        ),
        i < raw.len() ==> (undelta8(raw, i) - undelta8(raw, i - 1)) % 256 == raw[i],
{
}

fn decode_pcm(raw: &[u8], sixteen_bit: bool) -> (r: Vec<u8>)
    ensures
        r@ == decoded(raw@, sixteen_bit),
{
    let mut out: Vec<u8> = Vec::new();
    let n: usize = raw.len();
    let mut i: usize = 0;
    if sixteen_bit {
        let mut acc: u32 = 0;
        while i < n / 2
            invariant
                n == raw@.len(),
                i <= n / 2,
                acc == undelta16(raw@, i - 1),
                acc < 0x1_0000,
                out@ == decoded(raw@, true).take(2 * i),
            decreases n / 2 - i,
        {
            acc = (acc + read_le16(raw, 2 * i) as u32) % 0x1_0000;
            out.push((acc % 256) as u8);
            out.push((acc / 256) as u8);
            assert(out@ =~= decoded(raw@, true).take(2 * (i + 1)));
            i += 1;
        }
        assert(out@ =~= decoded(raw@, true));
    } else {
        let mut acc: u32 = 0;
        while i < n
            invariant
                n == raw@.len(),
                i <= n,
                acc == undelta8(raw@, i - 1),
                acc < 256,
                out@ == decoded(raw@, false).take(2 * i),
            decreases n - i,
        {
            acc = (acc + raw[i] as u32) % 256;
            out.push(0);
            out.push(acc as u8);
            assert(out@ =~= decoded(raw@, false).take(2 * (i + 1)));
            i += 1;
        }
        assert(out@ =~= decoded(raw@, false));
    }
    out
}

/// How far a sample's pitch is raised, in 128ths of a semitone, counted from the lowest value.
pub open spec fn tuning(data: Seq<u8>, header: int) -> int {
    signed8(data[header + 16]) * 128 + signed8(data[header + 13]) + 16512
}

/// The number of different tunings.
pub const TUNINGS: usize = 32896;

/// The sample of an instrument. `rates` holds the sample rate for each tuning `t`:
/// `8363 * 2^((t - 16512) / 1536)`, rounded. Ping-pong loops are taken as forward ones.
pub open spec fn sample_of(
    data: Seq<u8>,
    index: u32,
    slot: Slot,
    list: Seq<InstrumentView>,
    rates: Seq<u32>,
) -> SampleView {
    let inst = list[slot.0 as int];
    let h = inst.headers[slot.1 as int] as int;
    let sound = inst.sounds[slot.1 as int] as int;
    let kind = data[h + 14];
    let wide = bit(kind, 4) == 1;
    let divisor = if wide {
        2int
    } else {
        1
    };
    SampleView {
        index,
        name: field_text(data.subrange(h + 18, h + 40)),
        pcm16: decoded(data.subrange(sound, sound + le32(data, h)), wide),
        sample_rate_hz: rates[tuning(data, h)],
        loop_start: (le32(data, h + 4) / divisor) as u32,
        loop_length: if kind % 4 == 0 {
            0
        } else {
            (le32(data, h + 8) / divisor) as u32
        },
        volume: if data[h + 12] > 64 {
            64
        } else {
            data[h + 12] as u32
        },
        finetune: 0,
        base_note: BASE_MIDI_NOTE,
        pan: if data[h + 15] == 0 {
            -127i32
        } else {
            (data[h + 15] - 128) as i32
        },
        volume_envelope: inst.volume_envelope,
        panning_envelope: inst.panning_envelope,
        fadeout: inst.fadeout,
    }
}

/// Where the headers and sounds of an instrument stand fits the data.
pub open spec fn placed(inst: InstrumentView, data: Seq<u8>) -> bool {
    &&& inst.keymap.len() == 96
    &&& inst.headers.len() == inst.sounds.len()
    &&& forall|j: int|
        0 <= j < inst.headers.len() ==> {
            &&& (#[trigger] inst.headers[j]) + 40 <= data.len()
            &&& inst.sounds[j] + le32(data, inst.headers[j] as int) <= data.len()
        }
}

proof fn lemma_placed(data: Seq<u8>, at: int)
    requires
        0 <= at,
        data.len() <= usize::MAX,
    ensures
        instrument_at(data, at) matches Some(v) ==> placed(v.0, data),
{
    if instrument_at(data, at) is Some {
        let size = le32(data, at);
        let n = le16(data, at + 27);
        let inst = instrument_at(data, at)->0;
        if n > 0 {
            assert forall|j: int| 0 <= j < n implies {
                &&& (#[trigger] inst.0.headers[j]) + 40 <= data.len()
                &&& inst.0.sounds[j] + le32(data, inst.0.headers[j] as int) <= data.len()
            } by {
                lemma_sound_grows(data, at + size, n, j, n);
            }
        }
    }
}

pub(crate) proof fn lemma_all_placed(data: Seq<u8>, at: int, n: nat)
    requires
        0 <= at,
        data.len() <= usize::MAX,
    ensures
        instruments_at(data, at, n) matches Some(v) ==> v.1 >= 0 && v.0.len() == n && forall|i: int|
            0 <= i < v.0.len() ==> placed(#[trigger] v.0[i], data),
    decreases n,
{
    if n > 0 {
        lemma_all_placed(data, at, (n - 1) as nat);
        match instruments_at(data, at, (n - 1) as nat) {
            Some((list, p)) => {
                lemma_placed(data, p);
                lemma_instrument_end(data, p);
            },
            None => {},
        }
    }
}

proof fn lemma_instrument_end(data: Seq<u8>, at: int)
    requires
        0 <= at,
    ensures
        instrument_at(data, at) matches Some(v) ==> v.1 >= 0,
{
    if instrument_at(data, at) is Some && le16(data, at + 27) > 0 {
        let n = le16(data, at + 27);
        lemma_sound_grows(data, at + le32(data, at), n, 0, n);
    }
}

fn build_sample(data: &[u8], index: u32, slot: Slot, list: &Vec<Instrument>, rates: &Vec<u32>) -> (r:
    Sample)
    requires
        slot.0 < list.len(),
        slot.1 < list[slot.0 as int]@.headers.len(),
        placed(list[slot.0 as int]@, data@),
        rates.len() == TUNINGS,
    ensures
        r@ == sample_of(data@, index, slot, instrument_views(list@), rates@),
{
    let inst: &Instrument = &list[slot.0];
    assert(instrument_views(list@)[slot.0 as int] == inst@);
    let total: usize = data.len();
    let h: usize = inst.headers[slot.1];
    let sound: usize = inst.sounds[slot.1];
    assert(inst@.headers[slot.1 as int] + 40 <= total);
    let length: usize = read_le32(data, h) as usize;
    let kind: u8 = data[h + 14];
    let wide: bool = kind / 16 % 2 == 1;
    let divisor: u32 = if wide {
        2
    } else {
        1
    };
    let t: i32 = read_signed8(data[h + 16]) * 128 + read_signed8(data[h + 13]) + 16512;
    let raw: &[u8] = vstd::slice::slice_subrange(data, sound, sound + length);
    let volume: u8 = data[h + 12];
    let pan: u8 = data[h + 15];
    let volume_envelope: Option<Envelope> = match &inst.volume_envelope {
        Some(e) => Some(e.clone()),
        None => None,
    };
    let panning_envelope: Option<Envelope> = match &inst.panning_envelope {
        Some(e) => Some(e.clone()),
        None => None,
    };
    Sample {
        index,
        name: trimmed_string(vstd::slice::slice_subrange(data, h + 18, h + 40)),
        pcm16: decode_pcm(raw, wide),
        sample_rate_hz: rates[t as usize],
        loop_start: read_le32(data, h + 4) / divisor,
        loop_length: if kind % 4 == 0 {
            0
        } else {
            read_le32(data, h + 8) / divisor
        },
        volume: if volume > 64 {
            64
        } else {
            volume as u32
        },
        finetune: 0,
        base_note: BASE_MIDI_NOTE,
        pan: if pan == 0 {
            -127
        } else {
            pan as i32 - 128
        },
        volume_envelope,
        panning_envelope,
        fadeout: inst.fadeout,
    }
}

/// What the volume column and the effect column of a cell come to: the volume, the effect and
/// its parameter.
///
/// Set Volume (0x10-0x50) is the cell's volume, and a Set Volume effect too where the cell has
/// neither a note nor an effect. Another command of the volume column takes the place of the
/// effect where there is none, and is dropped where there is one.
pub open spec fn columns(vol: u8, has_note: bool, effect: u8, param: u8) -> (
    Option<u32>,
    Option<u32>,
    Option<u32>,
) {
    let has_effect = effect != 0 || param != 0;
    let e = if has_effect {
        Some(effect as u32)
    } else {
        None
    };
    let p = if has_effect {
        Some(param as u32)
    } else {
        None
    };
    let low = (vol % 16) as u32;
    if 0x10 <= vol <= 0x50 {
        let value = (vol - 0x10) as u32;
        if !has_note && !has_effect {
            (Some(value), Some(0xCu32), Some(value))
        } else {
            (Some(value), e, p)
        }
    } else if vol == 0 || has_effect {
        (None, e, p)
    } else if vol / 16 == 0x6 {
        (None, Some(0xAu32), Some(low))
    } else if vol / 16 == 0x7 {
        (None, Some(0xAu32), Some((low * 16) as u32))
    } else if vol / 16 == 0x8 {
        (None, Some(0xEu32), Some((0xB0 + low) as u32))
    } else if vol / 16 == 0x9 {
        (None, Some(0xEu32), Some((0xA0 + low) as u32))
    } else if vol / 16 == 0xB {
        (None, Some(0x4u32), Some(low))
    } else if vol / 16 == 0xC {
        (None, Some(0x8u32), Some((low * 17) as u32))
    } else if vol / 16 == 0xF {
        (None, Some(0x3u32), Some(0u32))
    } else {
        (None, None, None)
    }
}

/// Where a cell has a command in its effect column, that command stands, whatever the volume
/// column says.
pub proof fn law_effect_column_wins(vol: u8, has_note: bool, effect: u8, param: u8)
    requires
        effect != 0 || param != 0,
    ensures
        columns(vol, has_note, effect, param).1 == Some(effect as u32),
        columns(vol, has_note, effect, param).2 == Some(param as u32),
{
}

/// The volume column sets a volume exactly where it holds one, and never one beyond 64.
pub proof fn law_volumes_are_tracker_volumes(vol: u8, has_note: bool, effect: u8, param: u8)
    ensures
        columns(vol, has_note, effect, param).0 is Some <==> 0x10 <= vol <= 0x50,
        columns(vol, has_note, effect, param).0 matches Some(v) ==> v <= 64,
{
}

fn resolve_volume_column(vol: u8, has_note: bool, effect: u8, param: u8) -> (r: (
    Option<u32>,
    Option<u32>,
    Option<u32>,
))
    ensures
        r == columns(vol, has_note, effect, param),
{
    let has_effect: bool = effect != 0 || param != 0;
    let e: Option<u32> = if has_effect {
        Some(effect as u32)
    } else {
        None
    };
    let p: Option<u32> = if has_effect {
        Some(param as u32)
    } else {
        None
    };
    let low: u32 = (vol % 16) as u32;
    if 0x10 <= vol && vol <= 0x50 {
        let value: u32 = (vol - 0x10) as u32;
        if !has_note && !has_effect {
            (Some(value), Some(0xC), Some(value))
        } else {
            (Some(value), e, p)
        }
    } else if vol == 0 || has_effect {
        (None, e, p)
    } else {
        match vol / 16 {
            0x6 => (None, Some(0xA), Some(low)),
            0x7 => (None, Some(0xA), Some(low * 16)),
            0x8 => (None, Some(0xE), Some(0xB0 + low)),
            0x9 => (None, Some(0xE), Some(0xA0 + low)),
            0xB => (None, Some(0x4), Some(low)),
            0xC => (None, Some(0x8), Some(low * 17)),
            0xF => (None, Some(0x3), Some(0)),
            _ => (None, None, None),
        }
    }
}

/// The cell of the IR: its sample is the number of the slot that it plays.
pub open spec fn cell_of(raw: RawCell, slot: Option<Slot>, list: Seq<Slot>) -> Cell {
    let has_note = 1 <= raw.note <= 96;
    let sample_index = match slot {
        Some(x) => number_of(list, x),
        None => None,
    };
    let c = columns(raw.volume, has_note, raw.effect, raw.effect_param);
    let midi_note = if has_note && sample_index is Some {
        Some((raw.note + NOTE_OFFSET) as i32)
    } else {
        None
    };
    Cell {
        sample_index,
        midi_note,
        volume: c.0,
        effect: c.1,
        effect_param: c.2,
        note_off: (raw.note == KEY_OFF_NOTE || raw.effect as u32 == EFFECT_KEY_OFF)
            && midi_note is None,
    }
}

/// A cell that starts a note does not release one, and one that does not start a note releases
/// one exactly where it says so.
pub proof fn law_notes_start_or_end(raw: RawCell, slot: Option<Slot>, list: Seq<Slot>)
    ensures
        ({
            let c = cell_of(raw, slot, list);
            &&& !(c.note_off && c.midi_note is Some)
            &&& c.midi_note is None ==> (c.note_off <==> raw.note == KEY_OFF_NOTE
                || raw.effect as u32 == EFFECT_KEY_OFF)
        }),
{
}

fn find_number(list: &Vec<Slot>, x: Slot) -> (r: Option<u32>)
    ensures
        r == number_of(list@, x),
{
    let mut n: usize = list.len();
    assert(list@.take(n as int) =~= list@);
    while n > 0
        invariant
            n <= list.len(),
            number_of(list@.take(n as int), x) == number_of(list@, x),
        decreases n,
    {
        assert(list@.take(n as int).drop_last() =~= list@.take(n - 1));
        assert(list@.take(n as int).last() == list[n - 1]);
        if list[n - 1].0 == x.0 && list[n - 1].1 == x.1 {
            return Some(n as u32);
        }
        n -= 1;
    }
    None
}

fn build_cell(raw: &RawCell, slot: Option<Slot>, list: &Vec<Slot>) -> (r: Cell)
    ensures
        r == cell_of(*raw, slot, list@),
{
    let has_note: bool = 1 <= raw.note && raw.note <= 96;
    let sample_index: Option<u32> = match slot {
        Some(x) => find_number(list, x),
        None => None,
    };
    let (volume, effect, effect_param) = resolve_volume_column(
        raw.volume,
        has_note,
        raw.effect,
        raw.effect_param,
    );
    let midi_note: Option<i32> = if has_note && sample_index.is_some() {
        Some(raw.note as i32 + NOTE_OFFSET)
    } else {
        None
    };
    Cell {
        sample_index,
        midi_note,
        volume,
        effect,
        effect_param,
        note_off: (raw.note == KEY_OFF_NOTE || raw.effect as u32 == EFFECT_KEY_OFF)
            && midi_note.is_none(),
    }
}

fn resolve_sample_slot(note: u8, instrument: Option<usize>, list: &Vec<Instrument>) -> (r: Option<
    Slot,
>)
    requires
        forall|i: int| 0 <= i < list.len() ==> (#[trigger] list[i])@.keymap.len() == 96,
    ensures
        r == slot_of(note, instrument, instrument_views(list@)),
        r matches Some(x) ==> x.0 < list.len() && x.1 < list[x.0 as int]@.headers.len(),
{
    match instrument {
        Some(i) => if 1 <= note && note <= 96 && i < list.len() {
            assert(instrument_views(list@)[i as int] == list[i as int]@);
            let sample: usize = list[i].keymap[note as usize - 1] as usize;
            if sample < list[i].headers.len() {
                Some((i, sample))
            } else {
                None
            }
        } else {
            None
        },
        None => None,
    }
}

/// The slots of the given rows.
pub open spec fn slot_rows(rows: Seq<Vec<Option<Slot>>>) -> Seq<Seq<Option<Slot>>> {
    rows.map_values(|r: Vec<Option<Slot>>| r@)
}

/// The slots of the given patterns.
pub open spec fn slot_patterns(patterns: Seq<Vec<Vec<Option<Slot>>>>) -> Seq<
    Seq<Seq<Option<Slot>>>,
> {
    patterns.map_values(|p: Vec<Vec<Option<Slot>>>| slot_rows(p@))
}

/// The instruments of the given rows.
pub open spec fn instrument_rows(rows: Seq<Vec<Option<usize>>>) -> Seq<Seq<Option<usize>>> {
    rows.map_values(|r: Vec<Option<usize>>| r@)
}

/// The instruments of the given patterns.
pub open spec fn instrument_patterns(patterns: Seq<Vec<Vec<Option<usize>>>>) -> Seq<
    Seq<Seq<Option<usize>>>,
> {
    patterns.map_values(|p: Vec<Vec<Option<usize>>>| instrument_rows(p@))
}

/// No row has more than `channels` cells.
pub open spec fn rows_fit(patterns: Seq<Seq<Seq<RawCell>>>, channels: int) -> bool {
    forall|p: int, r: int|
        0 <= p < patterns.len() && 0 <= r < patterns[p].len() ==> (
        #[trigger] patterns[p][r]).len() <= channels
}

proof fn lemma_row_len(data: Seq<u8>, at: int, n: nat)
    ensures
        row_at(data, at, n) matches Some(v) ==> v.0.len() == n,
    decreases n,
{
    if n > 0 {
        lemma_row_len(data, at, (n - 1) as nat);
    }
}

proof fn lemma_rows_len(data: Seq<u8>, at: int, n: nat, channels: nat)
    ensures
        rows_at(data, at, n, channels) matches Some(v) ==> forall|r: int|
            0 <= r < v.0.len() ==> (#[trigger] v.0[r]).len() == channels,
    decreases n,
{
    if n > 0 {
        lemma_rows_len(data, at, (n - 1) as nat, channels);
        match rows_at(data, at, (n - 1) as nat, channels) {
            Some((rows, p)) => {
                lemma_row_len(data, p, channels);
            },
            None => {},
        }
    }
}

proof fn lemma_rows_fit(data: Seq<u8>, at: int, n: nat, channels: nat)
    ensures
        patterns_at(data, at, n, channels) matches Some(v) ==> rows_fit(v.0, channels as int),
    decreases n,
{
    if n > 0 {
        lemma_rows_fit(data, at, (n - 1) as nat, channels);
        match patterns_at(data, at, (n - 1) as nat, channels) {
            Some((patterns, p)) => {
                let cells = p + le32(data, p);
                lemma_rows_len(data, cells, le16(data, p + 5) as nat, channels);
            },
            None => {},
        }
    }
}

/// Finds the instrument in effect on each cell.
pub fn effective_instruments(patterns: &Vec<Vec<Vec<RawCell>>>, channels: usize) -> (r: Vec<
    Vec<Vec<Option<usize>>>,
>)
    requires
        rows_fit(raw_patterns(patterns@), channels as int),
    ensures
        instrument_patterns(r@) == effective_of(raw_patterns(patterns@)),
{
    let ghost raw = raw_patterns(patterns@);
    let ghost whole = effective_of(raw);
    let mut current: Vec<Option<usize>> = Vec::new();
    let mut z: usize = 0;
    while z < channels
        invariant
            z <= channels,
            current.len() == z,
            forall|c: int| 0 <= c < z ==> (#[trigger] current[c]) is None,
        decreases channels - z,
    {
        current.push(None);
        z += 1;
    }
    let mut out: Vec<Vec<Vec<Option<usize>>>> = Vec::new();
    let mut p: usize = 0;
    assert(instrument_patterns(out@) =~= whole.take(0));
    while p < patterns.len()
        invariant
            p <= patterns.len(),
            raw == raw_patterns(patterns@),
            whole == effective_of(raw),
            rows_fit(raw, channels as int),
            current.len() == channels,
            forall|c: int|
                0 <= c < channels ==> #[trigger] current[c] == after_patterns(raw, c, p as int),
            instrument_patterns(out@) == whole.take(p as int),
        decreases patterns.len() - p,
    {
        let pattern: &Vec<Vec<RawCell>> = &patterns[p];
        assert(raw[p as int] == raw_rows(pattern@));
        let mut rows: Vec<Vec<Option<usize>>> = Vec::new();
        let mut r: usize = 0;
        assert(instrument_rows(rows@) =~= whole[p as int].take(0));
        while r < pattern.len()
            invariant
                r <= pattern.len(),
                p < patterns.len(),
                pattern == patterns[p as int],
                raw == raw_patterns(patterns@),
                raw[p as int] == raw_rows(pattern@),
                whole == effective_of(raw),
                rows_fit(raw, channels as int),
                current.len() == channels,
                forall|c: int|
                    0 <= c < channels ==> #[trigger] current[c] == after_rows(
                        raw[p as int],
                        after_patterns(raw, c, p as int),
                        c,
                        r as int,
                    ),
                instrument_rows(rows@) == whole[p as int].take(r as int),
            decreases pattern.len() - r,
        {
            let cells: &Vec<RawCell> = &pattern[r];
            assert(raw[p as int][r as int] == cells@);
            let mut row: Vec<Option<usize>> = Vec::new();
            let mut c: usize = 0;
            while c < cells.len()
                invariant
                    c <= cells.len() <= channels,
                    p < raw.len(),
                    r < raw[p as int].len(),
                    raw[p as int][r as int] == cells@,
                    whole == effective_of(raw),
                    current.len() == channels,
                    forall|k: int|
                        0 <= k < channels ==> #[trigger] current[k] == after_rows(
                            raw[p as int],
                            after_patterns(raw, k, p as int),
                            k,
                            if k < c {
                                r + 1
                            } else {
                                r as int
                            },
                        ),
                    row@ == whole[p as int][r as int].take(c as int),
                decreases cells.len() - c,
            {
                if cells[c].instrument > 0 {
                    current[c] = Some((cells[c].instrument - 1) as usize);
                }
                assert(current[c as int] == effective(raw, p as int, r as int, c as int));
                row.push(current[c]);
                assert(row@ =~= whole[p as int][r as int].take(c + 1));
                c += 1;
            }
            proof {
                assert(row@ =~= whole[p as int][r as int]);
                assert(instrument_rows(rows@.push(row)) =~= instrument_rows(rows@).push(row@));
                assert(whole[p as int].take(r + 1) =~= whole[p as int].take(r as int).push(row@));
            }
            rows.push(row);
            r += 1;
        }
        proof {
            assert(whole[p as int].take(r as int) =~= whole[p as int]);
            assert(instrument_patterns(out@.push(rows)) =~= instrument_patterns(out@).push(
                instrument_rows(rows@),
            ));
            assert(whole.take(p + 1) =~= whole.take(p as int).push(instrument_rows(rows@)));
        }
        out.push(rows);
        p += 1;
    }
    assert(whole.take(p as int) =~= whole);
    out
}

/// The sample that each cell plays, for all cells.
fn resolve_slots(patterns: &Vec<Vec<Vec<RawCell>>>, list: &Vec<Instrument>, channels: usize) -> (r:
    Vec<Vec<Vec<Option<Slot>>>>)
    requires
        rows_fit(raw_patterns(patterns@), channels as int),
        forall|i: int| 0 <= i < list.len() ==> (#[trigger] list[i])@.keymap.len() == 96,
    ensures
        slot_patterns(r@) == slots_of(raw_patterns(patterns@), instrument_views(list@)),
{
    let ghost raw = raw_patterns(patterns@);
    let ghost insts = instrument_views(list@);
    let ghost whole = slots_of(raw, insts);
    let instruments: Vec<Vec<Vec<Option<usize>>>> = effective_instruments(patterns, channels);
    let mut out: Vec<Vec<Vec<Option<Slot>>>> = Vec::new();
    let mut p: usize = 0;
    assert(instrument_patterns(instruments@).len() == raw.len());
    assert(slot_patterns(out@) =~= whole.take(0));
    while p < patterns.len()
        invariant
            p <= patterns.len(),
            instruments.len() == patterns.len(),
            raw == raw_patterns(patterns@),
            insts == instrument_views(list@),
            whole == slots_of(raw, insts),
            instrument_patterns(instruments@) == effective_of(raw),
            forall|i: int| 0 <= i < list.len() ==> (#[trigger] list[i])@.keymap.len() == 96,
            slot_patterns(out@) == whole.take(p as int),
        decreases patterns.len() - p,
    {
        let pattern: &Vec<Vec<RawCell>> = &patterns[p];
        let named: &Vec<Vec<Option<usize>>> = &instruments[p];
        assert(raw[p as int] == raw_rows(pattern@));
        assert(instrument_patterns(instruments@)[p as int] == instrument_rows(named@));
        assert(instrument_rows(named@).len() == pattern.len());
        let mut rows: Vec<Vec<Option<Slot>>> = Vec::new();
        let mut r: usize = 0;
        assert(slot_rows(rows@) =~= whole[p as int].take(0));
        while r < pattern.len()
            invariant
                r <= pattern.len(),
                p < raw.len(),
                named.len() == pattern.len(),
                raw[p as int] == raw_rows(pattern@),
                insts == instrument_views(list@),
                whole == slots_of(raw, insts),
                instrument_rows(named@) == effective_of(raw)[p as int],
                forall|i: int| 0 <= i < list.len() ==> (#[trigger] list[i])@.keymap.len() == 96,
                slot_rows(rows@) == whole[p as int].take(r as int),
            decreases pattern.len() - r,
        {
            let cells: &Vec<RawCell> = &pattern[r];
            let playing: &Vec<Option<usize>> = &named[r];
            assert(raw[p as int][r as int] == cells@);
            assert(instrument_rows(named@)[r as int] == playing@);
            let mut slots: Vec<Option<Slot>> = Vec::new();
            let mut c: usize = 0;
            while c < cells.len()
                invariant
                    c <= cells.len(),
                    p < raw.len(),
                    r < raw[p as int].len(),
                    playing.len() == cells.len(),
                    raw[p as int][r as int] == cells@,
                    playing@ == effective_of(raw)[p as int][r as int],
                    insts == instrument_views(list@),
                    whole == slots_of(raw, insts),
                    forall|i: int| 0 <= i < list.len() ==> (#[trigger] list[i])@.keymap.len() == 96,
                    slots@ == whole[p as int][r as int].take(c as int),
                decreases cells.len() - c,
            {
                assert(playing[c as int] == effective(raw, p as int, r as int, c as int));
                slots.push(resolve_sample_slot(cells[c].note, playing[c], list));
                assert(slots@ =~= whole[p as int][r as int].take(c + 1));
                c += 1;
            }
            proof {
                assert(slots@ =~= whole[p as int][r as int]);
                assert(slot_rows(rows@.push(slots)) =~= slot_rows(rows@).push(slots@));
                assert(whole[p as int].take(r + 1) =~= whole[p as int].take(r as int).push(slots@));
            }
            rows.push(slots);
            r += 1;
        }
        proof {
            assert(whole[p as int].take(r as int) =~= whole[p as int]);
            assert(slot_patterns(out@.push(rows)) =~= slot_patterns(out@).push(slot_rows(rows@)));
            assert(whole.take(p + 1) =~= whole.take(p as int).push(slot_rows(rows@)));
        }
        out.push(rows);
        p += 1;
    }
    assert(whole.take(p as int) =~= whole);
    out
}

fn put_slot(list: &mut Vec<Slot>, x: Slot)
    ensures
        final(list)@ == with_slot(old(list)@, x),
{
    let ghost start = list@;
    let mut i: usize = list.len();
    let ghost mut tail: Seq<Slot> = Seq::empty();
    assert(start.take(i as int) =~= start);
    assert(with_slot(start, x) + tail =~= with_slot(start, x));
    assert(start.take(i as int) + tail =~= start);
    while i > 0 && !(list[i - 1].0 < x.0 || (list[i - 1].0 == x.0 && list[i - 1].1 <= x.1))
        invariant
            i <= list.len(),
            list@ == start,
            start.take(i as int) + tail == start,
            with_slot(start.take(i as int), x) + tail == with_slot(start, x),
        decreases i,
    {
        proof {
            let cur = start.take(i as int);
            assert(cur.last() == list[i - 1]);
            assert(cur.drop_last() =~= start.take(i - 1));
            assert(with_slot(cur.drop_last(), x).push(cur.last()) + tail =~= with_slot(
                start.take(i - 1),
                x,
            ) + (seq![cur.last()] + tail));
            assert(start.take(i - 1) + (seq![cur.last()] + tail) =~= start.take(i as int) + tail);
            tail = seq![cur.last()] + tail;
        }
        i -= 1;
    }
    if i > 0 && list[i - 1].0 == x.0 && list[i - 1].1 == x.1 {
        assert(start.take(i as int).last() == x);
        return ;
    }
    proof {
        let cur = start.take(i as int);
        if i > 0 {
            assert(cur.last() == list[i - 1]);
        }
        assert(with_slot(cur, x) == cur.push(x));
        assert(cur.push(x) + tail =~= start.insert(i as int, x));
    }
    list.insert(i, x);
}

fn collect_reachable(slots: &Vec<Vec<Vec<Option<Slot>>>>) -> (r: Vec<Slot>)
    ensures
        r@ == reachable(slot_patterns(slots@)),
{
    let ghost views = slot_patterns(slots@);
    let mut list: Vec<Slot> = Vec::new();
    let mut p: usize = 0;
    assert(views.take(0) =~= Seq::<Seq<Seq<Option<Slot>>>>::empty());
    while p < slots.len()
        invariant
            p <= slots.len(),
            views == slot_patterns(slots@),
            list@ == reachable(views.take(p as int)),
        decreases slots.len() - p,
    {
        let rows: &Vec<Vec<Option<Slot>>> = &slots[p];
        let ghost before = list@;
        let ghost row_views = slot_rows(rows@);
        proof {
            assert(views[p as int] == row_views);
            assert(views.take(p + 1).drop_last() =~= views.take(p as int));
            assert(row_views.take(0) =~= Seq::<Seq<Option<Slot>>>::empty());
        }
        let mut r: usize = 0;
        while r < rows.len()
            invariant
                r <= rows.len(),
                row_views == slot_rows(rows@),
                list@ == with_pattern(before, row_views.take(r as int)),
            decreases rows.len() - r,
        {
            let row: &Vec<Option<Slot>> = &rows[r];
            let ghost row_before = list@;
            proof {
                assert(row_views[r as int] == row@);
                assert(row_views.take(r + 1).drop_last() =~= row_views.take(r as int));
                assert(row@.take(0) =~= Seq::<Option<Slot>>::empty());
            }
            let mut c: usize = 0;
            while c < row.len()
                invariant
                    c <= row.len(),
                    list@ == with_row(row_before, row@.take(c as int)),
                decreases row.len() - c,
            {
                proof {
                    assert(row@.take(c + 1).drop_last() =~= row@.take(c as int));
                    assert(row@.take(c + 1).last() == row[c as int]);
                }
                if let Some(x) = row[c] {
                    put_slot(&mut list, x);
                }
                c += 1;
            }
            assert(row@.take(c as int) =~= row@);
            r += 1;
        }
        assert(row_views.take(r as int) =~= row_views);
        p += 1;
    }
    assert(views.take(p as int) =~= views);
    list
}

/// The patterns of the IR.
pub open spec fn cells_of(
    patterns: Seq<Seq<Seq<RawCell>>>,
    slots: Seq<Seq<Seq<Option<Slot>>>>,
    list: Seq<Slot>,
) -> Seq<Seq<Seq<Cell>>> {
    Seq::new(
        patterns.len(),
        |p: int|
            Seq::new(
                patterns[p].len(),
                |r: int|
                    Seq::new(
                        patterns[p][r].len(),
                        |c: int| cell_of(patterns[p][r][c], slots[p][r][c], list),
                    ),
            ),
    )
}

/// What the parts of a file hold: the patterns, the instruments and the samples that are
/// played.
pub struct Parts {
    pub patterns: Seq<Seq<Seq<RawCell>>>,
    pub instruments: Seq<InstrumentView>,
}

/// The parts of a file; `None` where it is incomplete.
pub open spec fn parts_of(data: Seq<u8>) -> Option<Parts> {
    if data.len() < 336 {
        None
    } else {
        match patterns_at(
            data,
            60 + le32(data, 60),
            le16(data, 70) as nat,
            le16(data, 68) as nat,
        ) {
            None => None,
            Some((patterns, at)) => match instruments_at(data, at, le16(data, 72) as nat) {
                None => None,
                Some((instruments, _)) => Some(Parts { patterns, instruments }),
            },
        }
    }
}

/// The song of the file: its length bounds the order table, which has 256 entries.
pub open spec fn order_of(data: Seq<u8>) -> Seq<u32> {
    let n = if le16(data, 64) < 256 {
        le16(data, 64)
    } else {
        256
    };
    data.subrange(80, 80 + n).map_values(|b: u8| b as u32)
}

/// The module that a complete file holds.
pub open spec fn module_of(data: Seq<u8>, rates: Seq<u32>) -> ModuleView {
    let parts = parts_of(data)->0;
    let slots = slots_of(parts.patterns, parts.instruments);
    let list = reachable(slots);
    ModuleView {
        title: title_or_default(field_text(data.subrange(17, 37))),
        source_format: "fasttracker2"@,
        num_channels: le16(data, 68) as usize,
        samples: Seq::new(
            list.len(),
            |i: int| sample_of(data, (i + 1) as u32, list[i], parts.instruments, rates),
        ),
        patterns: cells_of(parts.patterns, slots, list),
        order: order_of(data),
        restart_position: le16(data, 66) as u32,
        initial_tempo_bpm: le16(data, 78) as u32,
        initial_speed_ticks: le16(data, 76) as u32,
        linear_frequency_table: le16(data, 74) % 2 == 1,
    }
}

/// Whatever a file holds, its volumes go up to 64, and each of its cells starts a note or releases
/// one, not both.
pub proof fn law_modules_fit(data: Seq<u8>, rates: Seq<u32>)
    ensures
        module_of(data, rates).cells_and_samples_fit(),
{
}

/// The file is complete: nothing that it announces lies behind its end.
pub open spec fn complete(data: Seq<u8>) -> bool {
    parts_of(data) is Some
}

fn read_parts(data: &[u8]) -> (r: Option<(Vec<Vec<Vec<RawCell>>>, Vec<Instrument>)>)
    ensures
        match r {
            Some((patterns, instruments)) => parts_of(data@) matches Some(v) && v.patterns
                == raw_patterns(patterns@) && v.instruments == instrument_views(instruments@)
                && rows_fit(v.patterns, le16(data@, 68)) && forall|i: int|
                0 <= i < v.instruments.len() ==> placed(#[trigger] v.instruments[i], data@),
            None => parts_of(data@) is None,
        },
{
    let total: usize = data.len();
    if total < 336 {
        return None;
    }
    let channels: usize = read_le16(data, 68) as usize;
    let at: u128 = 60 + read_le32(data, 60) as u128;
    let (patterns, next) = match read_patterns(data, at, read_le16(data, 70) as usize, channels) {
        Some(v) => v,
        None => {
            return None;
        },
    };
    proof {
        lemma_rows_fit(data@, at as int, le16(data@, 70) as nat, channels as nat);
        lemma_all_placed(data@, next as int, le16(data@, 72) as nat);
    }
    match read_instruments(data, next, read_le16(data, 72) as usize) {
        Some(instruments) => Some((patterns, instruments)),
        None => None,
    }
}

/// Whether the file is complete.
pub fn is_complete(data: &[u8]) -> (r: bool)
    ensures
        r == complete(data@),
{
    read_parts(data).is_some()
}

fn build_patterns(
    patterns: &Vec<Vec<Vec<RawCell>>>,
    slots: &Vec<Vec<Vec<Option<Slot>>>>,
    list: &Vec<Slot>,
) -> (r: Vec<Pattern>)
    requires
        slot_patterns(slots@).len() == raw_patterns(patterns@).len(),
        forall|p: int|
            0 <= p < patterns.len() ==> (#[trigger] slot_patterns(slots@)[p]).len()
                == raw_patterns(patterns@)[p].len(),
        forall|p: int, r: int|
            0 <= p < patterns.len() && 0 <= r < patterns[p].len() ==> (#[trigger] slot_patterns(
                slots@,
            )[p][r]).len() == raw_patterns(patterns@)[p][r].len(),
    ensures
        patterns_view(r@) == cells_of(raw_patterns(patterns@), slot_patterns(slots@), list@),
{
    let ghost raw = raw_patterns(patterns@);
    let ghost sv = slot_patterns(slots@);
    let ghost whole = cells_of(raw, sv, list@);
    let mut out: Vec<Pattern> = Vec::new();
    let mut p: usize = 0;
    assert(patterns_view(out@) =~= whole.take(0));
    while p < patterns.len()
        invariant
            p <= patterns.len(),
            raw == raw_patterns(patterns@),
            sv == slot_patterns(slots@),
            whole == cells_of(raw, sv, list@),
            sv.len() == raw.len(),
            forall|q: int| 0 <= q < patterns.len() ==> (#[trigger] sv[q]).len() == raw[q].len(),
            forall|q: int, r: int|
                0 <= q < patterns.len() && 0 <= r < patterns[q].len() ==> (
                #[trigger] sv[q][r]).len() == raw[q][r].len(),
            patterns_view(out@) == whole.take(p as int),
        decreases patterns.len() - p,
    {
        let raws: &Vec<Vec<RawCell>> = &patterns[p];
        assert(raw[p as int] == raw_rows(raws@));
        assert(sv[p as int] == slot_rows(slots[p as int]@));
        let pattern_slots: &Vec<Vec<Option<Slot>>> = &slots[p];
        let mut rows: Vec<Vec<Cell>> = Vec::new();
        let mut r: usize = 0;
        assert(rows_view(rows@) =~= whole[p as int].take(0));
        while r < raws.len()
            invariant
                r <= raws.len(),
                p < patterns.len(),
                raws == patterns[p as int],
                pattern_slots == slots[p as int],
                raw == raw_patterns(patterns@),
                sv == slot_patterns(slots@),
                raw[p as int] == raw_rows(raws@),
                sv[p as int] == slot_rows(pattern_slots@),
                sv[p as int].len() == raw[p as int].len(),
                whole == cells_of(raw, sv, list@),
                forall|q: int, k: int|
                    0 <= q < patterns.len() && 0 <= k < patterns[q].len() ==> (
                    #[trigger] sv[q][k]).len() == raw[q][k].len(),
                rows_view(rows@) == whole[p as int].take(r as int),
            decreases raws.len() - r,
        {
            let cells: &Vec<RawCell> = &raws[r];
            let row_slots: &Vec<Option<Slot>> = &pattern_slots[r];
            assert(raw[p as int][r as int] == cells@);
            assert(sv[p as int][r as int] == row_slots@);
            let mut row: Vec<Cell> = Vec::new();
            let mut c: usize = 0;
            while c < cells.len()
                invariant
                    c <= cells.len(),
                    cells.len() == row_slots.len(),
                    p < raw.len(),
                    r < raw[p as int].len(),
                    raw[p as int][r as int] == cells@,
                    sv[p as int][r as int] == row_slots@,
                    whole == cells_of(raw, sv, list@),
                    row@ == whole[p as int][r as int].take(c as int),
                decreases cells.len() - c,
            {
                row.push(build_cell(&cells[c], row_slots[c], list));
                assert(row@ =~= whole[p as int][r as int].take(c + 1));
                c += 1;
            }
            proof {
                assert(row@ =~= whole[p as int][r as int]);
                assert(rows_view(rows@.push(row)) =~= rows_view(rows@).push(row@));
                assert(whole[p as int].take(r + 1) =~= whole[p as int].take(r as int).push(row@));
            }
            rows.push(row);
            r += 1;
        }
        let pattern = Pattern { rows };
        proof {
            assert(whole[p as int].take(r as int) =~= whole[p as int]);
            assert(patterns_view(out@.push(pattern)) =~= patterns_view(out@).push(pattern@));
            assert(whole.take(p + 1) =~= whole.take(p as int).push(pattern@));
        }
        out.push(pattern);
        p += 1;
    }
    assert(whole.take(p as int) =~= whole);
    out
}

/// Parses a complete file. `rates` holds the sample rate of each tuning.
pub fn parse(data: &[u8], rates: &Vec<u32>) -> (r: Module)
    requires
        complete(data@),
        rates.len() == TUNINGS,
    ensures
        r@ == module_of(data@, rates@),
{
    let ghost parts = parts_of(data@)->0;
    let (patterns, instruments) = match read_parts(data) {
        Some(v) => v,
        None => (Vec::new(), Vec::new()),
    };
    let total: usize = data.len();
    let channels: usize = read_le16(data, 68) as usize;
    proof {
        assert forall|i: int| 0 <= i < instruments.len() implies (
        #[trigger] instruments[i])@.keymap.len() == 96 && placed(instruments[i]@, data@) by {
            assert(parts.instruments[i] == instruments[i]@);
        }
    }
    let slots: Vec<Vec<Vec<Option<Slot>>>> = resolve_slots(&patterns, &instruments, channels);
    let list: Vec<Slot> = collect_reachable(&slots);
    let ghost all_slots = slots_of(parts.patterns, parts.instruments);
    proof {
        law_reachable_samples(all_slots);
        assert forall|i: int| 0 <= i < list.len() implies (#[trigger] list[i]).0
            < instruments.len() && list[i].1 < instruments[list[i].0 as int]@.headers.len() by {
            assert(list@.contains(list[i]));
            let p = choose|p: int|
                0 <= p < all_slots.len() && plays_in(#[trigger] all_slots[p], list[i]);
            let r = choose|r: int|
                0 <= r < all_slots[p].len() && (#[trigger] all_slots[p][r]).contains(
                    Some(list[i]),
                );
            let row = all_slots[p][r];
            let c = choose|c: int| 0 <= c < row.len() && row[c] == Some(list[i]);
            assert(row[c] == slot_of(
                parts.patterns[p][r][c].note,
                effective(parts.patterns, p, r, c),
                parts.instruments,
            ));
            assert(parts.instruments[list[i].0 as int] == instruments[list[i].0 as int]@);
        }
    }
    let mut samples: Vec<Sample> = Vec::new();
    let ghost whole = Seq::new(
        list.len() as nat,
        |i: int| sample_of(data@, (i + 1) as u32, list@[i], parts.instruments, rates@),
    );
    let mut i: usize = 0;
    assert(sample_views(samples@) =~= whole.take(0));
    while i < list.len()
        invariant
            i <= list.len(),
            rates.len() == TUNINGS,
            parts.instruments == instrument_views(instruments@),
            forall|k: int|
                0 <= k < list.len() ==> (#[trigger] list[k]).0 < instruments.len() && list[k].1
                    < instruments[list[k].0 as int]@.headers.len(),
            forall|k: int|
                0 <= k < instruments.len() ==> placed((#[trigger] instruments[k])@, data@),
            whole == Seq::new(
                list.len() as nat,
                |i: int| sample_of(data@, (i + 1) as u32, list@[i], parts.instruments, rates@),
            ),
            sample_views(samples@) == whole.take(i as int),
        decreases list.len() - i,
    {
        assert(list[i as int].0 < instruments.len());
        let number: u32 = (i + 1) as u32;
        let sample: Sample = build_sample(data, number, list[i], &instruments, rates);
        proof {
            assert(whole[i as int] == sample@);
            assert(sample_views(samples@.push(sample)) =~= sample_views(samples@).push(sample@));
            assert(whole.take(i + 1) =~= whole.take(i as int).push(sample@));
        }
        samples.push(sample);
        i += 1;
    }
    assert(whole.take(i as int) =~= whole);
    let ir: Vec<Pattern> = build_patterns(&patterns, &slots, &list);
    let song_length: u16 = read_le16(data, 64);
    let n: usize = if song_length < 256 {
        song_length as usize
    } else {
        256
    };
    let mut order: Vec<u32> = Vec::new();
    let mut k: usize = 0;
    while k < n
        invariant
            k <= n <= 256,
            total == data@.len(),
            total >= 336,
            order_of(data@).len() == n,
            order@ == order_of(data@).take(k as int),
        decreases n - k,
    {
        order.push(data[80 + k] as u32);
        assert(order@ =~= order_of(data@).take(k + 1));
        k += 1;
    }
    assert(order@ =~= order_of(data@));
    let title: String = trimmed_string(vstd::slice::slice_subrange(data, 17, 37));
    let named: String = if title.as_str().is_empty() {
        "(untitled)".to_owned()
    } else {
        title
    };
    Module {
        title: named,
        source_format: "fasttracker2".to_owned(),
        num_channels: channels,
        samples,
        patterns: ir,
        order,
        restart_position: read_le16(data, 66) as u32,
        initial_tempo_bpm: read_le16(data, 78) as u32,
        initial_speed_ticks: read_le16(data, 76) as u32,
        linear_frequency_table: read_le16(data, 74) % 2 == 1,
    }
}

} // verus!
