//! Parser for VGM (Video Game Music) files and their gzip-compressed VGZ variant.
//!
//! A VGM file has no samples or patterns: it is a timestamped log of raw register writes to
//! one or more sound chips. Only commands whose length is known are recognized; anything else
//! is an error rather than a guess, since a wrong guess would desync the rest of the stream.
use crate::formats::bytes::{le16, le32, read_le16, read_le32};
use crate::formats::counts::{byte_bumped, bump_byte};
use crate::gzip::{gunzip, gunzipped, outcome};
use crate::text::{
    hex_lower, hex_upper, push_hex_lower, push_hex_upper, utf16_lossy, utf16_text, zero_padded,
};
use std::collections::BTreeMap;
use vstd::prelude::*;

verus! {

#[derive(Clone, Copy, Debug, PartialEq, Eq, Structural)]
pub enum Chip {
    Ym2413,
    Ay8910,
    Scc,
    Ym3526,
    Ym3812,
}

/// A version number is packed BCD: 0x151 is "1.51".
pub open spec fn version_text(version: u32) -> Seq<char> {
    hex_upper(version as int / 256) + "."@ + zero_padded(hex_upper(version as int % 256), 2)
}

pub fn version_string(version: u32) -> (r: String)
    ensures
        r@ == version_text(version),
{
    let mut out: String = String::new();
    push_hex_upper(&mut out, (version / 256) as u64, 1);
    assert(out@ =~= hex_upper(version as int / 256)) by {
        crate::text::lemma_digits_len(version as int / 256, 16, true);
    }
    out.append(".");
    push_hex_upper(&mut out, (version % 256) as u64, 2);
    out
}

/// The name of the chip that an unsupported command byte writes to.
pub open spec fn chip_name(cmd: u8) -> &'static str {
    match cmd {
        0x5C => "Y8950 (MSX-AUDIO FM)",
        0x5D => "YMZ280B",
        0x5E | 0x5F => "YMF262 (OPL3 FM)",
        _ if 0xA1 <= cmd && cmd <= 0xAF => "second AY8910/compatible PSG",
        0xB2 => "PWM",
        0xB5 => "MultiPCM",
        0xB6 => "uPD7759",
        0xB7 => "OKIM6258",
        0xB8 => "OKIM6295",
        0xB9 => "HuC6280",
        0xBA => "K053260",
        0xBB => "Pokey",
        0xBC => "WonderSwan",
        0xBD => "SAA1099",
        0xBE => "ES5506",
        0xBF => "GA20",
        0xC3 => "MultiPCM (bank select)",
        0xC4 => "QSound",
        0xC5 => "SCSP",
        0xC6 => "WonderSwan (memory write)",
        0xC7 => "VSU",
        0xC8 => "X1-010",
        0xD0 => "YMF278B",
        0xD1 => "YMF271",
        0xD3 => "K054539",
        0xD4 => "C140",
        0xD5 => "ES5503",
        0xD6 => "ES5506 (16-bit)",
        _ => "unknown chip",
    }
}

/// Human-readable chip name for an *unsupported* command byte.
pub fn unsupported_chip_name(cmd: u8) -> (r: &'static str)
    ensures
        r == chip_name(cmd),
{
    match cmd {
        0x5C => "Y8950 (MSX-AUDIO FM)",
        0x5D => "YMZ280B",
        0x5E | 0x5F => "YMF262 (OPL3 FM)",
        _ if 0xA1 <= cmd && cmd <= 0xAF => "second AY8910/compatible PSG",
        0xB2 => "PWM",
        0xB5 => "MultiPCM",
        0xB6 => "uPD7759",
        0xB7 => "OKIM6258",
        0xB8 => "OKIM6295",
        0xB9 => "HuC6280",
        0xBA => "K053260",
        0xBB => "Pokey",
        0xBC => "WonderSwan",
        0xBD => "SAA1099",
        0xBE => "ES5506",
        0xBF => "GA20",
        0xC3 => "MultiPCM (bank select)",
        0xC4 => "QSound",
        0xC5 => "SCSP",
        0xC6 => "WonderSwan (memory write)",
        0xC7 => "VSU",
        0xC8 => "X1-010",
        0xD0 => "YMF278B",
        0xD1 => "YMF271",
        0xD3 => "K054539",
        0xD4 => "C140",
        0xD5 => "ES5503",
        0xD6 => "ES5506 (16-bit)",
        _ => "unknown chip",
    }
}

/// One register write of the log.
#[derive(Clone, Copy, Debug, PartialEq, Eq, Structural)]
pub struct RegisterWrite {
    /// Absolute time in samples of 44100 Hz.
    pub at_sample: u64,
    pub chip: Chip,
    /// The sub-block of the SCC's address space; 0 for every other chip.
    pub port: u8,
    pub reg: u8,
    pub value: u8,
}

/// Which chips without a write log of their own were written to.
#[derive(Clone, Copy, Debug, PartialEq, Eq, Structural)]
pub struct Seen {
    pub ym2612: bool,
    pub ym2151: bool,
    pub ym2203: bool,
    pub ym2608: bool,
    pub ym2610: bool,
    pub segapcm: bool,
    pub rf5c68: bool,
    pub rf5c164: bool,
    pub gb_dmg: bool,
    pub nes_apu: bool,
}

/// Chip clocks in Hz; 0 for a chip that is absent.
#[derive(Clone, Copy, Debug, PartialEq, Eq, Structural)]
pub struct Clocks {
    pub ym2413: u32,
    pub ay8910: u32,
    pub scc: u32,
    pub ym3526: u32,
    pub ym3812: u32,
    pub ym2612: u32,
    pub ym2151: u32,
    pub ym2203: u32,
    pub ym2608: u32,
    pub ym2610: u32,
    pub segapcm: u32,
    pub rf5c68: u32,
    pub rf5c164: u32,
    pub gb_dmg: u32,
    pub nes_apu: u32,
}

/// A parsed VGM file.
#[derive(Debug)]
pub struct VgmFile {
    pub version: u32,
    pub ym2413_clock: u32,
    pub ay8910_clock: u32,
    pub scc_clock: u32,
    pub ym3526_clock: u32,
    pub ym3812_clock: u32,
    pub ym2612_clock: u32,
    pub ym2151_clock: u32,
    pub ym2203_clock: u32,
    pub ym2608_clock: u32,
    pub ym2610_clock: u32,
    pub segapcm_clock: u32,
    pub rf5c68_clock: u32,
    pub rf5c164_clock: u32,
    pub gb_dmg_clock: u32,
    pub nes_apu_clock: u32,
    /// Whether the header marks the AY8910 as a YM2149-compatible part.
    pub ay8910_is_ym: bool,
    pub total_samples: u64,
    pub loop_start_sample: Option<u64>,
    pub loop_samples: u64,
    pub title: Option<String>,
    pub game: Option<String>,
    pub system: Option<String>,
    pub author: Option<String>,
    pub writes: Vec<RegisterWrite>,
    /// Command bytes that are skipped, counted.
    pub unsupported_commands: BTreeMap<u8, u32>,
    /// The file's raw (gunzipped) bytes.
    pub raw_data: Vec<u8>,
}

/// What a `VgmFile` holds.
pub struct VgmFileView {
    pub version: u32,
    pub clocks: Clocks,
    pub ay8910_is_ym: bool,
    pub total_samples: u64,
    pub loop_start_sample: Option<u64>,
    pub loop_samples: u64,
    pub tags: Tags,
    pub writes: Seq<RegisterWrite>,
    pub unsupported_commands: Map<u8, u32>,
    pub raw_data: Seq<u8>,
}

/// The tags of a file.
pub struct Tags {
    pub title: Option<Seq<char>>,
    pub game: Option<Seq<char>>,
    pub system: Option<Seq<char>>,
    pub author: Option<Seq<char>>,
}

/// The text of an optional string.
pub open spec fn text_of(s: Option<String>) -> Option<Seq<char>> {
    match s {
        Some(t) => Some(t@),
        None => None,
    }
}

impl VgmFile {
    /// The clocks of the chips that are there.
    pub open spec fn clocks(&self) -> Clocks {
        Clocks {
            ym2413: self.ym2413_clock,
            ay8910: self.ay8910_clock,
            scc: self.scc_clock,
            ym3526: self.ym3526_clock,
            ym3812: self.ym3812_clock,
            ym2612: self.ym2612_clock,
            ym2151: self.ym2151_clock,
            ym2203: self.ym2203_clock,
            ym2608: self.ym2608_clock,
            ym2610: self.ym2610_clock,
            segapcm: self.segapcm_clock,
            rf5c68: self.rf5c68_clock,
            rf5c164: self.rf5c164_clock,
            gb_dmg: self.gb_dmg_clock,
            nes_apu: self.nes_apu_clock,
        }
    }
}

impl View for VgmFile {
    type V = VgmFileView;

    open spec fn view(&self) -> VgmFileView {
        VgmFileView {
            version: self.version,
            clocks: self.clocks(),
            ay8910_is_ym: self.ay8910_is_ym,
            total_samples: self.total_samples,
            loop_start_sample: self.loop_start_sample,
            loop_samples: self.loop_samples,
            tags: Tags {
                title: text_of(self.title),
                game: text_of(self.game),
                system: text_of(self.system),
                author: text_of(self.author),
            },
            writes: self.writes@,
            unsupported_commands: self.unsupported_commands@,
            raw_data: self.raw_data@,
        }
    }
}

/// The 32-bit number at `off`, 0 where the file is too short.
pub open spec fn u32_or_zero(data: Seq<u8>, off: int) -> u32 {
    if off + 4 <= data.len() {
        le32(data, off) as u32
    } else {
        0
    }
}

fn u32_at(data: &[u8], off: usize) -> (r: Option<u32>)
    ensures
        r == (if off + 4 <= data@.len() {
            Some(le32(data@, off as int) as u32)
        } else {
            None
        }),
{
    if data.len() >= 4 && off <= data.len() - 4 {
        Some(read_le32(data, off))
    } else {
        None
    }
}

fn number_at(data: &[u8], off: usize) -> (r: u32)
    ensures
        r == u32_or_zero(data@, off as int),
{
    match u32_at(data, off) {
        Some(n) => n,
        None => 0,
    }
}

/// The clock that every SCC runs at.
pub const SCC_CLOCK_HZ: u32 = 3_579_545;

/// Bits of a clock field that hold the clock.
pub const CLOCK_MODULUS: u32 = 0x4000_0000;

/// A clock that the header holds from a given version on, without its flag bits.
pub open spec fn masked_clock(data: Seq<u8>, version: u32, since: u32, off: int) -> u32 {
    if version >= since {
        u32_or_zero(data, off) % CLOCK_MODULUS
    } else {
        0
    }
}

/// A clock that the header holds from a given version on.
pub open spec fn plain_clock(data: Seq<u8>, version: u32, since: u32, off: int) -> u32 {
    if version >= since {
        u32_or_zero(data, off)
    } else {
        0
    }
}

/// The clocks as the header gives them. That of the SCC is always the one of the hardware: the
/// field only says whether the chip is there.
pub open spec fn header_clocks(data: Seq<u8>) -> Clocks {
    let v = u32_or_zero(data, 0x08);
    Clocks {
        ym2413: u32_or_zero(data, 0x10),
        ay8910: plain_clock(data, v, 0x151, 0x74),
        scc: if plain_clock(data, v, 0x151, 0x9C) > 0 {
            SCC_CLOCK_HZ
        } else {
            0
        },
        ym3526: plain_clock(data, v, 0x151, 0x54),
        ym3812: plain_clock(data, v, 0x151, 0x50),
        ym2612: masked_clock(data, v, 0x110, 0x2C),
        ym2151: masked_clock(data, v, 0x110, 0x30),
        ym2203: masked_clock(data, v, 0x151, 0x44),
        ym2608: masked_clock(data, v, 0x151, 0x48),
        ym2610: masked_clock(data, v, 0x151, 0x4C),
        segapcm: masked_clock(data, v, 0x151, 0x38),
        rf5c68: masked_clock(data, v, 0x151, 0x40),
        rf5c164: masked_clock(data, v, 0x151, 0x6C),
        gb_dmg: masked_clock(data, v, 0x161, 0x80),
        nes_apu: masked_clock(data, v, 0x161, 0x84),
    }
}

fn plain_clock_at(data: &[u8], version: u32, since: u32, off: usize) -> (r: u32)
    ensures
        r == plain_clock(data@, version, since, off as int),
{
    if version >= since {
        number_at(data, off)
    } else {
        0
    }
}

fn masked_clock_at(data: &[u8], version: u32, since: u32, off: usize) -> (r: u32)
    ensures
        r == masked_clock(data@, version, since, off as int),
{
    if version >= since {
        number_at(data, off) % CLOCK_MODULUS
    } else {
        0
    }
}

fn read_clocks(data: &[u8]) -> (r: Clocks)
    ensures
        r == header_clocks(data@),
{
    let v: u32 = number_at(data, 0x08);
    Clocks {
        ym2413: number_at(data, 0x10),
        ay8910: plain_clock_at(data, v, 0x151, 0x74),
        scc: if plain_clock_at(data, v, 0x151, 0x9C) > 0 {
            SCC_CLOCK_HZ
        } else {
            0
        },
        ym3526: plain_clock_at(data, v, 0x151, 0x54),
        ym3812: plain_clock_at(data, v, 0x151, 0x50),
        ym2612: masked_clock_at(data, v, 0x110, 0x2C),
        ym2151: masked_clock_at(data, v, 0x110, 0x30),
        ym2203: masked_clock_at(data, v, 0x151, 0x44),
        ym2608: masked_clock_at(data, v, 0x151, 0x48),
        ym2610: masked_clock_at(data, v, 0x151, 0x4C),
        segapcm: masked_clock_at(data, v, 0x151, 0x38),
        rf5c68: masked_clock_at(data, v, 0x151, 0x40),
        rf5c164: masked_clock_at(data, v, 0x151, 0x6C),
        gb_dmg: masked_clock_at(data, v, 0x161, 0x80),
        nes_apu: masked_clock_at(data, v, 0x161, 0x84),
    }
}

/// Whether the log writes to the chip.
pub open spec fn written(writes: Seq<RegisterWrite>, chip: Chip) -> bool {
    exists|i: int| 0 <= i < writes.len() && (#[trigger] writes[i]).chip == chip
}

fn is_written(writes: &Vec<RegisterWrite>, chip: Chip) -> (r: bool)
    ensures
        r == written(writes@, chip),
{
    let mut i: usize = 0;
    while i < writes.len()
        invariant
            i <= writes.len(),
            forall|j: int| 0 <= j < i ==> (#[trigger] writes[j]).chip != chip,
        decreases writes.len() - i,
    {
        if writes[i].chip == chip {
            return true;
        }
        i += 1;
    }
    false
}

/// The clock if the chip is there, else 0.
pub open spec fn gate(clock: u32, present: bool) -> u32 {
    if present {
        clock
    } else {
        0
    }
}

/// The clocks of the chips that the log really writes to. A nonzero header field alone is no
/// sign that a chip is used.
pub open spec fn present_clocks(c: Clocks, writes: Seq<RegisterWrite>, seen: Seen) -> Clocks {
    Clocks {
        ym2413: gate(c.ym2413, written(writes, Chip::Ym2413)),
        ay8910: gate(c.ay8910, written(writes, Chip::Ay8910)),
        scc: gate(c.scc, written(writes, Chip::Scc)),
        ym3526: gate(c.ym3526, written(writes, Chip::Ym3526)),
        ym3812: gate(c.ym3812, written(writes, Chip::Ym3812)),
        ym2612: gate(c.ym2612, seen.ym2612),
        ym2151: gate(c.ym2151, seen.ym2151),
        ym2203: gate(c.ym2203, seen.ym2203),
        ym2608: gate(c.ym2608, seen.ym2608),
        ym2610: gate(c.ym2610, seen.ym2610),
        segapcm: gate(c.segapcm, seen.segapcm),
        rf5c68: gate(c.rf5c68, seen.rf5c68),
        rf5c164: gate(c.rf5c164, seen.rf5c164),
        gb_dmg: gate(c.gb_dmg, seen.gb_dmg),
        nes_apu: gate(c.nes_apu, seen.nes_apu),
    }
}

fn gated(clock: u32, present: bool) -> (r: u32)
    ensures
        r == gate(clock, present),
{
    if present {
        clock
    } else {
        0
    }
}

fn gate_clocks(c: Clocks, writes: &Vec<RegisterWrite>, seen: Seen) -> (r: Clocks)
    ensures
        r == present_clocks(c, writes@, seen),
{
    Clocks {
        ym2413: gated(c.ym2413, is_written(writes, Chip::Ym2413)),
        ay8910: gated(c.ay8910, is_written(writes, Chip::Ay8910)),
        scc: gated(c.scc, is_written(writes, Chip::Scc)),
        ym3526: gated(c.ym3526, is_written(writes, Chip::Ym3526)),
        ym3812: gated(c.ym3812, is_written(writes, Chip::Ym3812)),
        ym2612: gated(c.ym2612, seen.ym2612),
        ym2151: gated(c.ym2151, seen.ym2151),
        ym2203: gated(c.ym2203, seen.ym2203),
        ym2608: gated(c.ym2608, seen.ym2608),
        ym2610: gated(c.ym2610, seen.ym2610),
        segapcm: gated(c.segapcm, seen.segapcm),
        rf5c68: gated(c.rf5c68, seen.rf5c68),
        rf5c164: gated(c.rf5c164, seen.rf5c164),
        gb_dmg: gated(c.gb_dmg, seen.gb_dmg),
        nes_apu: gated(c.nes_apu, seen.nes_apu),
    }
}

/// Where the text that starts at `pos` ends: at a 0 code unit, or at the end of the file.
pub open spec fn text_end(data: Seq<u8>, pos: int) -> int
    decreases data.len() - pos,
{
    if pos + 1 < data.len() && !(data[pos] == 0 && data[pos + 1] == 0) {
        text_end(data, pos + 2)
    } else {
        pos
    }
}

/// The UTF-16 code units of the bytes `from..to`.
pub open spec fn units(data: Seq<u8>, from: int, to: int) -> Seq<u16> {
    Seq::new(((to - from) / 2) as nat, |i: int| le16(data, from + 2 * i) as u16)
}

/// The texts of a tag block from `pos` on, at most `n` of them.
pub open spec fn tag_texts(data: Seq<u8>, pos: int, n: nat) -> Seq<Seq<char>>
    decreases n,
{
    if n == 0 || pos >= data.len() {
        Seq::empty()
    } else {
        let end = text_end(data, pos);
        seq![utf16_text(units(data, pos, end))] + tag_texts(data, end + 2, (n - 1) as nat)
    }
}

/// The `i`th text, if there is one and it is not empty.
pub open spec fn field(texts: Seq<Seq<char>>, i: int) -> Option<Seq<char>> {
    if i < texts.len() && texts[i].len() > 0 {
        Some(texts[i])
    } else {
        None
    }
}

/// The tags that the texts of a tag block give: the English ones of title, game, system and
/// author.
pub open spec fn tags_of(texts: Seq<Seq<char>>) -> Tags {
    Tags {
        title: field(texts, 0),
        game: field(texts, 2),
        system: field(texts, 4),
        author: field(texts, 6),
    }
}

/// No tags.
pub open spec fn no_tags() -> Tags {
    Tags { title: None, game: None, system: None, author: None }
}

/// Whether a tag block stands at `at`.
pub open spec fn tag_block_at(data: Seq<u8>, at: int) -> bool {
    &&& at + 12 <= data.len()
    &&& data[at] == 0x47
    &&& data[at + 1] == 0x64
    &&& data[at + 2] == 0x33
    &&& data[at + 3] == 0x20
}

/// The tags of a file.
pub open spec fn file_tags(data: Seq<u8>) -> Tags {
    let offset = u32_or_zero(data, 0x14);
    let at = 0x14 + offset as int;
    if offset != 0 && tag_block_at(data, at) {
        tags_of(tag_texts(data, at + 12, 11))
    } else {
        no_tags()
    }
}

/// The views of a list of texts.
pub open spec fn text_views(texts: Seq<String>) -> Seq<Seq<char>> {
    texts.map_values(|t: String| t@)
}

fn read_text(data: &[u8], pos: usize) -> (r: (String, usize))
    requires
        pos < data@.len(),
    ensures
        r.0@ == utf16_text(units(data@, pos as int, text_end(data@, pos as int))),
        r.1 == text_end(data@, pos as int),
        pos <= r.1 <= data@.len(),
{
    let mut out: Vec<u16> = Vec::new();
    let mut p: usize = pos;
    while p < data.len() && data.len() - p > 1 && !(data[p] == 0 && data[p + 1] == 0)
        invariant
            pos <= p <= data@.len(),
            (p - pos) % 2 == 0,
            text_end(data@, pos as int) == text_end(data@, p as int),
            out@ == units(data@, pos as int, p as int),
        decreases data@.len() - p,
    {
        out.push(read_le16(data, p));
        p += 2;
        assert(out@ =~= units(data@, pos as int, p as int));
    }
    (utf16_lossy(out.as_slice()), p)
}

fn read_texts(data: &[u8], at: usize) -> (r: Vec<String>)
    requires
        at <= data@.len(),
    ensures
        text_views(r@) == tag_texts(data@, at as int, 11),
{
    let mut out: Vec<String> = Vec::new();
    let mut pos: usize = at;
    let mut n: usize = 0;
    assert(text_views(out@) + tag_texts(data@, at as int, 11) =~= tag_texts(data@, at as int, 11));
    while n < 11 && pos < data.len()
        invariant
            n <= 11,
            pos <= data@.len(),
            text_views(out@) + tag_texts(data@, pos as int, (11 - n) as nat) == tag_texts(
                data@,
                at as int,
                11,
            ),
        decreases 11 - n,
    {
        let (text, end) = read_text(data, pos);
        let ghost before = text_views(out@);
        let ghost rest = tag_texts(data@, end + 2, (10 - n) as nat);
        out.push(text);
        proof {
            assert(text_views(out@) =~= before.push(text@));
            assert(before + (seq![text@] + rest) =~= before.push(text@) + rest);
        }
        n += 1;
        if data.len() - end >= 2 {
            pos = end + 2;
        } else {
            pos = data.len();
            assert(rest =~= Seq::<Seq<char>>::empty());
            assert(tag_texts(data@, pos as int, (11 - n) as nat) =~= Seq::<Seq<char>>::empty());
        }
    }
    assert(text_views(out@) + Seq::<Seq<char>>::empty() =~= text_views(out@));
    out
}

fn field_of(texts: &Vec<String>, i: usize) -> (r: Option<String>)
    ensures
        text_of(r) == field(text_views(texts@), i as int),
{
    if i < texts.len() && !texts[i].as_str().is_empty() {
        Some(texts[i].clone())
    } else {
        None
    }
}

/// The title, game, system and author that the texts of a tag block give.
pub fn gd3_fields(texts: &Vec<String>) -> (r: (
    Option<String>,
    Option<String>,
    Option<String>,
    Option<String>,
))
    ensures
        (Tags {
            title: text_of(r.0),
            game: text_of(r.1),
            system: text_of(r.2),
            author: text_of(r.3),
        }) == tags_of(text_views(texts@)),
{
    (field_of(texts, 0), field_of(texts, 2), field_of(texts, 4), field_of(texts, 6))
}

fn parse_gd3(data: &[u8]) -> (r: (
    Option<String>,
    Option<String>,
    Option<String>,
    Option<String>,
))
    ensures
        (Tags {
            title: text_of(r.0),
            game: text_of(r.1),
            system: text_of(r.2),
            author: text_of(r.3),
        }) == file_tags(data@),
{
    let offset: u32 = number_at(data, 0x14);
    let at: u64 = 0x14 + offset as u64;
    if offset == 0 || at + 12 > data.len() as u64 {
        return (None, None, None, None);
    }
    let a: usize = at as usize;
    if data[a] == 0x47 && data[a + 1] == 0x64 && data[a + 2] == 0x33 && data[a + 3] == 0x20 {
        let texts: Vec<String> = read_texts(data, a + 12);
        gd3_fields(&texts)
    } else {
        (None, None, None, None)
    }
}

/// The state of the command stream.
pub struct StreamView {
    pub pos: int,
    pub at_sample: u64,
    pub loop_start: Option<u64>,
    pub writes: Seq<RegisterWrite>,
    pub unsupported: Map<u8, u32>,
    pub seen: Seen,
}

struct Stream {
    pos: usize,
    at_sample: u64,
    loop_start: Option<u64>,
    writes: Vec<RegisterWrite>,
    unsupported: BTreeMap<u8, u32>,
    seen: Seen,
}

impl Stream {
    spec fn state(self) -> StreamView {
        StreamView {
            pos: self.pos as int,
            at_sample: self.at_sample,
            loop_start: self.loop_start,
            writes: self.writes@,
            unsupported: self.unsupported@,
            seen: self.seen,
        }
    }
}

/// No chip seen yet.
pub open spec fn none_seen() -> Seen {
    Seen {
        ym2612: false,
        ym2151: false,
        ym2203: false,
        ym2608: false,
        ym2610: false,
        segapcm: false,
        rf5c68: false,
        rf5c164: false,
        gb_dmg: false,
        nes_apu: false,
    }
}

/// What a command byte means.
#[derive(Clone, Copy, Debug, PartialEq, Eq, Structural)]
pub enum Kind {
    /// A register and a value for a chip whose writes are logged.
    Write { chip: Chip },
    /// A port, a register and a value for the SCC.
    SccWrite,
    /// A write of `len` bytes to a chip of which only the presence is noted.
    Noted { len: u8 },
    /// A write of `len` bytes to a chip that is not emulated.
    Skipped { len: u8 },
    /// A block of sample data, which tells its own size.
    Block,
    /// A wait of a 16-bit number of samples.
    Wait,
    /// A wait of a fixed number of samples.
    ShortWait { samples: u64 },
    End,
    Unknown,
}

/// The meaning of a command byte.
#[verifier::opaque]
pub open spec fn kind(cmd: u8) -> Kind {
    if cmd == 0x51 {
        Kind::Write { chip: Chip::Ym2413 }
    } else if cmd == 0x5A {
        Kind::Write { chip: Chip::Ym3812 }
    } else if cmd == 0x5B {
        Kind::Write { chip: Chip::Ym3526 }
    } else if cmd == 0xA0 {
        Kind::Write { chip: Chip::Ay8910 }
    } else if cmd == 0xD2 {
        Kind::SccWrite
    } else if (0x52 <= cmd <= 0x59) || cmd == 0xB0 || cmd == 0xB1 || cmd == 0xB3 || cmd == 0xB4 {
        Kind::Noted { len: 3 }
    } else if 0xC0 <= cmd <= 0xC2 {
        Kind::Noted { len: 4 }
    } else if (0x5C <= cmd <= 0x5F) || (0xA1 <= cmd <= 0xAF) || cmd == 0xB2 || (0xB5 <= cmd
        <= 0xBF) {
        Kind::Skipped { len: 3 }
    } else if (0xC3 <= cmd <= 0xC8) || cmd == 0xD0 || cmd == 0xD1 || (0xD3 <= cmd <= 0xD6) {
        Kind::Skipped { len: 4 }
    } else if cmd == 0x61 {
        Kind::Wait
    } else if cmd == 0x62 {
        Kind::ShortWait { samples: 735 }
    } else if cmd == 0x63 {
        Kind::ShortWait { samples: 882 }
    } else if cmd == 0x66 {
        Kind::End
    } else if cmd == 0x67 {
        Kind::Block
    } else if 0x70 <= cmd <= 0x7F {
        Kind::ShortWait { samples: (cmd % 16 + 1) as u64 }
    } else {
        Kind::Unknown
    }
}

fn kind_of(cmd: u8) -> (r: Kind)
    ensures
        r == kind(cmd),
        r matches Kind::Noted { len } ==> len > 0,
        r matches Kind::Skipped { len } ==> len > 0,
{
    reveal(kind);
    if cmd == 0x51 {
        Kind::Write { chip: Chip::Ym2413 }
    } else if cmd == 0x5A {
        Kind::Write { chip: Chip::Ym3812 }
    } else if cmd == 0x5B {
        Kind::Write { chip: Chip::Ym3526 }
    } else if cmd == 0xA0 {
        Kind::Write { chip: Chip::Ay8910 }
    } else if cmd == 0xD2 {
        Kind::SccWrite
    } else if (0x52 <= cmd && cmd <= 0x59) || cmd == 0xB0 || cmd == 0xB1 || cmd == 0xB3 || cmd
        == 0xB4 {
        Kind::Noted { len: 3 }
    } else if 0xC0 <= cmd && cmd <= 0xC2 {
        Kind::Noted { len: 4 }
    } else if (0x5C <= cmd && cmd <= 0x5F) || (0xA1 <= cmd && cmd <= 0xAF) || cmd == 0xB2 || (0xB5
        <= cmd && cmd <= 0xBF) {
        Kind::Skipped { len: 3 }
    } else if (0xC3 <= cmd && cmd <= 0xC8) || cmd == 0xD0 || cmd == 0xD1 || (0xD3 <= cmd && cmd
        <= 0xD6) {
        Kind::Skipped { len: 4 }
    } else if cmd == 0x61 {
        Kind::Wait
    } else if cmd == 0x62 {
        Kind::ShortWait { samples: 735 }
    } else if cmd == 0x63 {
        Kind::ShortWait { samples: 882 }
    } else if cmd == 0x66 {
        Kind::End
    } else if cmd == 0x67 {
        Kind::Block
    } else if 0x70 <= cmd && cmd <= 0x7F {
        Kind::ShortWait { samples: (cmd % 16 + 1) as u64 }
    } else {
        Kind::Unknown
    }
}

/// The chips seen after a command.
#[verifier::opaque]
pub open spec fn note_chip(s: Seen, cmd: u8) -> Seen {
    if cmd == 0x52 || cmd == 0x53 {
        Seen { ym2612: true, ..s }
    } else if cmd == 0x54 {
        Seen { ym2151: true, ..s }
    } else if cmd == 0x55 {
        Seen { ym2203: true, ..s }
    } else if cmd == 0x56 || cmd == 0x57 {
        Seen { ym2608: true, ..s }
    } else if cmd == 0x58 || cmd == 0x59 {
        Seen { ym2610: true, ..s }
    } else if cmd == 0xB0 || cmd == 0xC1 {
        Seen { rf5c68: true, ..s }
    } else if cmd == 0xB1 || cmd == 0xC2 {
        Seen { rf5c164: true, ..s }
    } else if cmd == 0xB3 {
        Seen { gb_dmg: true, ..s }
    } else if cmd == 0xB4 {
        Seen { nes_apu: true, ..s }
    } else if cmd == 0xC0 {
        Seen { segapcm: true, ..s }
    } else {
        s
    }
}

fn chip_noted(s: Seen, cmd: u8) -> (r: Seen)
    ensures
        r == note_chip(s, cmd),
{
    reveal(note_chip);
    let mut r: Seen = s;
    match cmd {
        0x52 | 0x53 => {
            r.ym2612 = true;
        },
        0x54 => {
            r.ym2151 = true;
        },
        0x55 => {
            r.ym2203 = true;
        },
        0x56 | 0x57 => {
            r.ym2608 = true;
        },
        0x58 | 0x59 => {
            r.ym2610 = true;
        },
        0xB0 | 0xC1 => {
            r.rf5c68 = true;
        },
        0xB1 | 0xC2 => {
            r.rf5c164 = true;
        },
        0xB3 => {
            r.gb_dmg = true;
        },
        0xB4 => {
            r.nes_apu = true;
        },
        0xC0 => {
            r.segapcm = true;
        },
        _ => {},
    }
    r
}

/// The position behind a command, at most the end of the data.
pub open spec fn behind(data: Seq<u8>, pos: int, len: int) -> int {
    if data.len() - pos < len {
        data.len() as int
    } else {
        pos + len
    }
}

/// The later of the sample times, where no time is later than a 64-bit number tells.
pub open spec fn later(at: u64, samples: int) -> u64 {
    if at + samples > u64::MAX {
        u64::MAX
    } else {
        (at + samples) as u64
    }
}

/// The text of the error for a command that the file ends in.
pub open spec fn truncated_text() -> Seq<char> {
    "VGM stream truncated mid-command"@
}

/// The text of the error for a command of unknown length.
pub open spec fn unknown_text(cmd: u8, pos: int) -> Seq<char> {
    "unrecognized/unverified VGM command byte 0x"@ + zero_padded(hex_lower(cmd as int), 2)
        + " at offset 0x"@ + zero_padded(hex_lower(pos), 4)
        + " — refusing to guess its length rather than risk desyncing the rest of the file"@
}

/// A register and a value for a logged chip.
pub open spec fn step_write(data: Seq<u8>, s: StreamView, chip: Chip) -> Result<
    StreamView,
    Seq<char>,
> {
    if s.pos + 2 >= data.len() {
        Err(truncated_text())
    } else {
        let w = RegisterWrite {
            at_sample: s.at_sample,
            chip,
            port: 0,
            reg: data[s.pos + 1],
            value: data[s.pos + 2],
        };
        Ok(StreamView { writes: s.writes.push(w), pos: s.pos + 3, ..s })
    }
}

/// A port, a register and a value for the SCC.
pub open spec fn step_scc(data: Seq<u8>, s: StreamView) -> Result<StreamView, Seq<char>> {
    if s.pos + 3 >= data.len() {
        Err(truncated_text())
    } else {
        let w = RegisterWrite {
            at_sample: s.at_sample,
            chip: Chip::Scc,
            port: data[s.pos + 1],
            reg: data[s.pos + 2],
            value: data[s.pos + 3],
        };
        Ok(StreamView { writes: s.writes.push(w), pos: s.pos + 4, ..s })
    }
}

/// The bytes that the block of sample data at `pos` takes up: the command, a compatibility byte,
/// the type of the data, its size, and the data.
pub open spec fn block_length(data: Seq<u8>, pos: int) -> int {
    7 + le32(data, pos + 3)
}

/// A block of sample data, which is skipped and counted.
pub open spec fn step_block(data: Seq<u8>, s: StreamView) -> Result<StreamView, Seq<char>> {
    if s.pos + 6 >= data.len() {
        Err(truncated_text())
    } else {
        Ok(
            StreamView {
                unsupported: byte_bumped(s.unsupported, data[s.pos]),
                pos: behind(data, s.pos, block_length(data, s.pos)),
                ..s
            },
        )
    }
}

/// A wait of a 16-bit number of samples.
pub open spec fn step_wait(data: Seq<u8>, s: StreamView) -> Result<StreamView, Seq<char>> {
    if s.pos + 2 >= data.len() {
        Err(truncated_text())
    } else {
        Ok(
            StreamView {
                at_sample: later(s.at_sample, le16(data, s.pos + 1)),
                pos: s.pos + 3,
                ..s
            },
        )
    }
}

/// A command of the stream other than the end of the sound data.
pub open spec fn step(data: Seq<u8>, s: StreamView) -> Result<StreamView, Seq<char>> {
    let cmd = data[s.pos];
    match kind(cmd) {
        Kind::Write { chip } => step_write(data, s, chip),
        Kind::SccWrite => step_scc(data, s),
        Kind::Noted { len } => Ok(
            StreamView {
                seen: note_chip(s.seen, cmd),
                pos: behind(data, s.pos, len as int),
                ..s
            },
        ),
        Kind::Skipped { len } => Ok(
            StreamView {
                unsupported: byte_bumped(s.unsupported, cmd),
                pos: behind(data, s.pos, len as int),
                ..s
            },
        ),
        Kind::Block => step_block(data, s),
        Kind::Wait => step_wait(data, s),
        Kind::ShortWait { samples } => Ok(
            StreamView {
                at_sample: later(s.at_sample, samples as int),
                pos: s.pos + 1,
                ..s
            },
        ),
        Kind::End => Ok(s),
        Kind::Unknown => Err(unknown_text(cmd, s.pos)),
    }
}

/// The stream where the file's loop begins, if it does at this command.
pub open spec fn loop_marked(s: StreamView, loop_byte: Option<int>) -> StreamView {
    if s.loop_start is None && loop_byte == Some(s.pos) {
        StreamView { loop_start: Some(s.at_sample), ..s }
    } else {
        s
    }
}

/// A command takes up at least one byte.
pub proof fn lemma_step_advances(data: Seq<u8>, s: StreamView)
    requires
        0 <= s.pos < data.len(),
        kind(data[s.pos]) != Kind::End,
    ensures
        step(data, s) matches Ok(next) ==> s.pos < next.pos <= data.len(),
{
    reveal(kind);
}

/// The stream from a state on to its end.
pub open spec fn run_stream(data: Seq<u8>, loop_byte: Option<int>, s: StreamView) -> Result<
    StreamView,
    Seq<char>,
>
    decreases data.len() - s.pos,
{
    if s.pos >= data.len() || s.pos < 0 {
        Ok(s)
    } else {
        let marked = loop_marked(s, loop_byte);
        if kind(data[s.pos]) == Kind::End {
            Ok(marked)
        } else {
            proof {
                lemma_step_advances(data, marked);
            }
            match step(data, marked) {
                Err(e) => Err(e),
                Ok(next) => run_stream(data, loop_byte, next),
            }
        }
    }
}

/// Where the commands start.
pub open spec fn data_start(data: Seq<u8>) -> int {
    let offset = plain_clock(data, u32_or_zero(data, 0x08), 0x150, 0x34);
    let at = if offset != 0 {
        0x34 + offset as int
    } else {
        0x40
    };
    if at < data.len() {
        at
    } else {
        data.len() as int
    }
}

/// The byte that the file's loop begins at.
pub open spec fn loop_byte(data: Seq<u8>) -> Option<int> {
    let offset = u32_or_zero(data, 0x1C);
    if offset != 0 {
        Some(0x1C + offset as int)
    } else {
        None
    }
}

/// The stream before its first command.
pub open spec fn stream_start(data: Seq<u8>) -> StreamView {
    StreamView {
        pos: data_start(data),
        at_sample: 0,
        loop_start: None,
        writes: Seq::empty(),
        unsupported: Map::empty(),
        seen: none_seen(),
    }
}

/// Whether the data starts as a VGM file does.
pub open spec fn has_magic(data: Seq<u8>) -> bool {
    &&& data.len() >= 0x40
    &&& data[0] == 0x56
    &&& data[1] == 0x67
    &&& data[2] == 0x6D
    &&& data[3] == 0x20
}

/// The file that the (uncompressed) data holds, or the text of the error.
pub open spec fn parsed(data: Seq<u8>) -> Result<VgmFileView, Seq<char>> {
    if !has_magic(data) {
        Err("not a VGM/VGZ file (missing 'Vgm ' magic)"@)
    } else {
        match run_stream(data, loop_byte(data), stream_start(data)) {
            Err(e) => Err(e),
            Ok(s) => Ok(
                VgmFileView {
                    version: u32_or_zero(data, 0x08),
                    clocks: present_clocks(header_clocks(data), s.writes, s.seen),
                    ay8910_is_ym: u32_or_zero(data, 0x08) >= 0x151 && data.len() > 0x78
                        && data[0x78] != 0,
                    total_samples: u32_or_zero(data, 0x18) as u64,
                    loop_start_sample: s.loop_start,
                    loop_samples: u32_or_zero(data, 0x20) as u64,
                    tags: file_tags(data),
                    writes: s.writes,
                    unsupported_commands: s.unsupported,
                    raw_data: data,
                },
            ),
        }
    }
}

/// The file or the text of a result.
pub open spec fn result_view(r: Result<VgmFile, String>) -> Result<VgmFileView, Seq<char>> {
    match r {
        Ok(f) => Ok(f@),
        Err(e) => Err(e@),
    }
}

fn truncated() -> (r: String)
    ensures
        r@ == truncated_text(),
{
    "VGM stream truncated mid-command".to_owned()
}

fn unknown(cmd: u8, pos: usize) -> (r: String)
    ensures
        r@ == unknown_text(cmd, pos as int),
{
    let mut out: String = "unrecognized/unverified VGM command byte 0x".to_owned();
    push_hex_lower(&mut out, cmd as u64, 2);
    out.append(" at offset 0x");
    push_hex_lower(&mut out, pos as u64, 4);
    out.append(" — refusing to guess its length rather than risk desyncing the rest of the file");
    out
}

fn wait(at: u64, samples: u64) -> (r: u64)
    ensures
        r == later(at, samples as int),
{
    if at > u64::MAX - samples {
        u64::MAX
    } else {
        at + samples
    }
}

fn advance(data: &[u8], pos: usize, len: u64) -> (r: usize)
    requires
        pos < data@.len(),
        len > 0,
    ensures
        r == behind(data@, pos as int, len as int),
        pos < r <= data@.len(),
{
    if ((data.len() - pos) as u64) < len {
        data.len()
    } else {
        pos + len as usize
    }
}

impl Stream {
    /// The stream is what `after` says, or `r` holds its error.
    spec fn became(self, r: Option<String>, after: Result<StreamView, Seq<char>>) -> bool {
        match (r, after) {
            (None, Ok(v)) => self.state() == v,
            (Some(e), Err(t)) => e@ == t,
            _ => false,
        }
    }

    fn log_write(&mut self, data: &[u8], chip: Chip) -> (r: Option<String>)
        requires
            old(self).pos < data@.len(),
        ensures
            final(self).became(r, step_write(data@, old(self).state(), chip)),
    {
        let pos: usize = self.pos;
        if data.len() - pos < 3 {
            return Some(truncated());
        }
        self.writes.push(
            RegisterWrite {
                at_sample: self.at_sample,
                chip,
                port: 0,
                reg: data[pos + 1],
                value: data[pos + 2],
            },
        );
        self.pos = pos + 3;
        None
    }

    fn log_scc(&mut self, data: &[u8]) -> (r: Option<String>)
        requires
            old(self).pos < data@.len(),
        ensures
            final(self).became(r, step_scc(data@, old(self).state())),
    {
        let pos: usize = self.pos;
        if data.len() - pos < 4 {
            return Some(truncated());
        }
        self.writes.push(
            RegisterWrite {
                at_sample: self.at_sample,
                chip: Chip::Scc,
                port: data[pos + 1],
                reg: data[pos + 2],
                value: data[pos + 3],
            },
        );
        self.pos = pos + 4;
        None
    }

    fn skip_block(&mut self, data: &[u8]) -> (r: Option<String>)
        requires
            old(self).pos < data@.len(),
        ensures
            final(self).became(r, step_block(data@, old(self).state())),
    {
        let pos: usize = self.pos;
        if data.len() - pos < 7 {
            return Some(truncated());
        }
        bump_byte(&mut self.unsupported, data[pos]);
        self.pos = advance(data, pos, 7 + read_le32(data, pos + 3) as u64);
        None
    }

    fn long_wait(&mut self, data: &[u8]) -> (r: Option<String>)
        requires
            old(self).pos < data@.len(),
        ensures
            final(self).became(r, step_wait(data@, old(self).state())),
    {
        let pos: usize = self.pos;
        if data.len() - pos < 3 {
            return Some(truncated());
        }
        self.at_sample = wait(self.at_sample, read_le16(data, pos + 1) as u64);
        self.pos = pos + 3;
        None
    }

    /// Reads one command; the text of the error where it cannot.
    fn read_command(&mut self, data: &[u8], k: Kind) -> (r: Option<String>)
        requires
            old(self).pos < data@.len(),
            k == kind(data@[old(self).pos as int]),
            k matches Kind::Noted { len } ==> len > 0,
            k matches Kind::Skipped { len } ==> len > 0,
        ensures
            final(self).became(r, step(data@, old(self).state())),
    {
        let pos: usize = self.pos;
        let cmd: u8 = data[pos];
        match k {
            Kind::Write { chip } => self.log_write(data, chip),
            Kind::SccWrite => self.log_scc(data),
            Kind::Noted { len } => {
                self.seen = chip_noted(self.seen, cmd);
                self.pos = advance(data, pos, len as u64);
                None
            },
            Kind::Skipped { len } => {
                bump_byte(&mut self.unsupported, cmd);
                self.pos = advance(data, pos, len as u64);
                None
            },
            Kind::Block => self.skip_block(data),
            Kind::Wait => self.long_wait(data),
            Kind::ShortWait { samples } => {
                self.at_sample = wait(self.at_sample, samples);
                self.pos = pos + 1;
                None
            },
            Kind::End => None,
            Kind::Unknown => Some(unknown(cmd, pos)),
        }
    }
}

fn read_stream(data: &[u8]) -> (r: Result<Stream, String>)
    ensures
        match r {
            Ok(s) => run_stream(data@, loop_byte(data@), stream_start(data@)) == Ok::<
                StreamView,
                Seq<char>,
            >(s.state()),
            Err(e) => run_stream(data@, loop_byte(data@), stream_start(data@)) == Err::<
                StreamView,
                Seq<char>,
            >(e@),
        },
{
    let version: u32 = number_at(data, 0x08);
    let offset: u32 = plain_clock_at(data, version, 0x150, 0x34);
    let at: u64 = if offset != 0 {
        0x34 + offset as u64
    } else {
        0x40
    };
    let start: usize = if at < data.len() as u64 {
        at as usize
    } else {
        data.len()
    };
    let loop_offset: u32 = number_at(data, 0x1C);
    let loop_at: u64 = 0x1C + loop_offset as u64;
    let mut s = Stream {
        pos: start,
        at_sample: 0,
        loop_start: None,
        writes: Vec::new(),
        unsupported: BTreeMap::new(),
        seen: Seen {
            ym2612: false,
            ym2151: false,
            ym2203: false,
            ym2608: false,
            ym2610: false,
            segapcm: false,
            rf5c68: false,
            rf5c164: false,
            gb_dmg: false,
            nes_apu: false,
        },
    };
    let ghost whole = run_stream(data@, loop_byte(data@), stream_start(data@));
    assert(s.state() == stream_start(data@));
    while s.pos < data.len()
        invariant
            s.pos <= data@.len(),
            loop_byte(data@) == (if loop_offset != 0 {
                Some(loop_at as int)
            } else {
                None
            }),
            whole == run_stream(data@, loop_byte(data@), s.state()),
            whole == run_stream(data@, loop_byte(data@), stream_start(data@)),
        decreases data@.len() - s.pos,
    {
        let ghost before = s.state();
        if s.loop_start.is_none() && loop_offset != 0 && loop_at == s.pos as u64 {
            s.loop_start = Some(s.at_sample);
        }
        assert(s.state() == loop_marked(before, loop_byte(data@)));
        let ghost marked = s.state();
        let k: Kind = kind_of(data[s.pos]);
        if k == Kind::End {
            return Ok(s);
        }
        proof {
            lemma_step_advances(data@, marked);
        }
        if let Some(e) = s.read_command(data, k) {
            return Err(e);
        }
    }
    Ok(s)
}

/// Parses the (uncompressed) data of a VGM file.
pub fn parse_data(data: Vec<u8>) -> (r: Result<VgmFile, String>)
    ensures
        result_view(r) == parsed(data@),
{
    let n: usize = data.len();
    if n < 0x40 || !(data[0] == 0x56 && data[1] == 0x67 && data[2] == 0x6D && data[3] == 0x20) {
        return Err("not a VGM/VGZ file (missing 'Vgm ' magic)".to_owned());
    }
    let bytes: &[u8] = data.as_slice();
    let version: u32 = number_at(bytes, 0x08);
    let clocks: Clocks = read_clocks(bytes);
    let total: u32 = number_at(bytes, 0x18);
    let loop_samples: u32 = number_at(bytes, 0x20);
    let is_ym: bool = version >= 0x151 && n > 0x78 && data[0x78] != 0;
    let (title, game, system, author) = parse_gd3(bytes);
    let s: Stream = match read_stream(bytes) {
        Ok(s) => s,
        Err(e) => {
            return Err(e);
        },
    };
    let present: Clocks = gate_clocks(clocks, &s.writes, s.seen);
    Ok(
        VgmFile {
            version,
            ym2413_clock: present.ym2413,
            ay8910_clock: present.ay8910,
            scc_clock: present.scc,
            ym3526_clock: present.ym3526,
            ym3812_clock: present.ym3812,
            ym2612_clock: present.ym2612,
            ym2151_clock: present.ym2151,
            ym2203_clock: present.ym2203,
            ym2608_clock: present.ym2608,
            ym2610_clock: present.ym2610,
            segapcm_clock: present.segapcm,
            rf5c68_clock: present.rf5c68,
            rf5c164_clock: present.rf5c164,
            gb_dmg_clock: present.gb_dmg,
            nes_apu_clock: present.nes_apu,
            ay8910_is_ym: is_ym,
            total_samples: total as u64,
            loop_start_sample: s.loop_start,
            loop_samples: loop_samples as u64,
            title,
            game,
            system,
            author,
            writes: s.writes,
            unsupported_commands: s.unsupported,
            raw_data: data,
        },
    )
}

/// What a file that may be gzip-compressed holds: the data itself, or the text of the error.
pub open spec fn uncompressed(bytes: Seq<u8>) -> Result<Seq<u8>, Seq<char>> {
    if bytes.len() >= 2 && bytes[0] == 0x1F && bytes[1] == 0x8B {
        match gunzipped(bytes) {
            Ok(data) => Ok(data),
            Err(e) => Err("failed to gunzip VGZ: "@ + e),
        }
    } else {
        Ok(bytes)
    }
}

fn gunzip_if_needed(bytes: &[u8]) -> (r: Result<Vec<u8>, String>)
    ensures
        outcome(r) == uncompressed(bytes@),
{
    if bytes.len() >= 2 && bytes[0] == 0x1F && bytes[1] == 0x8B {
        match gunzip(bytes) {
            Ok(data) => Ok(data),
            Err(e) => {
                let mut text: String = "failed to gunzip VGZ: ".to_owned();
                text.append(e.as_str());
                Err(text)
            },
        }
    } else {
        Ok(vstd::slice::slice_to_vec(bytes))
    }
}

/// Parses a VGM or VGZ file.
pub fn parse(bytes: &[u8]) -> (r: Result<VgmFile, String>)
    ensures
        result_view(r) == (match uncompressed(bytes@) {
            Ok(data) => parsed(data),
            Err(e) => Err(e),
        }),
{
    match gunzip_if_needed(bytes) {
        Ok(data) => parse_data(data),
        Err(e) => Err(e),
    }
}

/// The log is in the order of time, and no write lies behind the stream's own time.
pub open spec fn in_time_order(s: StreamView) -> bool {
    &&& forall|i: int, j: int|
        0 <= i < j < s.writes.len() ==> (#[trigger] s.writes[i]).at_sample <= (
        #[trigger] s.writes[j]).at_sample
    &&& forall|i: int|
        0 <= i < s.writes.len() ==> (#[trigger] s.writes[i]).at_sample <= s.at_sample
}

proof fn lemma_stream_in_order(data: Seq<u8>, loop_byte: Option<int>, s: StreamView)
    requires
        in_time_order(s),
    ensures
        run_stream(data, loop_byte, s) matches Ok(end) ==> in_time_order(end),
    decreases data.len() - s.pos,
{
    if 0 <= s.pos < data.len() && kind(data[s.pos]) != Kind::End {
        let marked = loop_marked(s, loop_byte);
        lemma_step_advances(data, marked);
        match step(data, marked) {
            Err(_) => {},
            Ok(next) => {
                lemma_stream_in_order(data, loop_byte, next);
            },
        }
    }
}

/// The register writes of a file stand in the order of their times.
pub proof fn law_writes_in_time_order(data: Seq<u8>)
    ensures
        parsed(data) matches Ok(f) ==> forall|i: int, j: int|
            0 <= i < j < f.writes.len() ==> (#[trigger] f.writes[i]).at_sample <= (
            #[trigger] f.writes[j]).at_sample,
{
    lemma_stream_in_order(data, loop_byte(data), stream_start(data));
}

/// A chip whose clock is not 0 is written to: a header field alone makes no chip present. Its
/// clock is then the one that the header gives.
pub proof fn law_present_chips_are_written(data: Seq<u8>)
    ensures
        parsed(data) matches Ok(f) ==> {
            &&& f.clocks.ym2413 > 0 ==> written(f.writes, Chip::Ym2413) && f.clocks.ym2413
                == header_clocks(data).ym2413
            &&& f.clocks.ay8910 > 0 ==> written(f.writes, Chip::Ay8910) && f.clocks.ay8910
                == header_clocks(data).ay8910
            &&& f.clocks.scc > 0 ==> written(f.writes, Chip::Scc) && f.clocks.scc == SCC_CLOCK_HZ
            &&& f.clocks.ym3526 > 0 ==> written(f.writes, Chip::Ym3526) && f.clocks.ym3526
                == header_clocks(data).ym3526
            &&& f.clocks.ym3812 > 0 ==> written(f.writes, Chip::Ym3812) && f.clocks.ym3812
                == header_clocks(data).ym3812
        },
{
}

proof fn lemma_loop_in_stream(data: Seq<u8>, loop_byte: Option<int>, s: StreamView)
    requires
        s.loop_start matches Some(l) ==> l <= s.at_sample,
    ensures
        run_stream(data, loop_byte, s) matches Ok(end) ==> end.at_sample >= s.at_sample && (
        end.loop_start matches Some(l) ==> l <= end.at_sample) && (loop_byte is None
            && s.loop_start is None ==> end.loop_start is None),
    decreases data.len() - s.pos,
{
    if 0 <= s.pos < data.len() && kind(data[s.pos]) != Kind::End {
        let marked = loop_marked(s, loop_byte);
        lemma_step_advances(data, marked);
        match step(data, marked) {
            Err(_) => {},
            Ok(next) => {
                lemma_loop_in_stream(data, loop_byte, next);
            },
        }
    }
}

/// A file without a loop offset in its header has no loop.
pub proof fn law_no_loop_without_offset(data: Seq<u8>)
    requires
        u32_or_zero(data, 0x1C) == 0,
    ensures
        parsed(data) matches Ok(f) ==> f.loop_start_sample is None,
{
    lemma_loop_in_stream(data, loop_byte(data), stream_start(data));
}

/// How many bytes the command at `pos` takes up.
pub open spec fn length_at(data: Seq<u8>, pos: int) -> int {
    match kind(data[pos]) {
        Kind::Write { .. } | Kind::Wait => 3,
        Kind::SccWrite => 4,
        Kind::Noted { len } | Kind::Skipped { len } => len as int,
        Kind::Block => block_length(data, pos),
        Kind::ShortWait { .. } | Kind::End | Kind::Unknown => 1,
    }
}

/// Where the commands from `pos` on stand, up to the end of the sound data or to a command of
/// unknown length.
pub open spec fn commands_from(data: Seq<u8>, pos: int) -> Seq<int>
    decreases data.len() - pos,
{
    if pos < 0 || pos >= data.len() || kind(data[pos]) == Kind::End {
        Seq::empty()
    } else if kind(data[pos]) == Kind::Unknown {
        seq![pos]
    } else {
        proof {
            reveal(kind);
        }
        seq![pos] + commands_from(data, behind(data, pos, length_at(data, pos)))
    }
}

/// The command at `pos` is known, and what is read of it is there.
pub open spec fn is_readable(data: Seq<u8>, pos: int) -> bool {
    match kind(data[pos]) {
        Kind::Write { .. } | Kind::SccWrite | Kind::Wait => pos + length_at(data, pos)
            <= data.len(),
        Kind::Block => pos + 7 <= data.len(),
        Kind::Unknown => false,
        _ => true,
    }
}

/// A command that is skipped and counted.
pub open spec fn is_counted(cmd: u8) -> bool {
    kind(cmd) is Skipped || kind(cmd) is Block
}

/// How many of the commands are this one.
pub open spec fn times(data: Seq<u8>, commands: Seq<int>, cmd: u8) -> nat
    decreases commands.len(),
{
    if commands.len() == 0 {
        0
    } else {
        times(data, commands.drop_first(), cmd) + (if data[commands[0]] == cmd {
            1nat
        } else {
            0nat
        })
    }
}

/// The count of a command in the table, 0 where it is not in it.
pub open spec fn count_in(table: Map<u8, u32>, cmd: u8) -> int {
    if table.contains_key(cmd) {
        table[cmd] as int
    } else {
        0
    }
}

proof fn lemma_stream_reads(data: Seq<u8>, loop_byte: Option<int>, s: StreamView)
    requires
        0 <= s.pos <= data.len(),
    ensures
        run_stream(data, loop_byte, s) is Ok <==> forall|i: int|
            0 <= i < commands_from(data, s.pos).len() ==> is_readable(
                data,
                #[trigger] commands_from(data, s.pos)[i],
            ),
        run_stream(data, loop_byte, s) matches Ok(end) ==> forall|cmd: u8|
            is_counted(cmd) && #[trigger] count_in(s.unsupported, cmd) + times(
                data,
                commands_from(data, s.pos),
                cmd,
            ) <= u32::MAX ==> count_in(end.unsupported, cmd) == count_in(s.unsupported, cmd)
                + times(data, commands_from(data, s.pos), cmd),
        run_stream(data, loop_byte, s) matches Ok(end) ==> forall|cmd: u8|
            !is_counted(cmd) ==> #[trigger] count_in(end.unsupported, cmd) == count_in(
                s.unsupported,
                cmd,
            ),
    decreases data.len() - s.pos,
{
    let list = commands_from(data, s.pos);
    if s.pos < data.len() && kind(data[s.pos]) != Kind::End {
        let marked = loop_marked(s, loop_byte);
        lemma_step_advances(data, marked);
        assert(list[0] == s.pos);
        if !is_readable(data, s.pos) {
            assert(!is_readable(data, list[0]));
            assert(step(data, marked) is Err);
        } else {
            let next = step(data, marked)->Ok_0;
            let rest = commands_from(data, next.pos);
            assert(list =~= seq![s.pos] + rest);
            assert(list.drop_first() =~= rest);
            lemma_stream_reads(data, loop_byte, next);
            assert(forall|i: int| 0 <= i < rest.len() ==> list[i + 1] == #[trigger] rest[i]);
            assert(forall|i: int| 0 < i < list.len() ==> #[trigger] list[i] == rest[i - 1]);
            if run_stream(data, loop_byte, s) is Ok {
                let end = run_stream(data, loop_byte, s)->Ok_0;
                assert forall|cmd: u8|
                    is_counted(cmd) && #[trigger] count_in(s.unsupported, cmd) + times(
                        data,
                        list,
                        cmd,
                    ) <= u32::MAX implies count_in(end.unsupported, cmd) == count_in(
                    s.unsupported,
                    cmd,
                ) + times(data, list, cmd) by {
                    assert(count_in(next.unsupported, cmd) + times(data, rest, cmd) <= u32::MAX);
                }
                assert forall|cmd: u8| !is_counted(cmd) implies #[trigger] count_in(
                    end.unsupported,
                    cmd,
                ) == count_in(s.unsupported, cmd) by {
                    assert(count_in(end.unsupported, cmd) == count_in(next.unsupported, cmd));
                }
            }
        }
    }
}

/// A file is read exactly where every command up to the end of its sound data is known and
/// complete: none is guessed at, and none is lost.
pub proof fn law_every_command_is_known(data: Seq<u8>)
    ensures
        parsed(data) is Ok <==> has_magic(data) && forall|i: int|
            0 <= i < commands_from(data, data_start(data)).len() ==> is_readable(
                data,
                #[trigger] commands_from(data, data_start(data))[i],
            ),
{
    lemma_stream_reads(data, loop_byte(data), stream_start(data));
}

/// The table of a file's commands that are skipped, those for chips that are not emulated and the
/// blocks of sample data, holds exactly how often each occurs, and no other command.
pub proof fn law_other_chips_are_counted(data: Seq<u8>, cmd: u8)
    requires
        data.len() <= u32::MAX,
    ensures
        parsed(data) matches Ok(f) ==> count_in(f.unsupported_commands, cmd) == if is_counted(
            cmd,
        ) {
            times(data, commands_from(data, data_start(data)), cmd) as int
        } else {
            0
        },
{
    let start = stream_start(data);
    lemma_stream_reads(data, loop_byte(data), start);
    lemma_times_fit(data, start.pos, cmd);
    assert(count_in(start.unsupported, cmd) == 0);
}

proof fn lemma_times_fit(data: Seq<u8>, pos: int, cmd: u8)
    requires
        0 <= pos,
    ensures
        times(data, commands_from(data, pos), cmd) <= if pos < data.len() {
            data.len() - pos
        } else {
            0
        },
    decreases data.len() - pos,
{
    if pos < data.len() && kind(data[pos]) != Kind::End {
        let list = commands_from(data, pos);
        if kind(data[pos]) == Kind::Unknown {
            assert(list.drop_first() =~= Seq::<int>::empty());
            assert(times(data, list.drop_first(), cmd) == 0);
        } else {
            reveal(kind);
            let next = behind(data, pos, length_at(data, pos));
            assert(list.drop_first() =~= commands_from(data, next));
            lemma_times_fit(data, next, cmd);
        }
    }
}

} // verus!
