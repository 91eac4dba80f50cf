//! The notes of an OPL's nine channels (YM3526 or YM3812, which share their registers), with
//! the sound that each channel's first note was played with.
//!
//! The second operator of a channel is the one that is heard, modulated by the first, whatever
//! the channel's connection; channels 7 to 9 are ordinary ones even in rhythm mode. Any change
//! of a held note's frequency starts a new note. The sound of a channel is kept as it is at
//! its first note; only the level of what is heard is followed through.
use crate::export::automation::Point;
use crate::export::clip::ClippedNote;
use crate::export::clock::{nearest, round_signed};
use crate::export::pace::Pace;
use crate::export::vgm_wavetable::{
    chronological, group_end, lemma_group_end, note_of, note_of_tone,
};
use crate::formats::vgm::{Chip, Clocks, RegisterWrite, VgmFile};
use vstd::prelude::*;

verus! {

pub const OPL_CHANNELS: usize = 9;

/// The frequencies that a channel's registers can hold: 8 blocks of 1024.
pub const OPL_TONES: usize = 8192;

/// How long a stage of the envelope lasts for each rate, in millionths of a millisecond:
/// spread evenly, by their logarithms, from half a millisecond to eight seconds.
pub const RATE_TIMES: [i64; 16] = [
    8_000_000_000,
    4_195_805_245,
    2_200_597_706,
    1_154_159_925,
    605_328_783,
    317_480_210,
    166_510_641,
    87_330_778,
    45_802_867,
    24_022_489,
    12_599_210,
    6_607_979,
    3_465_724,
    1_817_688,
    953_333,
    500_000,
];

/// The gain of each sustain level, in millionths: 3 dB a step, and silence at last.
pub const SUSTAIN_GAINS: [i64; 16] = [
    1_000_000,
    707_946,
    501_187,
    354_813,
    251_189,
    177_828,
    125_893,
    89_125,
    63_096,
    44_668,
    31_623,
    22_387,
    15_849,
    11_220,
    7_943,
    316,
];

/// The gain of each total level, in millionths: three quarters of a dB a step.
pub const LEVEL_GAINS: [i64; 64] = [
    1_000_000,
    917_276,
    841_395,
    771_792,
    707_946,
    649_382,
    595_662,
    546_387,
    501_187,
    459_727,
    421_697,
    386_812,
    354_813,
    325_462,
    298_538,
    273_842,
    251_189,
    230_409,
    211_349,
    193_865,
    177_828,
    163_117,
    149_624,
    137_246,
    125_893,
    115_478,
    105_925,
    97_163,
    89_125,
    81_752,
    74_989,
    68_786,
    63_096,
    57_876,
    53_088,
    48_697,
    44_668,
    40_973,
    37_584,
    34_475,
    31_623,
    29_007,
    26_607,
    24_406,
    22_387,
    20_535,
    18_836,
    17_278,
    15_849,
    14_538,
    13_335,
    12_232,
    11_220,
    10_292,
    9_441,
    8_660,
    7_943,
    7_286,
    6_683,
    6_131,
    5_623,
    5_158,
    4_732,
    4_340,
];

/// How long a stage of the envelope lasts, in millionths of a millisecond.
pub open spec fn rate_time(rate: u8) -> i64 {
    if rate < 16 {
        RATE_TIMES[rate as int]
    } else {
        RATE_TIMES[15]
    }
}

pub fn opl_rate_to_ms(rate: u8) -> (r: i64)
    ensures
        r == rate_time(rate),
{
    if rate < 16 {
        RATE_TIMES[rate as usize]
    } else {
        RATE_TIMES[15]
    }
}

/// The gain of a sustain level, in millionths.
pub open spec fn sustain_gain(level: u8) -> i64 {
    if level < 16 {
        SUSTAIN_GAINS[level as int]
    } else {
        SUSTAIN_GAINS[15]
    }
}

pub fn opl_sustain_level_to_gain(level: u8) -> (r: i64)
    ensures
        r == sustain_gain(level),
{
    if level < 16 {
        SUSTAIN_GAINS[level as usize]
    } else {
        SUSTAIN_GAINS[15]
    }
}

/// The gain of a total level, in millionths.
pub open spec fn level_gain(level: u8) -> i64 {
    if level < 64 {
        LEVEL_GAINS[level as int]
    } else {
        LEVEL_GAINS[63]
    }
}

pub fn opl_total_level_to_gain(level: u8) -> (r: i64)
    ensures
        r == level_gain(level),
{
    if level < 64 {
        LEVEL_GAINS[level as usize]
    } else {
        LEVEL_GAINS[63]
    }
}

/// The velocity of a total level.
pub open spec fn level_velocity(level: u8) -> i32 {
    let v = nearest(127 * level_gain(level), 1_000_000);
    if v < 1 {
        1
    } else if v > 127 {
        127
    } else {
        v as i32
    }
}

pub fn velocity_from_total_level(level: u8) -> (r: i32)
    ensures
        r == level_velocity(level),
        1 <= r <= 127,
{
    let v: i128 = round_signed(127 * opl_total_level_to_gain(level) as i128, 1_000_000);
    if v < 1 {
        1
    } else if v > 127 {
        127
    } else {
        v as i32
    }
}

/// A feedback of 0 to 7, in millionths of a percent.
pub open spec fn feedback_percent(feedback: u8) -> i64 {
    nearest(
        100_000_000 * (if feedback < 7 {
            feedback as int
        } else {
            7
        }),
        7,
    ) as i64
}

pub fn feedback_to_percent(feedback: u8) -> (r: i64)
    ensures
        r == feedback_percent(feedback),
{
    let f: i128 = if feedback < 7 {
        feedback as i128
    } else {
        7
    };
    let v: i128 = round_signed(100_000_000 * f, 7);
    assert(0 <= (2 * (100_000_000 * f) + 7) / 14int <= 100_000_000);
    v as i64
}

/// The registers of an operator.
#[derive(Clone, Copy, Debug, PartialEq, Eq, Structural)]
pub struct OperatorRegs {
    pub multiple: u8,
    pub total_level: u8,
    pub attack_rate: u8,
    pub decay_rate: u8,
    pub sustain_level: u8,
    pub release_rate: u8,
}

impl OperatorRegs {
    /// Behind a write to one of the four registers, told by the upper bits of their number.
    pub open spec fn write(self, class: int, value: u8) -> OperatorRegs {
        if class == 0x20 {
            OperatorRegs { multiple: value % 16, ..self }
        } else if class == 0x40 {
            OperatorRegs { total_level: value % 64, ..self }
        } else if class == 0x60 {
            OperatorRegs { attack_rate: value / 16, decay_rate: value % 16, ..self }
        } else if class == 0x80 {
            OperatorRegs { sustain_level: value / 16, release_rate: value % 16, ..self }
        } else {
            self
        }
    }
}

fn apply_operator_write(regs: &mut OperatorRegs, class: u8, value: u8)
    ensures
        *final(regs) == old(regs).write(class as int, value),
{
    if class == 0x20 {
        regs.multiple = value % 16;
    } else if class == 0x40 {
        regs.total_level = value % 64;
    } else if class == 0x60 {
        regs.attack_rate = value / 16;
        regs.decay_rate = value % 16;
    } else if class == 0x80 {
        regs.sustain_level = value / 16;
        regs.release_rate = value % 16;
    }
}

/// The registers of a channel.
#[derive(Clone, Copy, Debug, PartialEq, Eq, Structural)]
pub struct OplRegisters {
    pub fnum: u16,
    pub block: u8,
    pub modulator: OperatorRegs,
    pub carrier: OperatorRegs,
    pub feedback: u8,
}

/// Where the registers of a channel's first operator stand; those of its second stand 3 behind.
pub open spec fn first_operator(ch: int) -> int {
    8 * (ch / 3) + ch % 3
}

/// The registers at the start.
pub open spec fn opl_at_rest() -> OplRegisters {
    let op = OperatorRegs {
        multiple: 0,
        total_level: 0,
        attack_rate: 0,
        decay_rate: 0,
        sustain_level: 0,
        release_rate: 0,
    };
    OplRegisters { fnum: 0, block: 0, modulator: op, carrier: op, feedback: 0 }
}

impl OplRegisters {
    /// The registers hold as many bits as the chip's do.
    pub open spec fn wf(self) -> bool {
        &&& self.fnum < 1024
        &&& self.block < 8
    }

    /// The registers of channel `ch` behind a write to the chip.
    pub open spec fn write(self, ch: int, reg: u8, value: u8) -> OplRegisters {
        let offset = reg as int % 32;
        let class = reg - offset;
        if 0x20 <= class <= 0x80 {
            if offset == first_operator(ch) {
                OplRegisters { modulator: self.modulator.write(class, value), ..self }
            } else if offset == first_operator(ch) + 3 {
                OplRegisters { carrier: self.carrier.write(class, value), ..self }
            } else {
                self
            }
        } else if reg == 0xA0 + ch {
            OplRegisters { fnum: (256 * (self.fnum as int / 256) + value) as u16, ..self }
        } else if reg == 0xB0 + ch {
            OplRegisters {
                fnum: (self.fnum as int % 256 + 256 * (value as int % 4)) as u16,
                block: value / 4 % 8,
                ..self
            }
        } else if reg == 0xC0 + ch {
            OplRegisters { feedback: value / 2 % 8, ..self }
        } else {
            self
        }
    }
}

/// The registers of a channel behind the first `k` writes.
pub open spec fn opl_registers(writes: Seq<RegisterWrite>, chip: Chip, ch: int, k: int) -> OplRegisters
    decreases k,
{
    if k <= 0 {
        opl_at_rest()
    } else if writes[k - 1].chip == chip {
        opl_registers(writes, chip, ch, k - 1).write(ch, writes[k - 1].reg, writes[k - 1].value)
    } else {
        opl_registers(writes, chip, ch, k - 1)
    }
}

/// The key of a channel that was written last between two writes, if it was.
pub open spec fn opl_key(writes: Seq<RegisterWrite>, chip: Chip, ch: int, i: int, j: int) -> Option<
    bool,
>
    decreases j - i,
{
    if j <= i {
        None
    } else if writes[j - 1].chip == chip && writes[j - 1].reg == 0xB0 + ch {
        Some(writes[j - 1].value / 32 % 2 == 1)
    } else {
        opl_key(writes, chip, ch, i, j - 1)
    }
}

/// A note, with its level and the later changes of it.
#[verifier::ext_equal]
pub struct OplNoteView {
    pub start: u64,
    /// Where it is not over yet, its start.
    pub end: u64,
    pub pitch: i32,
    pub velocity: i32,
    pub levels: Seq<(u64, u8)>,
}

/// What is played on a channel.
#[verifier::ext_equal]
pub struct OplPlayedView {
    pub key: bool,
    /// The registers at the first note.
    pub patch: Option<OplRegisters>,
    pub open: Option<OplNoteView>,
    pub notes: Seq<OplNoteView>,
}

impl OplPlayedView {
    pub open spec fn opened(self, r: OplRegisters, at: u64, tones: Seq<i64>) -> OplPlayedView {
        if r.fnum == 0 {
            self
        } else {
            OplPlayedView {
                patch: if self.patch is None {
                    Some(r)
                } else {
                    self.patch
                },
                open: Some(
                    OplNoteView {
                        start: at,
                        end: at,
                        pitch: note_of(tones[1024 * r.block + r.fnum]),
                        velocity: level_velocity(r.carrier.total_level),
                        levels: seq![(at, r.carrier.total_level)],
                    },
                ),
                ..self
            }
        }
    }

    pub open spec fn closed_at(self, at: u64) -> OplPlayedView {
        match self.open {
            None => self,
            Some(o) => OplPlayedView {
                open: None,
                notes: if at > o.start {
                    self.notes.push(OplNoteView { end: at, ..o })
                } else {
                    self.notes
                },
                ..self
            },
        }
    }

    /// Behind the key that was written.
    pub open spec fn keyed(self, r: OplRegisters, key: Option<bool>, at: u64, tones: Seq<i64>) -> OplPlayedView {
        match key {
            None => self,
            Some(k) => if k == self.key {
                self
            } else if k {
                OplPlayedView { key: true, ..self }.closed_at(at).opened(r, at, tones)
            } else {
                OplPlayedView { key: false, ..self }.closed_at(at)
            },
        }
    }

    /// Behind a group of writes.
    pub open spec fn after_group(
        self,
        before: OplRegisters,
        r: OplRegisters,
        key: Option<bool>,
        at: u64,
        tones: Seq<i64>,
    ) -> OplPlayedView {
        let keyed = self.keyed(r, key, at, tones);
        match keyed.open {
            Some(o) if self.open is Some => if keyed.key && (r.fnum != before.fnum || r.block
                != before.block) {
                keyed.closed_at(at).opened(r, at, tones)
            } else if r.carrier.total_level != before.carrier.total_level {
                OplPlayedView {
                    open: Some(
                        OplNoteView { levels: o.levels.push((at, r.carrier.total_level)), ..o },
                    ),
                    ..keyed
                }
            } else {
                keyed
            },
            _ => keyed,
        }
    }

    /// Behind all writes from write `i` on.
    pub open spec fn played(
        self,
        writes: Seq<RegisterWrite>,
        i: int,
        chip: Chip,
        ch: int,
        tones: Seq<i64>,
    ) -> OplPlayedView
        decreases writes.len() - i,
        when 0 <= i
    {
        if i >= writes.len() {
            self
        } else {
            let at = writes[i].at_sample;
            let j = group_end(writes, at, i + 1);
            proof {
                lemma_group_end(writes, at, i + 1);
            }
            self.after_group(
                opl_registers(writes, chip, ch, i),
                opl_registers(writes, chip, ch, j),
                opl_key(writes, chip, ch, i, j),
                at,
                tones,
            ).played(writes, j, chip, ch, tones)
        }
    }
}

/// A silent channel.
pub open spec fn opl_unplayed() -> OplPlayedView {
    OplPlayedView { key: false, patch: None, open: None, notes: Seq::empty() }
}

/// All that a channel plays.
pub open spec fn opl_channel(
    writes: Seq<RegisterWrite>,
    total_samples: u64,
    chip: Chip,
    ch: int,
    tones: Seq<i64>,
) -> OplPlayedView {
    opl_unplayed().played(writes, 0, chip, ch, tones).closed_at(total_samples)
}

/// The track of a channel, with times in millionths of a beat.
#[derive(Debug)]
pub struct OperatorTrack {
    /// The registers at the first note.
    pub patch: Option<OplRegisters>,
    pub notes: Vec<ClippedNote>,
    /// In millionths.
    pub gains: Vec<Point>,
}

/// What an `OperatorTrack` holds.
#[verifier::ext_equal]
pub struct OperatorTrackView {
    pub patch: Option<OplRegisters>,
    pub notes: Seq<ClippedNote>,
    pub gains: Seq<Point>,
}

impl View for OperatorTrack {
    type V = OperatorTrackView;

    open spec fn view(&self) -> OperatorTrackView {
        OperatorTrackView { patch: self.patch, notes: self.notes@, gains: self.gains@ }
    }
}

/// The note of a clip.
pub open spec fn opl_clip_note(n: OplNoteView, pace: Pace) -> ClippedNote {
    ClippedNote {
        start: pace.micros(n.start as int),
        duration: pace.micros(n.end - n.start),
        velocity: n.velocity,
        pitch: n.pitch,
    }
}

/// The gains of a note: the first is a jump, the others glide.
pub open spec fn opl_gains(n: OplNoteView, pace: Pace) -> Seq<Point> {
    Seq::new(
        n.levels.len(),
        |k: int|
            Point {
                time: pace.micros(n.levels[k].0 as int),
                value: level_gain(n.levels[k].1),
                glide: k > 0,
            },
    )
}

pub open spec fn all_opl_gains(notes: Seq<OplNoteView>, pace: Pace) -> Seq<Point>
    decreases notes.len(),
{
    if notes.len() == 0 {
        Seq::empty()
    } else {
        all_opl_gains(notes.drop_last(), pace) + opl_gains(notes.last(), pace)
    }
}

/// The track of what a channel plays.
pub open spec fn operator_track(p: OplPlayedView, pace: Pace) -> OperatorTrackView {
    OperatorTrackView {
        patch: p.patch,
        notes: p.notes.map_values(|n: OplNoteView| opl_clip_note(n, pace)),
        gains: all_opl_gains(p.notes, pace),
    }
}

/// A note, with its level and the later changes of it.
#[derive(Debug)]
pub struct OplNote {
    pub start: u64,
    pub end: u64,
    pub pitch: i32,
    pub velocity: i32,
    pub levels: Vec<(u64, u8)>,
}

impl View for OplNote {
    type V = OplNoteView;

    open spec fn view(&self) -> OplNoteView {
        OplNoteView {
            start: self.start,
            end: self.end,
            pitch: self.pitch,
            velocity: self.velocity,
            levels: self.levels@,
        }
    }
}

/// What notes hold.
pub open spec fn opl_note_views(notes: Seq<OplNote>) -> Seq<OplNoteView> {
    notes.map_values(|n: OplNote| n@)
}

struct OplPlayed {
    key: bool,
    patch: Option<OplRegisters>,
    open: Option<OplNote>,
    notes: Vec<OplNote>,
}

fn write_register(r: &mut OplRegisters, ch: usize, reg: u8, value: u8)
    requires
        ch < OPL_CHANNELS,
        old(r).wf(),
    ensures
        final(r).wf(),
        *final(r) == old(r).write(ch as int, reg, value),
{
    let offset: u8 = reg % 32;
    let class: u8 = reg - offset;
    let first: u8 = (8 * (ch / 3) + ch % 3) as u8;
    if class >= 0x20 && class <= 0x80 {
        if offset == first {
            apply_operator_write(&mut r.modulator, class, value);
        } else if offset == first + 3 {
            apply_operator_write(&mut r.carrier, class, value);
        }
    } else if reg == 0xA0 + ch as u8 {
        r.fnum = 256 * (r.fnum / 256) + value as u16;
    } else if reg == 0xB0 + ch as u8 {
        r.fnum = r.fnum % 256 + 256 * (value as u16 % 4);
        r.block = value / 4 % 8;
    } else if reg == 0xC0 + ch as u8 {
        r.feedback = value / 2 % 8;
    }
}

impl OplPlayed {
    spec fn played(self) -> OplPlayedView {
        OplPlayedView {
            key: self.key,
            patch: self.patch,
            open: match self.open {
                Some(o) => Some(o@),
                None => None,
            },
            notes: opl_note_views(self.notes@),
        }
    }

    fn open_note(&mut self, r: &OplRegisters, at: u64, tones: &Vec<i64>)
        requires
            r.wf(),
            tones.len() == OPL_TONES,
        ensures
            final(self).played() == old(self).played().opened(*r, at, tones@),
    {
        if r.fnum == 0 {
            return ;
        }
        if self.patch.is_none() {
            self.patch = Some(*r);
        }
        let mut levels: Vec<(u64, u8)> = Vec::new();
        levels.push((at, r.carrier.total_level));
        assert(levels@ =~= seq![(at, r.carrier.total_level)]);
        let tone: i64 = tones[1024 * r.block as usize + r.fnum as usize];
        self.open = Some(
            OplNote {
                start: at,
                end: at,
                pitch: note_of_tone(tone),
                velocity: velocity_from_total_level(r.carrier.total_level),
                levels,
            },
        );
    }

    fn close_note(&mut self, at: u64)
        ensures
            final(self).played() == old(self).played().closed_at(at),
    {
        let ghost before = self.notes@;
        match self.open.take() {
            Some(o) => {
                if at > o.start {
                    let mut note: OplNote = o;
                    note.end = at;
                    self.notes.push(note);
                    assert(opl_note_views(self.notes@) =~= opl_note_views(before).push(note@));
                }
            },
            None => {},
        }
    }

    fn take_group(
        &mut self,
        before: &OplRegisters,
        r: &OplRegisters,
        key: Option<bool>,
        at: u64,
        tones: &Vec<i64>,
    )
        requires
            r.wf(),
            tones.len() == OPL_TONES,
        ensures
            final(self).played() == old(self).played().after_group(*before, *r, key, at, tones@),
    {
        let was_open: bool = self.open.is_some();
        match key {
            Some(k) => {
                if k != self.key {
                    self.key = k;
                    self.close_note(at);
                    if k {
                        self.open_note(r, at, tones);
                    }
                }
            },
            None => {},
        }
        if was_open && self.open.is_some() {
            if self.key && (r.fnum != before.fnum || r.block != before.block) {
                self.close_note(at);
                self.open_note(r, at, tones);
            } else if r.carrier.total_level != before.carrier.total_level {
                match self.open.take() {
                    Some(o) => {
                        let mut note: OplNote = o;
                        note.levels.push((at, r.carrier.total_level));
                        self.open = Some(note);
                    },
                    None => {},
                }
            }
        }
    }
}

fn play_channel(
    writes: &Vec<RegisterWrite>,
    total_samples: u64,
    chip: Chip,
    ch: usize,
    tones: &Vec<i64>,
) -> (r: OplPlayed)
    requires
        tones.len() == OPL_TONES,
        ch < OPL_CHANNELS,
    ensures
        r.played() == opl_channel(writes@, total_samples, chip, ch as int, tones@),
{
    let op = OperatorRegs {
        multiple: 0,
        total_level: 0,
        attack_rate: 0,
        decay_rate: 0,
        sustain_level: 0,
        release_rate: 0,
    };
    let mut bank = OplRegisters { fnum: 0, block: 0, modulator: op, carrier: op, feedback: 0 };
    let mut state = OplPlayed { key: false, patch: None, open: None, notes: Vec::new() };
    assert(opl_note_views(state.notes@) =~= Seq::<OplNoteView>::empty());
    let ghost whole = opl_unplayed().played(writes@, 0, chip, ch as int, tones@);
    let mut i: usize = 0;
    while i < writes.len()
        invariant
            i <= writes.len(),
            tones.len() == OPL_TONES,
            ch < OPL_CHANNELS,
            bank.wf(),
            bank == opl_registers(writes@, chip, ch as int, i as int),
            state.played().played(writes@, i as int, chip, ch as int, tones@) == whole,
        decreases writes.len() - i,
    {
        let at: u64 = writes[i].at_sample;
        let before: OplRegisters = bank;
        let mut key: Option<bool> = None;
        let mut j: usize = i;
        proof {
            lemma_group_end(writes@, at, i + 1);
        }
        while j < writes.len() && writes[j].at_sample == at
            invariant
                i <= j <= writes.len(),
                i < writes.len(),
                ch < OPL_CHANNELS,
                at == writes[i as int].at_sample,
                bank.wf(),
                bank == opl_registers(writes@, chip, ch as int, j as int),
                key == opl_key(writes@, chip, ch as int, i as int, j as int),
                i < j ==> group_end(writes@, at, j as int) == group_end(writes@, at, i + 1),
            decreases writes.len() - j,
        {
            let w: RegisterWrite = writes[j];
            if w.chip == chip {
                write_register(&mut bank, ch, w.reg, w.value);
                if w.reg == 0xB0 + ch as u8 {
                    key = Some(w.value / 32 % 2 == 1);
                }
            }
            j += 1;
        }
        state.take_group(&before, &bank, key, at, tones);
        i = j;
    }
    state.close_note(total_samples);
    state
}

fn gain_points(n: &OplNote, pace: &Pace) -> (r: Vec<Point>)
    requires
        pace.wf(),
    ensures
        r@ == opl_gains(n@, *pace),
{
    let ghost whole = opl_gains(n@, *pace);
    let mut out: Vec<Point> = Vec::new();
    let mut k: usize = 0;
    while k < n.levels.len()
        invariant
            k <= n.levels.len(),
            pace.wf(),
            whole == opl_gains(n@, *pace),
            out@ == whole.take(k as int),
        decreases n.levels.len() - k,
    {
        let (at, level): (u64, u8) = n.levels[k];
        out.push(
            Point {
                time: pace.samples_to_beats(at),
                value: opl_total_level_to_gain(level),
                glide: k > 0,
            },
        );
        k += 1;
        assert(whole.take(k as int) =~= whole.take(k - 1).push(whole[k - 1]));
    }
    assert(whole.take(k as int) =~= whole);
    out
}

fn to_track(played: OplPlayed, pace: &Pace) -> (r: OperatorTrack)
    requires
        pace.wf(),
    ensures
        r@ == operator_track(played.played(), *pace),
{
    let ghost views = opl_note_views(played.notes@);
    let ghost clips = operator_track(played.played(), *pace).notes;
    let mut notes: Vec<ClippedNote> = Vec::new();
    let mut gains: Vec<Point> = Vec::new();
    let mut i: usize = 0;
    assert(views.take(0) =~= Seq::<OplNoteView>::empty());
    assert(notes@ =~= clips.take(0));
    while i < played.notes.len()
        invariant
            i <= played.notes.len(),
            pace.wf(),
            views == opl_note_views(played.notes@),
            clips == operator_track(played.played(), *pace).notes,
            notes@ == clips.take(i as int),
            gains@ == all_opl_gains(views.take(i as int), *pace),
        decreases played.notes.len() - i,
    {
        let n: &OplNote = &played.notes[i];
        proof {
            assert(views.take(i + 1).drop_last() =~= views.take(i as int));
            assert(views.take(i + 1).last() == n@);
            assert(clips.take(i + 1) =~= clips.take(i as int).push(clips[i as int]));
        }
        let halves: i128 = 2 * (n.end as i128 - n.start as i128);
        notes.push(
            ClippedNote {
                start: pace.samples_to_beats(n.start),
                duration: pace.half_samples_to_beats(halves),
                velocity: n.velocity,
                pitch: n.pitch,
            },
        );
        let mut more: Vec<Point> = gain_points(n, pace);
        gains.append(&mut more);
        i += 1;
    }
    assert(views.take(i as int) =~= views);
    assert(clips.take(i as int) =~= clips);
    OperatorTrack { patch: played.patch, notes, gains }
}

/// What the tracks hold.
pub open spec fn operator_track_views(tracks: Seq<OperatorTrack>) -> Seq<OperatorTrackView> {
    tracks.map_values(|t: OperatorTrack| t@)
}

/// The tracks of all channels of a chip.
pub open spec fn operator_tracks(
    writes: Seq<RegisterWrite>,
    total_samples: u64,
    chip: Chip,
    tones: Seq<i64>,
    pace: Pace,
) -> Seq<OperatorTrackView> {
    Seq::new(
        OPL_CHANNELS as nat,
        |ch: int| operator_track(opl_channel(writes, total_samples, chip, ch, tones), pace),
    )
}

/// Makes the tracks of all channels of a chip. The tones are those of the frequencies that a
/// channel's registers can hold, block by block, in millionths of a semitone. The track of a
/// channel that is never heard is empty.
pub fn extract_channels(vgm: &VgmFile, chip: Chip, tones: &Vec<i64>, pace: &Pace) -> (r: Vec<
    OperatorTrack,
>)
    requires
        tones.len() == OPL_TONES,
        pace.wf(),
    ensures
        operator_track_views(r@) == operator_tracks(
            vgm.writes@,
            vgm.total_samples,
            chip,
            tones@,
            *pace,
        ),
{
    let ghost whole = operator_tracks(vgm.writes@, vgm.total_samples, chip, tones@, *pace);
    let mut out: Vec<OperatorTrack> = Vec::new();
    let mut ch: usize = 0;
    while ch < OPL_CHANNELS
        invariant
            ch <= OPL_CHANNELS,
            tones.len() == OPL_TONES,
            pace.wf(),
            whole == operator_tracks(vgm.writes@, vgm.total_samples, chip, tones@, *pace),
            operator_track_views(out@) == whole.take(ch as int),
        decreases OPL_CHANNELS - ch,
    {
        let played: OplPlayed = play_channel(&vgm.writes, vgm.total_samples, chip, ch, tones);
        let track: OperatorTrack = to_track(played, pace);
        assert(operator_track_views(out@.push(track)) =~= operator_track_views(out@).push(track@));
        out.push(track);
        ch += 1;
        assert(whole.take(ch as int) =~= whole.take(ch - 1).push(whole[ch - 1]));
    }
    assert(whole.take(ch as int) =~= whole);
    out
}

/// The clock of an OPL in a rip; 0 for one that is absent, and for other chips.
pub open spec fn clock_of(clocks: Clocks, chip: Chip) -> u32 {
    match chip {
        Chip::Ym3526 => clocks.ym3526,
        Chip::Ym3812 => clocks.ym3812,
        _ => 0,
    }
}

pub fn opl_clock(vgm: &VgmFile, chip: Chip) -> (r: u32)
    ensures
        r == clock_of(vgm.clocks(), chip),
{
    match chip {
        Chip::Ym3526 => vgm.ym3526_clock,
        Chip::Ym3812 => vgm.ym3812_clock,
        _ => 0,
    }
}

/// Makes the tracks of an OPL that is there; one without a clock has none.
pub fn present_channels(vgm: &VgmFile, chip: Chip, tones: &Vec<i64>, pace: &Pace) -> (r: Vec<
    OperatorTrack,
>)
    requires
        tones.len() == OPL_TONES,
        pace.wf(),
    ensures
        operator_track_views(r@) == if clock_of(vgm.clocks(), chip) == 0 {
            Seq::empty()
        } else {
            operator_tracks(vgm.writes@, vgm.total_samples, chip, tones@, *pace)
        },
{
    if opl_clock(vgm, chip) == 0 {
        let none: Vec<OperatorTrack> = Vec::new();
        assert(operator_track_views(none@) =~= Seq::empty());
        none
    } else {
        extract_channels(vgm, chip, tones, pace)
    }
}

/// A channel that has notes has the sound of its first.
pub proof fn law_notes_have_a_patch(
    writes: Seq<RegisterWrite>,
    total_samples: u64,
    chip: Chip,
    ch: int,
    tones: Seq<i64>,
)
    ensures
        opl_channel(writes, total_samples, chip, ch, tones).notes.len() > 0 ==> opl_channel(
            writes,
            total_samples,
            chip,
            ch,
            tones,
        ).patch is Some,
{
    lemma_played_has_patch(opl_unplayed(), writes, 0, chip, ch, tones);
}

/// What was played had a sound.
pub open spec fn has_patch(p: OplPlayedView) -> bool {
    p.notes.len() > 0 || p.open is Some ==> p.patch is Some
}

proof fn lemma_played_has_patch(
    p: OplPlayedView,
    writes: Seq<RegisterWrite>,
    i: int,
    chip: Chip,
    ch: int,
    tones: Seq<i64>,
)
    requires
        has_patch(p),
        0 <= i,
    ensures
        has_patch(p.played(writes, i, chip, ch, tones)),
    decreases writes.len() - i,
{
    if i < writes.len() {
        let at = writes[i].at_sample;
        let j = group_end(writes, at, i + 1);
        lemma_group_end(writes, at, i + 1);
        let q = p.after_group(
            opl_registers(writes, chip, ch, i),
            opl_registers(writes, chip, ch, j),
            opl_key(writes, chip, ch, i, j),
            at,
            tones,
        );
        assert(has_patch(q));
        lemma_played_has_patch(q, writes, j, chip, ch, tones);
    }
}

/// The register holds a part of a channel's sound other than how loud it is: the multiples, the
/// envelopes and the feedback.
pub open spec fn is_sound(reg: u8) -> bool {
    ||| 0x20 <= reg <= 0x35
    ||| 0x60 <= reg <= 0x75
    ||| 0x80 <= reg <= 0x95
    ||| 0xC0 <= reg <= 0xC8
}

/// The register is one of a channel's.
pub open spec fn is_of_channel(reg: u8, ch: int) -> bool {
    let offset = reg as int % 32;
    if 0x20 <= reg - offset <= 0x80 {
        offset == first_operator(ch) || offset == first_operator(ch) + 3
    } else {
        reg == 0xA0 + ch || reg == 0xB0 + ch || reg == 0xC0 + ch
    }
}

impl OplPlayedView {
    /// When the first note starts, from write `i` on.
    pub open spec fn first_from(
        self,
        writes: Seq<RegisterWrite>,
        i: int,
        chip: Chip,
        ch: int,
        tones: Seq<i64>,
    ) -> Option<u64>
        decreases writes.len() - i,
        when 0 <= i
    {
        if i >= writes.len() {
            None
        } else {
            let at = writes[i].at_sample;
            let j = group_end(writes, at, i + 1);
            proof {
                lemma_group_end(writes, at, i + 1);
            }
            let next = self.after_group(
                opl_registers(writes, chip, ch, i),
                opl_registers(writes, chip, ch, j),
                opl_key(writes, chip, ch, i, j),
                at,
                tones,
            );
            if next.patch is Some {
                Some(at)
            } else {
                next.first_from(writes, j, chip, ch, tones)
            }
        }
    }
}

/// When the first note of a channel starts.
pub open spec fn first_note(writes: Seq<RegisterWrite>, chip: Chip, ch: int, tones: Seq<i64>) -> Option<
    u64,
> {
    opl_unplayed().first_from(writes, 0, chip, ch, tones)
}

/// The write comes behind the start of the first note of every channel that it goes to.
pub open spec fn comes_later(
    writes: Seq<RegisterWrite>,
    k: int,
    chip: Chip,
    tones: Seq<i64>,
) -> bool {
    forall|ch: int|
        0 <= ch < OPL_CHANNELS && #[trigger] is_of_channel(writes[k].reg, ch) ==> (first_note(
            writes,
            chip,
            ch,
            tones,
        ) matches Some(t) && t < writes[k].at_sample)
}

/// Two logs differ at most in what is written to the sounds of a chip's channels behind the first
/// note of the channel.
pub open spec fn differ_in_later_sounds(
    a: Seq<RegisterWrite>,
    b: Seq<RegisterWrite>,
    chip: Chip,
    tones: Seq<i64>,
) -> bool {
    &&& a.len() == b.len()
    &&& forall|k: int|
        #![trigger a[k]]
        0 <= k < a.len() ==> {
            &&& b[k] == (RegisterWrite { value: b[k].value, ..a[k] })
            &&& b[k].value != a[k].value ==> a[k].chip == chip && is_sound(a[k].reg)
                && comes_later(a, k, chip, tones)
        }
}

/// The registers agree in all but the sound.
spec fn play_alike(r: OplRegisters, s: OplRegisters) -> bool {
    &&& r.fnum == s.fnum
    &&& r.block == s.block
    &&& r.carrier.total_level == s.carrier.total_level
}

proof fn lemma_registers_play_alike(
    a: Seq<RegisterWrite>,
    b: Seq<RegisterWrite>,
    chip: Chip,
    ch: int,
    tones: Seq<i64>,
    k: int,
)
    requires
        differ_in_later_sounds(a, b, chip, tones),
        0 <= ch < OPL_CHANNELS,
        k <= a.len(),
    ensures
        play_alike(opl_registers(a, chip, ch, k), opl_registers(b, chip, ch, k)),
    decreases k,
{
    if k > 0 {
        lemma_registers_play_alike(a, b, chip, ch, tones, k - 1);
        let w = a[k - 1];
        assert(b[k - 1] == (RegisterWrite { value: b[k - 1].value, ..w }));
    }
}

proof fn lemma_registers_equal(
    a: Seq<RegisterWrite>,
    b: Seq<RegisterWrite>,
    chip: Chip,
    ch: int,
    tones: Seq<i64>,
    k: int,
)
    requires
        differ_in_later_sounds(a, b, chip, tones),
        0 <= ch < OPL_CHANNELS,
        k <= a.len(),
        forall|m: int|
            0 <= m < k && is_of_channel((#[trigger] a[m]).reg, ch) ==> a[m].value == b[m].value,
    ensures
        opl_registers(a, chip, ch, k) == opl_registers(b, chip, ch, k),
    decreases k,
{
    if k > 0 {
        lemma_registers_equal(a, b, chip, ch, tones, k - 1);
        let w = a[k - 1];
        assert(b[k - 1] == (RegisterWrite { value: b[k - 1].value, ..w }));
    }
}

proof fn lemma_keys_equal(
    a: Seq<RegisterWrite>,
    b: Seq<RegisterWrite>,
    chip: Chip,
    ch: int,
    tones: Seq<i64>,
    i: int,
    j: int,
)
    requires
        differ_in_later_sounds(a, b, chip, tones),
        0 <= ch < OPL_CHANNELS,
        0 <= i,
        j <= a.len(),
    ensures
        opl_key(a, chip, ch, i, j) == opl_key(b, chip, ch, i, j),
    decreases j - i,
{
    if i < j {
        lemma_keys_equal(a, b, chip, ch, tones, i, j - 1);
        let w = a[j - 1];
        assert(b[j - 1] == (RegisterWrite { value: b[j - 1].value, ..w }));
    }
}

proof fn lemma_groups_equal(
    a: Seq<RegisterWrite>,
    b: Seq<RegisterWrite>,
    chip: Chip,
    tones: Seq<i64>,
    at: u64,
    i: int,
)
    requires
        differ_in_later_sounds(a, b, chip, tones),
        0 <= i,
    ensures
        group_end(a, at, i) == group_end(b, at, i),
    decreases a.len() - i,
{
    if i < a.len() {
        let w = a[i];
        assert(b[i] == (RegisterWrite { value: b[i].value, ..w }));
        if w.at_sample == at {
            lemma_groups_equal(a, b, chip, tones, at, i + 1);
        }
    }
}

proof fn lemma_group_times(writes: Seq<RegisterWrite>, at: u64, j: int, m: int)
    requires
        0 <= j <= m < group_end(writes, at, j),
    ensures
        writes[m].at_sample == at,
    decreases m - j,
{
    if j < m {
        lemma_group_times(writes, at, j + 1, m);
    }
}

proof fn lemma_first_is_later(
    p: OplPlayedView,
    writes: Seq<RegisterWrite>,
    i: int,
    chip: Chip,
    ch: int,
    tones: Seq<i64>,
)
    requires
        chronological(writes),
        0 <= i,
    ensures
        p.first_from(writes, i, chip, ch, tones) matches Some(t) ==> i < writes.len()
            && writes[i].at_sample <= t,
    decreases writes.len() - i,
{
    if i < writes.len() {
        let at = writes[i].at_sample;
        let j = group_end(writes, at, i + 1);
        lemma_group_end(writes, at, i + 1);
        let next = p.after_group(
            opl_registers(writes, chip, ch, i),
            opl_registers(writes, chip, ch, j),
            opl_key(writes, chip, ch, i, j),
            at,
            tones,
        );
        lemma_first_is_later(next, writes, j, chip, ch, tones);
        if j < writes.len() {
            assert(writes[i].at_sample <= writes[j].at_sample);
        }
    }
}

proof fn lemma_sound_is_kept(
    p: OplPlayedView,
    before: OplRegisters,
    other_before: OplRegisters,
    r: OplRegisters,
    s: OplRegisters,
    key: Option<bool>,
    at: u64,
    tones: Seq<i64>,
)
    requires
        p.patch is Some,
        play_alike(before, other_before),
        play_alike(r, s),
    ensures
        p.after_group(before, r, key, at, tones) == p.after_group(other_before, s, key, at, tones),
        p.after_group(before, r, key, at, tones).patch == p.patch,
{
}

proof fn lemma_played_alike(
    p: OplPlayedView,
    a: Seq<RegisterWrite>,
    b: Seq<RegisterWrite>,
    i: int,
    chip: Chip,
    ch: int,
    tones: Seq<i64>,
)
    requires
        differ_in_later_sounds(a, b, chip, tones),
        chronological(a),
        0 <= ch < OPL_CHANNELS,
        0 <= i,
        p.patch is None ==> p.first_from(a, i, chip, ch, tones) == first_note(a, chip, ch, tones),
    ensures
        p.played(a, i, chip, ch, tones) == p.played(b, i, chip, ch, tones),
    decreases a.len() - i,
{
    if i < a.len() {
        let w = a[i];
        assert(b[i] == (RegisterWrite { value: b[i].value, ..w }));
        let at = w.at_sample;
        let j = group_end(a, at, i + 1);
        lemma_group_end(a, at, i + 1);
        lemma_groups_equal(a, b, chip, tones, at, i + 1);
        lemma_group_end(b, at, i + 1);
        lemma_keys_equal(a, b, chip, ch, tones, i, j);
        lemma_registers_play_alike(a, b, chip, ch, tones, i);
        lemma_registers_play_alike(a, b, chip, ch, tones, j);
        let next = p.after_group(
            opl_registers(a, chip, ch, i),
            opl_registers(a, chip, ch, j),
            opl_key(a, chip, ch, i, j),
            at,
            tones,
        );
        if p.patch is Some {
            lemma_sound_is_kept(
                p,
                opl_registers(a, chip, ch, i),
                opl_registers(b, chip, ch, i),
                opl_registers(a, chip, ch, j),
                opl_registers(b, chip, ch, j),
                opl_key(a, chip, ch, i, j),
                at,
                tones,
            );
        } else {
            lemma_first_is_later(next, a, j, chip, ch, tones);
            assert forall|m: int|
                0 <= m < j && is_of_channel((#[trigger] a[m]).reg, ch) implies a[m].value
                == b[m].value by {
                assert(a[m].at_sample <= a[j - 1].at_sample);
                if j > i + 1 {
                    lemma_group_times(a, at, i + 1, j - 1);
                }
                if a[m].value != b[m].value {
                    assert(comes_later(a, m, chip, tones));
                    assert(is_of_channel(a[m].reg, ch));
                    if next.patch is None {
                        assert(a[j - 1].at_sample <= a[j].at_sample);
                    }
                }
            }
            lemma_registers_equal(a, b, chip, ch, tones, i);
            lemma_registers_equal(a, b, chip, ch, tones, j);
        }
        lemma_played_alike(next, a, b, j, chip, ch, tones);
    }
}

/// The sound of a channel is that of its first note, taken once: what is written to it later
/// changes nothing, neither in the sound nor in the notes and gains.
pub proof fn law_later_sounds_change_nothing(
    a: Seq<RegisterWrite>,
    b: Seq<RegisterWrite>,
    total_samples: u64,
    chip: Chip,
    tones: Seq<i64>,
    pace: Pace,
)
    requires
        chronological(a),
        differ_in_later_sounds(a, b, chip, tones),
    ensures
        operator_tracks(a, total_samples, chip, tones, pace) == operator_tracks(
            b,
            total_samples,
            chip,
            tones,
            pace,
        ),
{
    assert forall|ch: int| 0 <= ch < OPL_CHANNELS implies #[trigger] opl_channel(
        a,
        total_samples,
        chip,
        ch,
        tones,
    ) == opl_channel(b, total_samples, chip, ch, tones) by {
        lemma_played_alike(opl_unplayed(), a, b, 0, chip, ch, tones);
    }
    assert(operator_tracks(a, total_samples, chip, tones, pace) =~= operator_tracks(
        b,
        total_samples,
        chip,
        tones,
        pace,
    ));
}

} // verus!
