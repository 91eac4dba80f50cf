//! The notes of the SCC's five channels, with the waveforms that they were played with.
//!
//! A change of a channel's frequency while its key is held is either a new note or a bend of
//! the current one: a bend where the new frequency is still nearest to the same note. A change
//! of the waveform, which some compositions make in the middle of a note, ends the stretch
//! that was played with the one before.
//!
//! Writes that come at the same time are taken together: a driver loads a whole waveform in
//! one burst, and what it holds halfway through is not heard.
use crate::export::automation::{clamp64, clamped, Point};
use crate::export::clip::ClippedNote;
use crate::export::clock::{nearest, round_signed};
use crate::export::pace::Pace;
use crate::formats::vgm::{Chip, RegisterWrite, VgmFile};
use vstd::prelude::*;

verus! {

pub const SCC_CHANNELS: usize = 5;

/// The frequencies that the 12 bits of a channel's register can hold.
pub const SCC_TONES: usize = 4096;

/// A jump of the volume by this much is a new attack: a swell climbs in single steps.
pub const REARTICULATION_VOLUME_JUMP: u8 = 3;

/// What changes within this many samples behind a note's start still belongs to it: a driver
/// writes pitch and volume of a note a few samples apart.
pub const NOTE_ONSET_COALESCE_SAMPLES: u64 = 200;

/// A shorter span (of 15 milliseconds) is a driver at work, not a note.
pub const MIN_SPAN_SAMPLES: u64 = 661;

/// What is cut off the end of a note (20 milliseconds), so that the next one can be heard to
/// start.
pub const NOTE_GAP_SAMPLES: u64 = 882;

/// The note nearest to a tone, which is given in millionths of a semitone.
pub open spec fn note_of(tone: i64) -> i32 {
    let n = nearest(tone as int, 1_000_000);
    if n < 0 {
        0
    } else if n > 127 {
        127
    } else {
        n as i32
    }
}

pub fn note_of_tone(tone: i64) -> (r: i32)
    ensures
        r == note_of(tone),
        0 <= r <= 127,
{
    let n: i128 = round_signed(tone as i128, 1_000_000);
    if n < 0 {
        0
    } else if n > 127 {
        127
    } else {
        n as i32
    }
}

/// A register's byte as a sample of a waveform.
pub open spec fn signed8(v: u8) -> i8 {
    if v < 128 {
        v as i8
    } else {
        (v - 256) as i8
    }
}

fn signed_byte(v: u8) -> (r: i8)
    ensures
        r == signed8(v),
{
    if v < 128 {
        v as i8
    } else {
        (v as i16 - 256) as i8
    }
}

/// What the registers of a channel hold.
#[verifier::ext_equal]
pub struct Registers {
    pub waveform: Seq<i8>,
    pub freq: u16,
    pub volume: u8,
}

/// The registers at the start.
pub open spec fn at_rest() -> Registers {
    Registers { waveform: Seq::new(32, |i: int| 0i8), freq: 0, volume: 15 }
}

/// The address lies in the waveform of a channel. The last two channels share one.
pub open spec fn in_waveform(ch: int, reg: u8) -> bool {
    let block = reg as int % 128 / 32;
    block == ch || (block == 3 && ch == 4)
}

/// The write goes to the frequency of a channel.
pub open spec fn is_frequency(w: RegisterWrite, ch: int) -> bool {
    w.chip == Chip::Scc && w.port == 1 && w.reg as int / 2 == ch
}

impl Registers {
    /// The registers of channel `ch` behind a write.
    pub open spec fn write(self, ch: int, w: RegisterWrite) -> Registers {
        if w.chip != Chip::Scc {
            self
        } else if w.port == 0 && in_waveform(ch, w.reg) {
            Registers {
                waveform: self.waveform.update(w.reg as int % 32, signed8(w.value)),
                ..self
            }
        } else if is_frequency(w, ch) {
            Registers {
                freq: if w.reg % 2 == 1 {
                    (self.freq as int % 256 + 256 * (w.value as int % 16)) as u16
                } else {
                    (256 * (self.freq as int / 256) + w.value) as u16
                },
                ..self
            }
        } else if w.port == 2 && w.reg == ch {
            Registers { volume: w.value % 16, ..self }
        } else {
            self
        }
    }
}

/// The registers of a channel behind the first `k` writes.
pub open spec fn registers(writes: Seq<RegisterWrite>, ch: int, k: int) -> Registers
    decreases k,
{
    if k <= 0 {
        at_rest()
    } else {
        registers(writes, ch, k - 1).write(ch, writes[k - 1])
    }
}

/// The end of the writes that come at the same time as write `i`, from `j` on.
pub open spec fn group_end(writes: Seq<RegisterWrite>, at: u64, j: int) -> int
    decreases writes.len() - j,
{
    if j < writes.len() && writes[j].at_sample == at {
        group_end(writes, at, j + 1)
    } else {
        j
    }
}

/// The keys that were written last between two writes, if any were.
pub open spec fn keys(writes: Seq<RegisterWrite>, i: int, j: int) -> Option<u8>
    decreases j - i,
{
    if j <= i {
        None
    } else if writes[j - 1].chip == Chip::Scc && writes[j - 1].port == 3 && writes[j - 1].reg
        == 0 {
        Some(writes[j - 1].value)
    } else {
        keys(writes, i, j - 1)
    }
}

/// The key of a channel among the keys.
pub open spec fn key_of(mask: u8, ch: int) -> bool {
    if ch == 0 {
        mask % 2 == 1
    } else if ch == 1 {
        mask / 2 % 2 == 1
    } else if ch == 2 {
        mask / 4 % 2 == 1
    } else if ch == 3 {
        mask / 8 % 2 == 1
    } else {
        mask / 16 % 2 == 1
    }
}

/// The channel's frequency is written again from write `k` on, no later than the limit.
pub open spec fn written_soon(writes: Seq<RegisterWrite>, k: int, ch: int, limit: int) -> bool
    decreases writes.len() - k,
{
    if k >= writes.len() || writes[k].at_sample > limit {
        false
    } else {
        is_frequency(writes[k], ch) || written_soon(writes, k + 1, ch, limit)
    }
}

/// A stretch that is played with one note and one waveform.
#[verifier::ext_equal]
pub struct SpanView {
    pub start: u64,
    pub end: u64,
    pub pitch: i32,
    pub velocity: i32,
    pub waveform: Seq<i8>,
    /// The frequency and its later changes: times and registers.
    pub bends: Seq<(u64, u16)>,
    /// The volume and its later changes.
    pub volumes: Seq<(u64, u8)>,
}

/// What is played on a channel. The end of an open span is not known yet: it stands at its
/// start.
#[verifier::ext_equal]
pub struct PlayedView {
    /// The frequency that the last decision was made on: the register holds half of the next
    /// one for a moment.
    pub settled: u16,
    pub key: bool,
    pub open: Option<SpanView>,
    pub spans: Seq<SpanView>,
}

pub open spec fn velocity_of(volume: u8) -> i32 {
    let v = volume as int * 127 / 15;
    if v < 1 {
        1
    } else {
        v as i32
    }
}

/// The channel can be heard: the chip stands still below a frequency of 9.
pub open spec fn audible(r: Registers) -> bool {
    r.freq > 8
}

/// The note of the frequency in a register.
pub open spec fn note_at(tones: Seq<i64>, freq: u16) -> i32 {
    note_of(tones[freq as int])
}

impl PlayedView {
    pub open spec fn opened(self, r: Registers, at: u64, tones: Seq<i64>) -> PlayedView {
        if audible(r) {
            PlayedView {
                settled: r.freq,
                open: Some(
                    SpanView {
                        start: at,
                        end: at,
                        pitch: note_at(tones, r.freq),
                        velocity: velocity_of(r.volume),
                        waveform: r.waveform,
                        bends: seq![(at, r.freq)],
                        volumes: seq![(at, r.volume)],
                    },
                ),
                ..self
            }
        } else {
            self
        }
    }

    pub open spec fn closed_at(self, at: u64) -> PlayedView {
        match self.open {
            None => self,
            Some(o) => PlayedView {
                open: None,
                spans: if at > o.start {
                    self.spans.push(SpanView { end: at, ..o })
                } else {
                    self.spans
                },
                ..self
            },
        }
    }

    /// Behind the keys that were written.
    pub open spec fn keyed(
        self,
        r: Registers,
        mask: Option<u8>,
        ch: int,
        at: u64,
        tones: Seq<i64>,
    ) -> PlayedView {
        match mask {
            None => self,
            Some(m) => if key_of(m, ch) == self.key {
                self
            } else if key_of(m, ch) {
                PlayedView { key: true, ..self }.opened(r, at, tones)
            } else {
                PlayedView { key: false, ..self }.closed_at(at)
            },
        }
    }

    /// No decision is made yet: half of the frequency is still to come.
    pub open spec fn frozen(self, r: Registers, soon: bool) -> bool {
        r.freq != self.settled && soon
    }

    /// A held key is heard again when its channel gets a frequency.
    pub open spec fn recovered(self, r: Registers, at: u64, tones: Seq<i64>, frozen: bool) -> PlayedView {
        if !frozen && self.key && self.open is None && audible(r) && r.freq != self.settled {
            self.opened(r, at, tones)
        } else {
            self
        }
    }

    /// The frequency is still that of the note that is played.
    pub open spec fn same_note(self, r: Registers, tones: Seq<i64>) -> bool {
        match self.open {
            Some(o) => audible(r) && note_at(tones, r.freq) == o.pitch,
            None => false,
        }
    }

    /// A new note. Where the one before has only just started, it takes its place.
    pub open spec fn restarted(self, r: Registers, at: u64, tones: Seq<i64>) -> PlayedView {
        match self.open {
            Some(o) if at - o.start < NOTE_ONSET_COALESCE_SAMPLES => self.opened(
                r,
                o.start,
                tones,
            ),
            _ => self.closed_at(at).opened(r, at, tones),
        }
    }

    /// The open span with a bend, and with a change of its volume.
    pub open spec fn bent(self, r: Registers, at: u64, bend: bool, change: bool) -> PlayedView {
        match self.open {
            None => self,
            Some(o) => PlayedView {
                open: Some(
                    SpanView {
                        bends: if bend {
                            o.bends.push((at, r.freq))
                        } else {
                            o.bends
                        },
                        volumes: if change {
                            o.volumes.push((at, r.volume))
                        } else {
                            o.volumes
                        },
                        ..o
                    },
                ),
                ..self
            },
        }
    }

    /// A channel that was playing takes what changed as a new note or as a bend.
    pub open spec fn judged(
        self,
        before: Registers,
        r: Registers,
        at: u64,
        tones: Seq<i64>,
        frozen: bool,
    ) -> PlayedView {
        let bend = !frozen && r.freq != self.settled;
        let change = r.volume != before.volume;
        let settled = PlayedView {
            settled: if bend {
                r.freq
            } else {
                self.settled
            },
            ..self
        };
        if !self.key {
            self
        } else if r.waveform != before.waveform || (bend && !self.same_note(r, tones)) || r.volume
            - before.volume >= REARTICULATION_VOLUME_JUMP {
            settled.restarted(r, at, tones)
        } else {
            settled.bent(r, at, bend, change)
        }
    }

    /// Behind a group of writes.
    pub open spec fn after_group(
        self,
        before: Registers,
        r: Registers,
        mask: Option<u8>,
        ch: int,
        at: u64,
        tones: Seq<i64>,
        soon: bool,
    ) -> PlayedView {
        let keyed = self.keyed(r, mask, ch, at, tones);
        let frozen = keyed.frozen(r, soon);
        let recovered = keyed.recovered(r, at, tones, frozen);
        if self.open is Some {
            recovered.judged(before, r, at, tones, frozen)
        } else {
            recovered
        }
    }

    /// Behind all writes from write `i` on.
    pub open spec fn played(self, writes: Seq<RegisterWrite>, i: int, ch: int, tones: Seq<i64>) -> PlayedView
        decreases writes.len() - i,
        when 0 <= i
    {
        if i >= writes.len() {
            self
        } else {
            let at = writes[i].at_sample;
            let j = group_end(writes, at, i + 1);
            proof {
                lemma_group_end(writes, at, i + 1);
            }
            self.after_group(
                registers(writes, ch, i),
                registers(writes, ch, j),
                keys(writes, i, j),
                ch,
                at,
                tones,
                written_soon(writes, j, ch, at + NOTE_ONSET_COALESCE_SAMPLES),
            ).played(writes, j, ch, tones)
        }
    }
}

pub proof fn lemma_group_end(writes: Seq<RegisterWrite>, at: u64, j: int)
    requires
        j <= writes.len(),
    ensures
        j <= group_end(writes, at, j) <= writes.len(),
    decreases writes.len() - j,
{
    if j < writes.len() && writes[j].at_sample == at {
        lemma_group_end(writes, at, j + 1);
    }
}

/// A silent channel.
pub open spec fn unplayed() -> PlayedView {
    PlayedView { settled: 0, key: false, open: None, spans: Seq::empty() }
}

/// The spans of a channel.
pub open spec fn spans_of(
    writes: Seq<RegisterWrite>,
    total_samples: u64,
    ch: int,
    tones: Seq<i64>,
) -> Seq<SpanView> {
    unplayed().played(writes, 0, ch, tones).closed_at(total_samples).spans
}

/// A stretch that is played with one note and one waveform.
#[derive(Debug)]
pub struct Span {
    pub start: u64,
    pub end: u64,
    pub pitch: i32,
    pub velocity: i32,
    pub waveform: Vec<i8>,
    pub bends: Vec<(u64, u16)>,
    pub volumes: Vec<(u64, u8)>,
}

impl View for Span {
    type V = SpanView;

    open spec fn view(&self) -> SpanView {
        SpanView {
            start: self.start,
            end: self.end,
            pitch: self.pitch,
            velocity: self.velocity,
            waveform: self.waveform@,
            bends: self.bends@,
            volumes: self.volumes@,
        }
    }
}

/// What spans hold.
pub open spec fn span_views(spans: Seq<Span>) -> Seq<SpanView> {
    spans.map_values(|s: Span| s@)
}

fn copy_wave(wave: &Vec<i8>) -> (r: Vec<i8>)
    ensures
        r@ == wave@,
{
    let mut out: Vec<i8> = Vec::new();
    let mut i: usize = 0;
    while i < wave.len()
        invariant
            i <= wave.len(),
            out@ == wave@.take(i as int),
        decreases wave.len() - i,
    {
        out.push(wave[i]);
        i += 1;
        assert(wave@.take(i as int) =~= wave@.take(i - 1).push(wave@[i - 1]));
    }
    assert(wave@.take(i as int) =~= wave@);
    out
}

fn same_wave(a: &Vec<i8>, b: &Vec<i8>) -> (r: bool)
    ensures
        r == (a@ == b@),
{
    if a.len() != b.len() {
        return false;
    }
    let mut i: usize = 0;
    while i < a.len()
        invariant
            i <= a.len(),
            a.len() == b.len(),
            a@.take(i as int) == b@.take(i as int),
        decreases a.len() - i,
    {
        if a[i] != b[i] {
            assert(a@[i as int] != b@[i as int]);
            return false;
        }
        i += 1;
        assert(a@.take(i as int) =~= a@.take(i - 1).push(a@[i - 1]));
        assert(b@.take(i as int) =~= b@.take(i - 1).push(b@[i - 1]));
    }
    assert(a@.take(i as int) =~= a@);
    assert(b@.take(i as int) =~= b@);
    true
}

struct Bank {
    waveform: Vec<i8>,
    freq: u16,
    volume: u8,
}

impl Bank {
    spec fn registers(self) -> Registers {
        Registers { waveform: self.waveform@, freq: self.freq, volume: self.volume }
    }

    spec fn wf(self) -> bool {
        &&& self.waveform.len() == 32
        &&& self.freq < SCC_TONES
        &&& self.volume < 16
    }

    fn new() -> (r: Bank)
        ensures
            r.wf(),
            r.registers() == at_rest(),
    {
        let mut waveform: Vec<i8> = Vec::new();
        let mut i: usize = 0;
        while i < 32
            invariant
                i <= 32,
                waveform@ == Seq::new(i as nat, |k: int| 0i8),
            decreases 32 - i,
        {
            waveform.push(0);
            i += 1;
            assert(waveform@ =~= Seq::new(i as nat, |k: int| 0i8));
        }
        Bank { waveform, freq: 0, volume: 15 }
    }

    fn copy(&self) -> (r: Bank)
        ensures
            r.registers() == self.registers(),
            self.wf() ==> r.wf(),
    {
        Bank { waveform: copy_wave(&self.waveform), freq: self.freq, volume: self.volume }
    }

    fn write(&mut self, ch: usize, w: &RegisterWrite)
        requires
            old(self).wf(),
        ensures
            final(self).wf(),
            final(self).registers() == old(self).registers().write(ch as int, *w),
    {
        if w.chip == Chip::Scc {
            let block: usize = (w.reg % 128 / 32) as usize;
            if w.port == 0 && (block == ch || (block == 3 && ch == 4)) {
                let at: usize = (w.reg % 32) as usize;
                self.waveform.set(at, signed_byte(w.value));
            } else if w.port == 1 && (w.reg / 2) as usize == ch {
                self.freq = if w.reg % 2 == 1 {
                    self.freq % 256 + 256 * (w.value as u16 % 16)
                } else {
                    256 * (self.freq / 256) + w.value as u16
                };
            } else if w.port == 2 && w.reg as usize == ch {
                self.volume = w.value % 16;
            }
        }
    }
}

fn key_bit(mask: u8, ch: usize) -> (r: bool)
    ensures
        r == key_of(mask, ch as int),
{
    if ch == 0 {
        mask % 2 == 1
    } else if ch == 1 {
        mask / 2 % 2 == 1
    } else if ch == 2 {
        mask / 4 % 2 == 1
    } else if ch == 3 {
        mask / 8 % 2 == 1
    } else {
        mask / 16 % 2 == 1
    }
}

fn velocity_from_volume(volume: u8) -> (r: i32)
    ensures
        r == velocity_of(volume),
{
    let v: i32 = volume as i32 * 127 / 15;
    if v < 1 {
        1
    } else {
        v
    }
}

fn freq_write_incoming_soon(writes: &Vec<RegisterWrite>, from: usize, ch: usize, at: u64) -> (r: bool)
    requires
        from <= writes.len(),
    ensures
        r == written_soon(writes@, from as int, ch as int, at + NOTE_ONSET_COALESCE_SAMPLES),
{
    let mut k: usize = from;
    while k < writes.len()
        invariant
            from <= k <= writes.len(),
            written_soon(writes@, from as int, ch as int, at + NOTE_ONSET_COALESCE_SAMPLES)
                == written_soon(writes@, k as int, ch as int, at + NOTE_ONSET_COALESCE_SAMPLES),
        decreases writes.len() - k,
    {
        let w: RegisterWrite = writes[k];
        if w.at_sample as u128 > at as u128 + NOTE_ONSET_COALESCE_SAMPLES as u128 {
            return false;
        }
        if w.chip == Chip::Scc && w.port == 1 && (w.reg / 2) as usize == ch {
            return true;
        }
        k += 1;
    }
    false
}

struct Played {
    settled: u16,
    key: bool,
    open: Option<Span>,
    spans: Vec<Span>,
}

impl Played {
    spec fn played(self) -> PlayedView {
        PlayedView {
            settled: self.settled,
            key: self.key,
            open: match self.open {
                Some(o) => Some(o@),
                None => None,
            },
            spans: span_views(self.spans@),
        }
    }

    fn open_span(&mut self, r: &Bank, at: u64, tones: &Vec<i64>)
        requires
            r.wf(),
            tones.len() == SCC_TONES,
        ensures
            final(self).played() == old(self).played().opened(r.registers(), at, tones@),
    {
        if r.freq > 8 {
            let mut bends: Vec<(u64, u16)> = Vec::new();
            bends.push((at, r.freq));
            let mut volumes: Vec<(u64, u8)> = Vec::new();
            volumes.push((at, r.volume));
            proof {
                assert(bends@ =~= seq![(at, r.freq)]);
                assert(volumes@ =~= seq![(at, r.volume)]);
            }
            self.settled = r.freq;
            self.open = Some(
                Span {
                    start: at,
                    end: at,
                    pitch: note_of_tone(tones[r.freq as usize]),
                    velocity: velocity_from_volume(r.volume),
                    waveform: copy_wave(&r.waveform),
                    bends,
                    volumes,
                },
            );
        }
    }

    fn close_span(&mut self, at: u64)
        ensures
            final(self).played() == old(self).played().closed_at(at),
    {
        let ghost before = self.spans@;
        match self.open.take() {
            Some(o) => {
                if at > o.start {
                    let mut span: Span = o;
                    span.end = at;
                    self.spans.push(span);
                    assert(span_views(self.spans@) =~= span_views(before).push(span@));
                }
            },
            None => {},
        }
    }

    fn turn_key(&mut self, r: &Bank, mask: Option<u8>, ch: usize, at: u64, tones: &Vec<i64>)
        requires
            r.wf(),
            tones.len() == SCC_TONES,
        ensures
            final(self).played() == old(self).played().keyed(
                r.registers(),
                mask,
                ch as int,
                at,
                tones@,
            ),
    {
        match mask {
            None => {},
            Some(m) => {
                let key: bool = key_bit(m, ch);
                if key != self.key {
                    self.key = key;
                    if key {
                        self.open_span(r, at, tones);
                    } else {
                        self.close_span(at);
                    }
                }
            },
        }
    }

    fn judge(&mut self, before: &Bank, r: &Bank, at: u64, tones: &Vec<i64>, frozen: bool)
        requires
            r.wf(),
            before.wf(),
            tones.len() == SCC_TONES,
        ensures
            final(self).played() == old(self).played().judged(
                before.registers(),
                r.registers(),
                at,
                tones@,
                frozen,
            ),
    {
        if !self.key {
            return ;
        }
        let bend: bool = !frozen && r.freq != self.settled;
        let change: bool = r.volume != before.volume;
        let same_note: bool = match &self.open {
            Some(o) => r.freq > 8 && note_of_tone(tones[r.freq as usize]) == o.pitch,
            None => false,
        };
        let attack: bool = r.volume as i32 - before.volume as i32
            >= REARTICULATION_VOLUME_JUMP as i32;
        let rewritten: bool = !same_wave(&r.waveform, &before.waveform);
        if bend {
            self.settled = r.freq;
        }
        if rewritten || (bend && !same_note) || attack {
            let fresh: Option<u64> = match &self.open {
                Some(o) => if (at as i128 - o.start as i128)
                    < NOTE_ONSET_COALESCE_SAMPLES as i128 {
                    Some(o.start)
                } else {
                    None
                },
                None => None,
            };
            match fresh {
                Some(start) => {
                    self.open_span(r, start, tones);
                },
                None => {
                    self.close_span(at);
                    self.open_span(r, at, tones);
                },
            }
        } else {
            match self.open.take() {
                Some(o) => {
                    let mut span: Span = o;
                    if bend {
                        span.bends.push((at, r.freq));
                    }
                    if change {
                        span.volumes.push((at, r.volume));
                    }
                    self.open = Some(span);
                },
                None => {},
            }
        }
    }

    fn take_group(
        &mut self,
        before: &Bank,
        r: &Bank,
        mask: Option<u8>,
        ch: usize,
        at: u64,
        tones: &Vec<i64>,
        soon: bool,
    )
        requires
            r.wf(),
            before.wf(),
            tones.len() == SCC_TONES,
        ensures
            final(self).played() == old(self).played().after_group(
                before.registers(),
                r.registers(),
                mask,
                ch as int,
                at,
                tones@,
                soon,
            ),
    {
        let was_playing: bool = self.open.is_some();
        self.turn_key(r, mask, ch, at, tones);
        let frozen: bool = r.freq != self.settled && soon;
        if !frozen && self.key && self.open.is_none() && r.freq > 8 && r.freq != self.settled {
            self.open_span(r, at, tones);
        }
        if was_playing {
            self.judge(before, r, at, tones, frozen);
        }
    }
}

/// Finds the spans of a channel. The tones are those of the frequencies that its register can
/// hold, in millionths of a semitone.
pub fn extract_spans(writes: &Vec<RegisterWrite>, total_samples: u64, ch: usize, tones: &Vec<i64>) -> (r:
    Vec<Span>)
    requires
        tones.len() == SCC_TONES,
    ensures
        span_views(r@) == spans_of(writes@, total_samples, ch as int, tones@),
{
    let mut bank: Bank = Bank::new();
    let mut state = Played { settled: 0, key: false, open: None, spans: Vec::new() };
    assert(span_views(state.spans@) =~= Seq::<SpanView>::empty());
    let ghost whole = unplayed().played(writes@, 0, ch as int, tones@);
    let mut i: usize = 0;
    while i < writes.len()
        invariant
            i <= writes.len(),
            tones.len() == SCC_TONES,
            bank.wf(),
            bank.registers() == registers(writes@, ch as int, i as int),
            state.played().played(writes@, i as int, ch as int, tones@) == whole,
        decreases writes.len() - i,
    {
        let at: u64 = writes[i].at_sample;
        let before: Bank = bank.copy();
        let mut mask: Option<u8> = None;
        let mut j: usize = i;
        proof {
            lemma_group_end(writes@, at, i + 1);
        }
        while j < writes.len() && writes[j].at_sample == at
            invariant
                i <= j <= writes.len(),
                i < writes.len(),
                at == writes[i as int].at_sample,
                bank.wf(),
                bank.registers() == registers(writes@, ch as int, j as int),
                mask == keys(writes@, i as int, j as int),
                i < j ==> group_end(writes@, at, j as int) == group_end(writes@, at, i + 1),
            decreases writes.len() - j,
        {
            let w: RegisterWrite = writes[j];
            bank.write(ch, &w);
            if w.chip == Chip::Scc && w.port == 3 && w.reg == 0 {
                mask = Some(w.value);
            }
            j += 1;
        }
        let soon: bool = freq_write_incoming_soon(writes, j, ch, at);
        state.take_group(&before, &bank, mask, ch, at, tones, soon);
        i = j;
    }
    state.close_span(total_samples);
    state.spans
}

/// The spans with every short one from `i` on given to a neighbour: the one before it, or for
/// the first the one behind. No time that is played is lost.
pub open spec fn merged_from(spans: Seq<SpanView>, i: int) -> Seq<SpanView>
    decreases spans.len() - i,
{
    if spans.len() <= 1 || i < 0 || i >= spans.len() {
        spans
    } else if spans[i].end - spans[i].start >= MIN_SPAN_SAMPLES {
        merged_from(spans, i + 1)
    } else if i > 0 {
        merged_from(
            spans.update(i - 1, SpanView { end: spans[i].end, ..spans[i - 1] }).remove(i),
            i,
        )
    } else {
        merged_from(
            spans.update(1, SpanView { start: spans[0].start, ..spans[1] }).remove(0),
            0,
        )
    }
}

/// Gives every short span to a neighbour.
pub fn merge_short_spans(spans: Vec<Span>) -> (r: Vec<Span>)
    ensures
        span_views(r@) == merged_from(span_views(spans@), 0),
{
    let mut spans: Vec<Span> = spans;
    let ghost whole = merged_from(span_views(spans@), 0);
    let mut i: usize = 0;
    while spans.len() > 1 && i < spans.len()
        invariant
            i <= spans.len(),
            merged_from(span_views(spans@), i as int) == whole,
        decreases spans.len() - i,
    {
        let ghost views = span_views(spans@);
        assert(views[i as int] == spans[i as int]@);
        let end: u64 = spans[i].end;
        let start: u64 = spans[i].start;
        if end as i128 - start as i128 >= MIN_SPAN_SAMPLES as i128 {
            i += 1;
        } else if i > 0 {
            assert(views[i - 1] == spans[i - 1]@);
            spans[i - 1].end = end;
            spans.remove(i);
            assert(span_views(spans@) =~= views.update(
                i - 1,
                SpanView { end: views[i as int].end, ..views[i - 1] },
            ).remove(i as int));
        } else {
            assert(views[1] == spans[1]@);
            spans[1].start = start;
            spans.remove(0);
            assert(span_views(spans@) =~= views.update(
                1,
                SpanView { start: views[0].start, ..views[1] },
            ).remove(0));
        }
    }
    spans
}

/// The spans follow each other.
pub open spec fn in_order(spans: Seq<SpanView>) -> bool {
    &&& forall|i: int| 0 <= i < spans.len() ==> (#[trigger] spans[i]).start <= spans[i].end
    &&& forall|i: int, j: int| 0 <= i < j < spans.len() ==> spans[i].end <= spans[j].start
}

/// Something is played at a time.
pub open spec fn plays_at(spans: Seq<SpanView>, t: int) -> bool {
    exists|i: int| 0 <= i < spans.len() && (#[trigger] spans[i]).start <= t < spans[i].end
}

proof fn lemma_merge_step(spans: Seq<SpanView>, i: int, out: Seq<SpanView>)
    requires
        in_order(spans),
        spans.len() > 1,
        0 <= i < spans.len(),
        i > 0 ==> out == spans.update(i - 1, SpanView { end: spans[i].end, ..spans[i - 1] }).remove(
            i,
        ),
        i == 0 ==> out == spans.update(1, SpanView { start: spans[0].start, ..spans[1] }).remove(0),
    ensures
        in_order(out),
        forall|t: int| #[trigger] plays_at(spans, t) ==> plays_at(out, t),
{
    assert(forall|k: int, j: int| 0 <= k < j < spans.len() ==> spans[k].end <= spans[j].start);
    assert forall|k: int| 0 <= k < out.len() implies (#[trigger] out[k]).start <= out[k].end by {
        if i > 0 {
            if k == i - 1 {
                assert(spans[i - 1].end <= spans[i].start);
            } else if k < i - 1 {
                assert(out[k] == spans[k]);
            } else {
                assert(out[k] == spans[k + 1]);
            }
        } else {
            if k == 0 {
                assert(spans[0].end <= spans[1].start);
            } else {
                assert(out[k] == spans[k + 1]);
            }
        }
    }
    assert forall|k: int, j: int| 0 <= k < j < out.len() implies out[k].end <= out[j].start by {
        if i > 0 {
            let a = if k <= i - 1 {
                k
            } else {
                k + 1
            };
            let b = if j <= i - 1 {
                j
            } else {
                j + 1
            };
            assert(spans[a].end <= spans[b].start);
            if k == i - 1 {
                assert(spans[i].end <= spans[b].start);
            }
        } else {
            assert(spans[k + 1].end <= spans[j + 1].start);
        }
    }
    assert forall|t: int| #[trigger] plays_at(spans, t) implies plays_at(out, t) by {
        let k = choose|k: int| 0 <= k < spans.len() && (#[trigger] spans[k]).start <= t
            < spans[k].end;
        if i > 0 {
            assert(spans[i - 1].start <= spans[i - 1].end <= spans[i].start);
            let to = if k < i {
                k
            } else {
                k - 1
            };
            assert(out[to].start <= t < out[to].end);
        } else {
            assert(spans[0].end <= spans[1].start <= spans[1].end);
            let to = if k == 0 {
                0
            } else {
                k - 1
            };
            assert(out[to].start <= t < out[to].end);
        }
    }
}

proof fn lemma_merged(spans: Seq<SpanView>, i: int)
    requires
        in_order(spans),
        0 <= i <= spans.len(),
        forall|k: int|
            0 <= k < i ==> (#[trigger] spans[k]).end - spans[k].start >= MIN_SPAN_SAMPLES,
    ensures
        in_order(merged_from(spans, i)),
        forall|t: int| #[trigger] plays_at(spans, t) ==> plays_at(merged_from(spans, i), t),
        merged_from(spans, i).len() <= 1 || forall|k: int|
            0 <= k < merged_from(spans, i).len() ==> (#[trigger] merged_from(spans, i)[k]).end
                - merged_from(spans, i)[k].start >= MIN_SPAN_SAMPLES,
        spans.len() > 0 ==> merged_from(spans, i).len() > 0,
    decreases spans.len() - i,
{
    if spans.len() <= 1 || i >= spans.len() {
    } else if spans[i].end - spans[i].start >= MIN_SPAN_SAMPLES {
        lemma_merged(spans, i + 1);
    } else if i > 0 {
        let out = spans.update(i - 1, SpanView { end: spans[i].end, ..spans[i - 1] }).remove(i);
        lemma_merge_step(spans, i, out);
        assert forall|k: int| 0 <= k < i implies (#[trigger] out[k]).end - out[k].start
            >= MIN_SPAN_SAMPLES by {
            if k < i - 1 {
                assert(out[k] == spans[k]);
            } else {
                assert(spans[i - 1].end <= spans[i].start <= spans[i].end);
            }
        }
        lemma_merged(out, i);
        assert forall|t: int| #[trigger] plays_at(spans, t) implies plays_at(
            merged_from(spans, i),
            t,
        ) by {
            assert(plays_at(out, t));
        }
    } else {
        let out = spans.update(1, SpanView { start: spans[0].start, ..spans[1] }).remove(0);
        lemma_merge_step(spans, 0, out);
        lemma_merged(out, 0);
        assert forall|t: int| #[trigger] plays_at(spans, t) implies plays_at(
            merged_from(spans, i),
            t,
        ) by {
            assert(plays_at(out, t));
        }
    }
}

/// Merging short spans loses no time that was played, keeps the spans apart, and leaves no
/// short one but where there is a single span.
pub proof fn law_merging_loses_no_time(spans: Seq<SpanView>)
    requires
        in_order(spans),
    ensures
        in_order(merged_from(spans, 0)),
        forall|t: int| #[trigger] plays_at(spans, t) ==> plays_at(merged_from(spans, 0), t),
        merged_from(spans, 0).len() <= 1 || forall|k: int|
            0 <= k < merged_from(spans, 0).len() ==> (#[trigger] merged_from(spans, 0)[k]).end
                - merged_from(spans, 0)[k].start >= MIN_SPAN_SAMPLES,
{
    lemma_merged(spans, 0);
}

/// What was played up to a time lies before it, span after span.
pub open spec fn in_order_up_to(p: PlayedView, now: u64) -> bool {
    &&& in_order(p.spans)
    &&& forall|i: int| 0 <= i < p.spans.len() ==> (#[trigger] p.spans[i]).end <= now
    &&& match p.open {
        Some(o) => o.start <= now && forall|i: int|
            0 <= i < p.spans.len() ==> (#[trigger] p.spans[i]).end <= o.start,
        None => true,
    }
}

proof fn lemma_closed_in_order(p: PlayedView, now: u64, at: u64)
    requires
        in_order_up_to(p, now),
        now <= at,
    ensures
        in_order_up_to(p.closed_at(at), at),
{
}

proof fn lemma_group_in_order(
    p: PlayedView,
    now: u64,
    before: Registers,
    r: Registers,
    mask: Option<u8>,
    ch: int,
    at: u64,
    tones: Seq<i64>,
    soon: bool,
)
    requires
        in_order_up_to(p, now),
        now <= at,
    ensures
        in_order_up_to(p.after_group(before, r, mask, ch, at, tones, soon), at),
{
    let keyed = p.keyed(r, mask, ch, at, tones);
    assert(in_order_up_to(keyed, at));
    let frozen = keyed.frozen(r, soon);
    let recovered = keyed.recovered(r, at, tones, frozen);
    assert(in_order_up_to(recovered, at));
    if p.open is Some {
        let bend = !frozen && r.freq != recovered.settled;
        let settled = PlayedView {
            settled: if bend {
                r.freq
            } else {
                recovered.settled
            },
            ..recovered
        };
        assert(in_order_up_to(settled, at));
        lemma_closed_in_order(settled, at, at);
        assert(in_order_up_to(settled.restarted(r, at, tones), at));
        assert(in_order_up_to(settled.bent(r, at, bend, r.volume != before.volume), at));
    }
}

/// The writes stand in the order of their times.
pub open spec fn chronological(writes: Seq<RegisterWrite>) -> bool {
    forall|i: int, j: int|
        0 <= i <= j < writes.len() ==> writes[i].at_sample <= writes[j].at_sample
}

proof fn lemma_played_in_order(
    p: PlayedView,
    now: u64,
    end: u64,
    writes: Seq<RegisterWrite>,
    i: int,
    ch: int,
    tones: Seq<i64>,
)
    requires
        in_order_up_to(p, now),
        now <= end,
        chronological(writes),
        0 <= i <= writes.len(),
        i < writes.len() ==> now <= writes[i].at_sample,
        forall|k: int| 0 <= k < writes.len() ==> (#[trigger] writes[k]).at_sample <= end,
    ensures
        in_order_up_to(p.played(writes, i, ch, tones), end),
    decreases writes.len() - i,
{
    if i < writes.len() {
        let at = writes[i].at_sample;
        let j = group_end(writes, at, i + 1);
        lemma_group_end(writes, at, i + 1);
        let soon = written_soon(writes, j, ch, at + NOTE_ONSET_COALESCE_SAMPLES);
        lemma_group_in_order(
            p,
            now,
            registers(writes, ch, i),
            registers(writes, ch, j),
            keys(writes, i, j),
            ch,
            at,
            tones,
            soon,
        );
        lemma_played_in_order(
            p.after_group(
                registers(writes, ch, i),
                registers(writes, ch, j),
                keys(writes, i, j),
                ch,
                at,
                tones,
                soon,
            ),
            at,
            end,
            writes,
            j,
            ch,
            tones,
        );
    }
}

/// A channel plays one span at a time: the spans of a file whose writes stand in the order of
/// their times do not overlap, neither before short ones are merged nor behind that.
pub proof fn law_spans_do_not_overlap(
    writes: Seq<RegisterWrite>,
    total_samples: u64,
    ch: int,
    tones: Seq<i64>,
)
    requires
        chronological(writes),
    ensures
        in_order(spans_of(writes, total_samples, ch, tones)),
        in_order(merged_from(spans_of(writes, total_samples, ch, tones), 0)),
{
    lemma_played_in_order(unplayed(), 0, u64::MAX, writes, 0, ch, tones);
    let p = unplayed().played(writes, 0, ch, tones);
    assert(in_order(p.closed_at(total_samples).spans));
    lemma_merged(spans_of(writes, total_samples, ch, tones), 0);
}

/// A waveform, from a time on.
#[derive(Debug)]
pub struct WaveformFrame {
    pub at: i64,
    pub waveform: Vec<i8>,
}

/// The tracks of a channel, with times in millionths of a beat.
#[derive(Debug)]
pub struct ChannelTrack {
    /// The waveforms in the order of their use; no two that follow each other are the same.
    pub frames: Vec<WaveformFrame>,
    pub notes: Vec<ClippedNote>,
    /// How far the channel is from the note that is played, in millionths of a semitone.
    pub pitch_bends: Vec<Point>,
    /// In millionths.
    pub gains: Vec<Point>,
}

/// What a `ChannelTrack` holds.
#[verifier::ext_equal]
pub struct ChannelTrackView {
    pub frames: Seq<(i64, Seq<i8>)>,
    pub notes: Seq<ClippedNote>,
    pub pitch_bends: Seq<Point>,
    pub gains: Seq<Point>,
}

/// What frames hold.
pub open spec fn frame_views(frames: Seq<WaveformFrame>) -> Seq<(i64, Seq<i8>)> {
    frames.map_values(|f: WaveformFrame| (f.at, f.waveform@))
}

impl View for ChannelTrack {
    type V = ChannelTrackView;

    open spec fn view(&self) -> ChannelTrackView {
        ChannelTrackView {
            frames: frame_views(self.frames@),
            notes: self.notes@,
            pitch_bends: self.pitch_bends@,
            gains: self.gains@,
        }
    }
}

/// Half of a span, or the span without the gap behind it if that is longer: in halves of a
/// sample.
pub open spec fn sounding_halves(s: SpanView) -> int {
    let n = s.end - s.start;
    if 2 * (n - NOTE_GAP_SAMPLES) > n {
        2 * (n - NOTE_GAP_SAMPLES)
    } else {
        n
    }
}

/// The note of a span.
pub open spec fn span_note(s: SpanView, pace: Pace) -> ClippedNote {
    ClippedNote {
        start: pace.micros(s.start as int),
        duration: pace.micros_of_halves(sounding_halves(s)),
        velocity: s.velocity,
        pitch: s.pitch,
    }
}

/// The bends of a span: the first is a jump, the others glide.
pub open spec fn span_bends(s: SpanView, pace: Pace, tones: Seq<i64>) -> Seq<Point> {
    Seq::new(
        s.bends.len(),
        |k: int|
            Point {
                time: pace.micros(s.bends[k].0 as int),
                value: clamped(tones[s.bends[k].1 as int] - 1_000_000 * s.pitch),
                glide: k > 0,
            },
    )
}

/// The gains of a span.
pub open spec fn span_gains(s: SpanView, pace: Pace) -> Seq<Point> {
    Seq::new(
        s.volumes.len(),
        |k: int|
            Point {
                time: pace.micros(s.volumes[k].0 as int),
                value: nearest(1_000_000 * s.volumes[k].1, 15) as i64,
                glide: k > 0,
            },
    )
}

/// The track of spans.
pub open spec fn track_of_spans(spans: Seq<SpanView>, pace: Pace, tones: Seq<i64>) -> ChannelTrackView
    decreases spans.len(),
{
    if spans.len() == 0 {
        ChannelTrackView {
            frames: Seq::empty(),
            notes: Seq::empty(),
            pitch_bends: Seq::empty(),
            gains: Seq::empty(),
        }
    } else {
        let before = track_of_spans(spans.drop_last(), pace, tones);
        let s = spans.last();
        ChannelTrackView {
            frames: if before.frames.len() > 0 && before.frames.last().1 == s.waveform {
                before.frames
            } else {
                before.frames.push((pace.micros(s.start as int), s.waveform))
            },
            notes: before.notes.push(span_note(s, pace)),
            pitch_bends: before.pitch_bends + span_bends(s, pace, tones),
            gains: before.gains + span_gains(s, pace),
        }
    }
}

/// The track of a channel.
pub open spec fn channel_track(
    writes: Seq<RegisterWrite>,
    total_samples: u64,
    ch: int,
    tones: Seq<i64>,
    pace: Pace,
) -> ChannelTrackView {
    track_of_spans(merged_from(spans_of(writes, total_samples, ch, tones), 0), pace, tones)
}

/// No waveform follows itself, and a channel with notes has one.
pub proof fn law_frames_differ(spans: Seq<SpanView>, pace: Pace, tones: Seq<i64>)
    ensures
        ({
            let t = track_of_spans(spans, pace, tones);
            &&& forall|i: int|
                0 < i < t.frames.len() ==> (#[trigger] t.frames[i]).1 != t.frames[i - 1].1
            &&& t.notes.len() == spans.len()
            &&& t.notes.len() > 0 ==> t.frames.len() > 0
            &&& t.frames.len() <= t.notes.len()
        }),
    decreases spans.len(),
{
    if spans.len() > 0 {
        law_frames_differ(spans.drop_last(), pace, tones);
    }
}

fn bend_points(s: &Span, pace: &Pace, tones: &Vec<i64>) -> (r: Vec<Point>)
    requires
        pace.wf(),
        forall|k: int| 0 <= k < s.bends.len() ==> (#[trigger] s.bends[k]).1 < tones.len(),
    ensures
        r@ == span_bends(s@, *pace, tones@),
{
    let ghost whole = span_bends(s@, *pace, tones@);
    let mut out: Vec<Point> = Vec::new();
    let mut k: usize = 0;
    while k < s.bends.len()
        invariant
            k <= s.bends.len(),
            pace.wf(),
            forall|k: int| 0 <= k < s.bends.len() ==> (#[trigger] s.bends[k]).1 < tones.len(),
            whole == span_bends(s@, *pace, tones@),
            out@ == whole.take(k as int),
        decreases s.bends.len() - k,
    {
        let (at, freq): (u64, u16) = s.bends[k];
        let value: i128 = tones[freq as usize] as i128 - 1_000_000 * s.pitch as i128;
        out.push(Point { time: pace.samples_to_beats(at), value: clamp64(value), glide: k > 0 });
        k += 1;
        assert(whole.take(k as int) =~= whole.take(k - 1).push(whole[k - 1]));
    }
    assert(whole.take(k as int) =~= whole);
    out
}

fn gain_points(s: &Span, pace: &Pace) -> (r: Vec<Point>)
    requires
        pace.wf(),
    ensures
        r@ == span_gains(s@, *pace),
{
    let ghost whole = span_gains(s@, *pace);
    let mut out: Vec<Point> = Vec::new();
    let mut k: usize = 0;
    while k < s.volumes.len()
        invariant
            k <= s.volumes.len(),
            pace.wf(),
            whole == span_gains(s@, *pace),
            out@ == whole.take(k as int),
        decreases s.volumes.len() - k,
    {
        let (at, volume): (u64, u8) = s.volumes[k];
        let value: i128 = round_signed(1_000_000 * volume as i128, 15);
        assert(0 <= value <= 17_000_001);
        out.push(Point { time: pace.samples_to_beats(at), value: value as i64, glide: k > 0 });
        k += 1;
        assert(whole.take(k as int) =~= whole.take(k - 1).push(whole[k - 1]));
    }
    assert(whole.take(k as int) =~= whole);
    out
}

fn note_of_span(s: &Span, pace: &Pace) -> (r: ClippedNote)
    requires
        pace.wf(),
    ensures
        r == span_note(s@, *pace),
{
    let n: i128 = s.end as i128 - s.start as i128;
    let cut: i128 = 2 * (n - NOTE_GAP_SAMPLES as i128);
    let halves: i128 = if cut > n {
        cut
    } else {
        n
    };
    ClippedNote {
        start: pace.samples_to_beats(s.start),
        duration: pace.half_samples_to_beats(halves),
        velocity: s.velocity,
        pitch: s.pitch,
    }
}

fn add_span(track: &mut ChannelTrack, s: &Span, pace: &Pace, tones: &Vec<i64>)
    requires
        pace.wf(),
        forall|k: int| 0 <= k < s.bends.len() ==> (#[trigger] s.bends[k]).1 < tones.len(),
    ensures
        ({
            let before = old(track)@;
            final(track)@ == ChannelTrackView {
                frames: if before.frames.len() > 0 && before.frames.last().1 == s@.waveform {
                    before.frames
                } else {
                    before.frames.push((pace.micros(s.start as int), s@.waveform))
                },
                notes: before.notes.push(span_note(s@, *pace)),
                pitch_bends: before.pitch_bends + span_bends(s@, *pace, tones@),
                gains: before.gains + span_gains(s@, *pace),
            }
        }),
{
    let start: i64 = pace.samples_to_beats(s.start);
    let count: usize = track.frames.len();
    let ghost frames = track.frames@;
    let known: bool = if count > 0 {
        assert(frame_views(frames).last() == (frames[count - 1].at, frames[count - 1].waveform@));
        same_wave(&track.frames[count - 1].waveform, &s.waveform)
    } else {
        false
    };
    if !known {
        let frame = WaveformFrame { at: start, waveform: copy_wave(&s.waveform) };
        track.frames.push(frame);
        assert(frame_views(track.frames@) =~= frame_views(frames).push((start, s.waveform@)));
    }
    track.notes.push(note_of_span(s, pace));
    let mut bends: Vec<Point> = bend_points(s, pace, tones);
    track.pitch_bends.append(&mut bends);
    let mut gains: Vec<Point> = gain_points(s, pace);
    track.gains.append(&mut gains);
}

/// Every bend is a frequency of the table.
pub open spec fn bends_in_table(s: SpanView) -> bool {
    forall|k: int| 0 <= k < s.bends.len() ==> (#[trigger] s.bends[k]).1 < SCC_TONES
}

fn spans_to_track(spans: &Vec<Span>, pace: &Pace, tones: &Vec<i64>) -> (r: ChannelTrack)
    requires
        pace.wf(),
        tones.len() == SCC_TONES,
        forall|i: int| 0 <= i < spans.len() ==> bends_in_table((#[trigger] spans[i])@),
    ensures
        r@ == track_of_spans(span_views(spans@), *pace, tones@),
{
    let ghost views = span_views(spans@);
    let mut track = ChannelTrack {
        frames: Vec::new(),
        notes: Vec::new(),
        pitch_bends: Vec::new(),
        gains: Vec::new(),
    };
    let mut i: usize = 0;
    assert(views.take(0) =~= Seq::<SpanView>::empty());
    assert(frame_views(track.frames@) =~= Seq::<(i64, Seq<i8>)>::empty());
    while i < spans.len()
        invariant
            i <= spans.len(),
            pace.wf(),
            tones.len() == SCC_TONES,
            forall|i: int| 0 <= i < spans.len() ==> bends_in_table((#[trigger] spans[i])@),
            views == span_views(spans@),
            track@ == track_of_spans(views.take(i as int), *pace, tones@),
        decreases spans.len() - i,
    {
        proof {
            assert(views.take(i + 1).drop_last() =~= views.take(i as int));
            assert(views.take(i + 1).last() == spans[i as int]@);
            assert(bends_in_table(spans[i as int]@));
            assert forall|k: int| 0 <= k < spans[i as int].bends.len() implies (
            #[trigger] spans[i as int].bends[k]).1 < tones.len() by {
                assert(spans[i as int]@.bends[k].1 < SCC_TONES);
            }
        }
        add_span(&mut track, &spans[i], pace, tones);
        i += 1;
    }
    assert(views.take(i as int) =~= views);
    track
}

proof fn lemma_registers(writes: Seq<RegisterWrite>, ch: int, k: int)
    ensures
        registers(writes, ch, k).freq < SCC_TONES,
    decreases k,
{
    if k > 0 {
        lemma_registers(writes, ch, k - 1);
    }
}

/// All that was played is in the table.
pub open spec fn played_in_table(p: PlayedView) -> bool {
    &&& all_in_table(p.spans)
    &&& p.open matches Some(o) ==> bends_in_table(o)
}

proof fn lemma_played_in_table(
    p: PlayedView,
    writes: Seq<RegisterWrite>,
    i: int,
    ch: int,
    tones: Seq<i64>,
)
    requires
        played_in_table(p),
        0 <= i,
    ensures
        played_in_table(p.played(writes, i, ch, tones)),
    decreases writes.len() - i,
{
    if i < writes.len() {
        let at = writes[i].at_sample;
        let j = group_end(writes, at, i + 1);
        lemma_group_end(writes, at, i + 1);
        lemma_registers(writes, ch, j);
        let soon = written_soon(writes, j, ch, at + NOTE_ONSET_COALESCE_SAMPLES);
        let before = registers(writes, ch, i);
        let r = registers(writes, ch, j);
        let q = p.after_group(before, r, keys(writes, i, j), ch, at, tones, soon);
        let keyed = p.keyed(r, keys(writes, i, j), ch, at, tones);
        assert(played_in_table(keyed));
        let frozen = keyed.frozen(r, soon);
        let recovered = keyed.recovered(r, at, tones, frozen);
        assert(played_in_table(recovered));
        if p.open is Some {
            let bend = !frozen && r.freq != recovered.settled;
            let settled = PlayedView {
                settled: if bend {
                    r.freq
                } else {
                    recovered.settled
                },
                ..recovered
            };
            assert(played_in_table(settled.closed_at(at)));
            assert(played_in_table(settled.restarted(r, at, tones)));
            assert(played_in_table(settled.bent(r, at, bend, r.volume != before.volume)));
        }
        lemma_played_in_table(q, writes, j, ch, tones);
    }
}

/// The same of all spans.
pub open spec fn all_in_table(spans: Seq<SpanView>) -> bool {
    forall|i: int| 0 <= i < spans.len() ==> bends_in_table(#[trigger] spans[i])
}

proof fn lemma_merged_in_table(spans: Seq<SpanView>, i: int)
    requires
        all_in_table(spans),
        0 <= i,
    ensures
        all_in_table(merged_from(spans, i)),
    decreases spans.len() - i,
{
    if spans.len() <= 1 || i >= spans.len() {
    } else if spans[i].end - spans[i].start >= MIN_SPAN_SAMPLES {
        lemma_merged_in_table(spans, i + 1);
    } else if i > 0 {
        let out = spans.update(i - 1, SpanView { end: spans[i].end, ..spans[i - 1] }).remove(i);
        assert forall|k: int| 0 <= k < out.len() implies bends_in_table(#[trigger] out[k]) by {
            let from = if k < i {
                k
            } else {
                k + 1
            };
            assert(bends_in_table(spans[from]));
            assert(out[k].bends == spans[from].bends);
        }
        lemma_merged_in_table(out, i);
    } else {
        let out = spans.update(1, SpanView { start: spans[0].start, ..spans[1] }).remove(0);
        assert forall|k: int| 0 <= k < out.len() implies bends_in_table(#[trigger] out[k]) by {
            assert(bends_in_table(spans[k + 1]));
            assert(out[k].bends == spans[k + 1].bends);
        }
        lemma_merged_in_table(out, 0);
    }
}

/// Makes the track of a channel. It is empty where the channel is never heard.
pub fn extract_channel(vgm: &VgmFile, ch: usize, tones: &Vec<i64>, pace: &Pace) -> (r: ChannelTrack)
    requires
        tones.len() == SCC_TONES,
        pace.wf(),
    ensures
        r@ == channel_track(vgm.writes@, vgm.total_samples, ch as int, tones@, *pace),
{
    let found: Vec<Span> = extract_spans(&vgm.writes, vgm.total_samples, ch, tones);
    let spans: Vec<Span> = merge_short_spans(found);
    proof {
        lemma_played_in_table(unplayed(), vgm.writes@, 0, ch as int, tones@);
        let all = spans_of(vgm.writes@, vgm.total_samples, ch as int, tones@);
        assert(all_in_table(all));
        lemma_merged_in_table(all, 0);
        assert forall|i: int| 0 <= i < spans.len() implies bends_in_table(
            (#[trigger] spans[i])@,
        ) by {
            assert(span_views(spans@)[i] == spans[i]@);
        }
    }
    spans_to_track(&spans, pace, tones)
}

/// What the tracks hold.
pub open spec fn channel_track_views(tracks: Seq<ChannelTrack>) -> Seq<ChannelTrackView> {
    tracks.map_values(|t: ChannelTrack| t@)
}

/// Makes the tracks of all five channels.
pub fn extract_channels(vgm: &VgmFile, tones: &Vec<i64>, pace: &Pace) -> (r: Vec<ChannelTrack>)
    requires
        tones.len() == SCC_TONES,
        pace.wf(),
    ensures
        channel_track_views(r@) == Seq::new(
            SCC_CHANNELS as nat,
            |ch: int| channel_track(vgm.writes@, vgm.total_samples, ch, tones@, *pace),
        ),
{
    let mut out: Vec<ChannelTrack> = Vec::new();
    let ghost whole = Seq::new(
        SCC_CHANNELS as nat,
        |ch: int| channel_track(vgm.writes@, vgm.total_samples, ch, tones@, *pace),
    );
    let mut ch: usize = 0;
    while ch < SCC_CHANNELS
        invariant
            ch <= SCC_CHANNELS,
            tones.len() == SCC_TONES,
            pace.wf(),
            whole == Seq::new(
                SCC_CHANNELS as nat,
                |ch: int| channel_track(vgm.writes@, vgm.total_samples, ch, tones@, *pace),
            ),
            channel_track_views(out@) == whole.take(ch as int),
        decreases SCC_CHANNELS - ch,
    {
        let track: ChannelTrack = extract_channel(vgm, ch, tones, pace);
        assert(channel_track_views(out@.push(track)) =~= channel_track_views(out@).push(track@));
        out.push(track);
        ch += 1;
        assert(whole.take(ch as int) =~= whole.take(ch - 1).push(whole[ch - 1]));
    }
    assert(whole.take(ch as int) =~= whole);
    out
}

/// Every frequency of a span is one that rounds to its note, and its volumes are those of the
/// chip.
pub open spec fn in_tune(s: SpanView, tones: Seq<i64>) -> bool {
    &&& forall|k: int|
        0 <= k < s.bends.len() ==> 8 < (#[trigger] s.bends[k]).1 < SCC_TONES && note_at(
            tones,
            s.bends[k].1,
        ) == s.pitch
    &&& forall|k: int| 0 <= k < s.volumes.len() ==> (#[trigger] s.volumes[k]).1 < 16
}

/// The same of all spans.
pub open spec fn all_in_tune(spans: Seq<SpanView>, tones: Seq<i64>) -> bool {
    forall|i: int| 0 <= i < spans.len() ==> in_tune(#[trigger] spans[i], tones)
}

/// The same of all that was played.
pub open spec fn played_in_tune(p: PlayedView, tones: Seq<i64>) -> bool {
    &&& all_in_tune(p.spans, tones)
    &&& p.open matches Some(o) ==> in_tune(o, tones)
}

proof fn lemma_volumes(writes: Seq<RegisterWrite>, ch: int, k: int)
    ensures
        registers(writes, ch, k).volume < 16,
    decreases k,
{
    if k > 0 {
        lemma_volumes(writes, ch, k - 1);
    }
}

proof fn lemma_group_in_tune(
    p: PlayedView,
    before: Registers,
    r: Registers,
    mask: Option<u8>,
    ch: int,
    at: u64,
    tones: Seq<i64>,
    soon: bool,
)
    requires
        played_in_tune(p, tones),
        r.freq < SCC_TONES,
        r.volume < 16,
    ensures
        played_in_tune(p.after_group(before, r, mask, ch, at, tones, soon), tones),
{
    let keyed = p.keyed(r, mask, ch, at, tones);
    assert(played_in_tune(keyed, tones));
    let frozen = keyed.frozen(r, soon);
    let recovered = keyed.recovered(r, at, tones, frozen);
    assert(played_in_tune(recovered, tones));
    if p.open is Some {
        let bend = !frozen && r.freq != recovered.settled;
        let settled = PlayedView {
            settled: if bend {
                r.freq
            } else {
                recovered.settled
            },
            ..recovered
        };
        assert(played_in_tune(settled.closed_at(at), tones));
        assert(played_in_tune(settled.restarted(r, at, tones), tones));
        if !bend || recovered.same_note(r, tones) {
            assert(played_in_tune(settled.bent(r, at, bend, r.volume != before.volume), tones));
        }
    }
}

proof fn lemma_played_in_tune(
    p: PlayedView,
    writes: Seq<RegisterWrite>,
    i: int,
    ch: int,
    tones: Seq<i64>,
)
    requires
        played_in_tune(p, tones),
        0 <= i,
    ensures
        played_in_tune(p.played(writes, i, ch, tones), tones),
    decreases writes.len() - i,
{
    if i < writes.len() {
        let at = writes[i].at_sample;
        let j = group_end(writes, at, i + 1);
        lemma_group_end(writes, at, i + 1);
        lemma_registers(writes, ch, j);
        lemma_volumes(writes, ch, j);
        let soon = written_soon(writes, j, ch, at + NOTE_ONSET_COALESCE_SAMPLES);
        let before = registers(writes, ch, i);
        let r = registers(writes, ch, j);
        lemma_group_in_tune(p, before, r, keys(writes, i, j), ch, at, tones, soon);
        lemma_played_in_tune(
            p.after_group(before, r, keys(writes, i, j), ch, at, tones, soon),
            writes,
            j,
            ch,
            tones,
        );
    }
}

proof fn lemma_merged_in_tune(spans: Seq<SpanView>, i: int, tones: Seq<i64>)
    requires
        all_in_tune(spans, tones),
        0 <= i,
    ensures
        all_in_tune(merged_from(spans, i), tones),
    decreases spans.len() - i,
{
    if spans.len() <= 1 || i >= spans.len() {
    } else if spans[i].end - spans[i].start >= MIN_SPAN_SAMPLES {
        lemma_merged_in_tune(spans, i + 1, tones);
    } else if i > 0 {
        let out = spans.update(i - 1, SpanView { end: spans[i].end, ..spans[i - 1] }).remove(i);
        assert forall|k: int| 0 <= k < out.len() implies in_tune(#[trigger] out[k], tones) by {
            let from = if k < i {
                k
            } else {
                k + 1
            };
            assert(in_tune(spans[from], tones));
            assert(out[k].bends == spans[from].bends && out[k].volumes == spans[from].volumes
                && out[k].pitch == spans[from].pitch);
        }
        lemma_merged_in_tune(out, i, tones);
    } else {
        let out = spans.update(1, SpanView { start: spans[0].start, ..spans[1] }).remove(0);
        assert forall|k: int| 0 <= k < out.len() implies in_tune(#[trigger] out[k], tones) by {
            assert(in_tune(spans[k + 1], tones));
            assert(out[k].bends == spans[k + 1].bends && out[k].volumes == spans[k + 1].volumes
                && out[k].pitch == spans[k + 1].pitch);
        }
        lemma_merged_in_tune(out, 0, tones);
    }
}

/// The frequencies that can be heard are those of notes.
pub open spec fn tones_are_notes(tones: Seq<i64>) -> bool {
    forall|f: int| 8 < f < tones.len() ==> -500_000 <= #[trigger] tones[f] < 127_500_000
}

proof fn lemma_track_in_tune(spans: Seq<SpanView>, pace: Pace, tones: Seq<i64>)
    requires
        all_in_tune(spans, tones),
        tones.len() == SCC_TONES,
        tones_are_notes(tones),
    ensures
        ({
            let t = track_of_spans(spans, pace, tones);
            &&& forall|k: int|
                0 <= k < t.pitch_bends.len() ==> -500_000 <= (#[trigger] t.pitch_bends[k]).value
                    <= 500_000
            &&& forall|k: int|
                0 <= k < t.gains.len() ==> 0 <= (#[trigger] t.gains[k]).value <= 1_000_000
        }),
    decreases spans.len(),
{
    if spans.len() > 0 {
        let s = spans.last();
        assert forall|i: int| 0 <= i < spans.drop_last().len() implies in_tune(
            #[trigger] spans.drop_last()[i],
            tones,
        ) by {
            assert(spans.drop_last()[i] == spans[i]);
        }
        lemma_track_in_tune(spans.drop_last(), pace, tones);
        assert(in_tune(spans[spans.len() - 1], tones));
        let bends = span_bends(s, pace, tones);
        let gains = span_gains(s, pace);
        assert forall|k: int| 0 <= k < bends.len() implies -500_000 <= (#[trigger] bends[k]).value
            <= 500_000 by {
            let f = s.bends[k].1;
            assert(note_at(tones, f) == s.pitch);
            let tone = tones[f as int];
            assert(nearest(tone as int, 1_000_000) == (2 * tone + 1_000_000) / 2_000_000);
        }
        assert forall|k: int| 0 <= k < gains.len() implies 0 <= (#[trigger] gains[k]).value
            <= 1_000_000 by {
            let v = s.volumes[k].1;
            assert(nearest(1_000_000 * v, 15) == (2_000_000 * v + 15) / 30);
        }
        let before = track_of_spans(spans.drop_last(), pace, tones);
        let t = track_of_spans(spans, pace, tones);
        assert(t.pitch_bends == before.pitch_bends + bends);
        assert(t.gains == before.gains + gains);
        assert forall|k: int| 0 <= k < t.pitch_bends.len() implies -500_000 <= (
        #[trigger] t.pitch_bends[k]).value <= 500_000 by {
            if k < before.pitch_bends.len() {
                assert(t.pitch_bends[k] == before.pitch_bends[k]);
            } else {
                assert(t.pitch_bends[k] == bends[k - before.pitch_bends.len()]);
            }
        }
        assert forall|k: int| 0 <= k < t.gains.len() implies 0 <= (#[trigger] t.gains[k]).value
            <= 1_000_000 by {
            if k < before.gains.len() {
                assert(t.gains[k] == before.gains[k]);
            } else {
                assert(t.gains[k] == gains[k - before.gains.len()]);
            }
        }
    }
}

/// The bends of a channel stay within half a semitone of the notes, as a change that crosses into
/// another note starts that one; and its gains are between none and full. This leaves out clocks
/// at which frequencies that can be heard are beyond the notes.
pub proof fn law_bends_stay_within_the_note(
    writes: Seq<RegisterWrite>,
    total_samples: u64,
    ch: int,
    tones: Seq<i64>,
    pace: Pace,
)
    requires
        tones.len() == SCC_TONES,
        tones_are_notes(tones),
    ensures
        ({
            let t = channel_track(writes, total_samples, ch, tones, pace);
            &&& forall|k: int|
                0 <= k < t.pitch_bends.len() ==> -500_000 <= (#[trigger] t.pitch_bends[k]).value
                    <= 500_000
            &&& forall|k: int|
                0 <= k < t.gains.len() ==> 0 <= (#[trigger] t.gains[k]).value <= 1_000_000
        }),
{
    lemma_played_in_tune(unplayed(), writes, 0, ch, tones);
    let spans = spans_of(writes, total_samples, ch, tones);
    assert(all_in_tune(spans, tones));
    lemma_merged_in_tune(spans, 0, tones);
    lemma_track_in_tune(merged_from(spans, 0), pace, tones);
}

} // verus!
