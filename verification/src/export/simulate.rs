//! Simulates what the channels of a song play, row by row and tick by tick.
//!
//! The result is a flat log: the notes in the order of their triggers, and for each kind of
//! change a list of (note, change) pairs in the order in which they happen. `export::notes`
//! turns the log into note events.
//!
//! Pitch is not computed here: a period is a real number. What an effect does to the period
//! of a note is recorded step by step (`BendStep`), starting from the period of the note's own
//! pitch, so that the pitch at any tick follows from the note's own list.
use crate::export::tempo::{tempo_at, tempo_track, Tempo};
use crate::export::time::{Moment, NaturalLength};
use crate::formats::base::{
    envelope_view, param_of, sample_views, Cell, Envelope, EnvelopePoint, EnvelopeView, Module,
    ModuleView, Sample, SampleView,
};
use crate::formats::playback::{song_row_views, SongRow, SongRowView};
use vstd::prelude::*;

verus! {

pub const ARPEGGIO: u32 = 0x0;

pub const PORTAMENTO_UP: u32 = 0x1;

pub const PORTAMENTO_DOWN: u32 = 0x2;

pub const TONE_PORTAMENTO: u32 = 0x3;

pub const VIBRATO: u32 = 0x4;

pub const TONE_PORTAMENTO_VOLSLIDE: u32 = 0x5;

pub const VIBRATO_VOLSLIDE: u32 = 0x6;

pub const TREMOLO: u32 = 0x7;

pub const SET_PANNING: u32 = 0x8;

pub const SAMPLE_OFFSET: u32 = 0x9;

pub const VOLUME_SLIDE: u32 = 0xA;

pub const SET_VOLUME: u32 = 0xC;

pub const EXTENDED: u32 = 0xE;

pub const E_FINE_PORTAMENTO_UP: u32 = 0x1;

pub const E_FINE_PORTAMENTO_DOWN: u32 = 0x2;

pub const E_RETRIGGER: u32 = 0x9;

pub const E_FINE_VOLSLIDE_UP: u32 = 0xA;

pub const E_FINE_VOLSLIDE_DOWN: u32 = 0xB;

pub const E_NOTE_CUT: u32 = 0xC;

pub const E_NOTE_DELAY: u32 = 0xD;

/// The loudest tracker volume.
pub const MAX_VOLUME: i32 = 64;

/// What one tick does to the pitch of a sounding note.
///
/// The period of a note starts at that of its own pitch: by the Amiga's table 428 for MIDI note
/// 60, halving with every octave up; by the linear one 1152, less 16 for every semitone up. The
/// bend at a point is the pitch of the period at that point, against the note's own pitch.
#[derive(Debug, Clone, Copy, PartialEq, Eq, Structural)]
pub enum BendStep {
    /// The period moves by `delta`, staying within 1..=32000.
    Slide { delta: i64 },
    /// The period moves by `step` toward that of `note`, not past it.
    Toward { note: i32, step: u64 },
    /// The period is raised by `255 * depth / 128 * sin(2 * pi * pos / 256)` for this point.
    Vibrato { pos: u32, depth: u32 },
    /// The pitch is raised by `semitones` for this point.
    Arpeggio { semitones: u32 },
}

/// A point of a note's pitch curve.
#[derive(Debug, Clone, Copy, PartialEq, Eq, Structural)]
pub struct PitchBend {
    pub at: Moment,
    pub step: BendStep,
    /// Continues smoothly from the previous point, rather than jumping.
    pub glide: bool,
}

/// A point of a note's volume curve.
#[derive(Debug, Clone, Copy, PartialEq, Eq, Structural)]
pub struct VolumeChange {
    pub at: Moment,
    /// 0-64, absolute.
    pub tracker_volume: i32,
    /// Continues smoothly from the previous point, rather than jumping.
    pub glide: bool,
}

/// A Set Panning effect: the pan is `(param - 128) / 127`, kept within -1..=1.
#[derive(Debug, Clone, Copy, PartialEq, Eq, Structural)]
pub struct PanChange {
    pub at: Moment,
    pub param: u32,
}

/// A point of an instrument envelope: `value` is reached `ticks` ticks after `from`, at the
/// Speed of `from`.
#[derive(Debug, Clone, Copy, PartialEq, Eq, Structural)]
pub struct EnvelopeLevel {
    pub from: Moment,
    pub ticks: i64,
    pub value: u32,
    /// Continues smoothly from the previous point, rather than jumping.
    pub glide: bool,
}

/// A note, as triggered on one channel.
#[derive(Debug, Clone, Copy, PartialEq, Eq, Structural)]
pub struct Note {
    /// Index of the sample it plays.
    pub sample: u32,
    pub start: Moment,
    /// When the channel lets go of it. A sample without a loop may play out before that.
    pub close: Moment,
    /// For a sample without a loop.
    pub natural: Option<NaturalLength>,
    /// MIDI note number.
    pub pitch: i32,
    /// 1-127.
    pub velocity: i32,
    /// Tracker volume at the trigger.
    pub trigger_volume: i32,
    pub channel: usize,
    /// Frame of the sample that playback starts at.
    pub sample_offset_frames: u32,
    /// When the first Key Off came: where the release of an envelope begins.
    pub release: Option<Moment>,
    /// Whether the note has a volume change.
    pub has_volumes: bool,
}

/// What a channel remembers from row to row.
#[derive(Debug, Clone, Copy, PartialEq, Eq, Structural)]
pub struct Channel {
    pub sample: Option<u32>,
    /// The note that is sounding.
    pub held: Option<usize>,
    pub volume: i32,
    /// Whether the previous row slid the volume, bent the pitch, and so on.
    pub active: Active,
    pub up_speed: u32,
    pub down_speed: u32,
    pub volslide: u32,
    pub tone_step: u64,
    pub tone_target: Option<i32>,
    pub vibrato_speed: u32,
    pub vibrato_depth: u32,
    /// 0-255.
    pub vibrato_pos: u32,
    pub tremolo_speed: u32,
    pub tremolo_depth: u32,
    /// 0-255.
    pub tremolo_pos: u32,
    pub offset: u32,
    pub fine_up: u32,
    pub fine_down: u32,
    pub fine_volume_up: u32,
    pub fine_volume_down: u32,
}

impl Channel {
    /// The note that it holds is one of the `notes` in the log, and its oscillations are in
    /// range.
    pub open spec fn wf(self, notes: nat) -> bool {
        &&& self.held matches Some(id) ==> id < notes
        &&& self.vibrato_speed < 64
        &&& self.vibrato_depth < 16
        &&& self.vibrato_pos < 256
        &&& self.tremolo_speed < 64
        &&& self.tremolo_depth < 16
        &&& self.tremolo_pos < 256
    }
}

/// Which gliding effects a row applied.
#[derive(Debug, Clone, Copy, PartialEq, Eq, Structural)]
pub struct Active {
    pub sliding: bool,
    pub bending: bool,
    pub tone: bool,
    pub vibrating: bool,
    pub tremoloing: bool,
}

/// No gliding effect.
pub open spec fn idle() -> Active {
    Active { sliding: false, bending: false, tone: false, vibrating: false, tremoloing: false }
}

fn none_active() -> (r: Active)
    ensures
        r == idle(),
{
    Active { sliding: false, bending: false, tone: false, vibrating: false, tremoloing: false }
}

/// A channel before its first row.
pub open spec fn fresh_channel() -> Channel {
    Channel {
        sample: None,
        held: None,
        volume: 0,
        active: idle(),
        up_speed: 0,
        down_speed: 0,
        volslide: 0,
        tone_step: 0,
        tone_target: None,
        vibrato_speed: 0,
        vibrato_depth: 0,
        vibrato_pos: 0,
        tremolo_speed: 0,
        tremolo_depth: 0,
        tremolo_pos: 0,
        offset: 0,
        fine_up: 0,
        fine_down: 0,
        fine_volume_up: 0,
        fine_volume_down: 0,
    }
}

fn new_channel() -> (r: Channel)
    ensures
        r == fresh_channel(),
{
    Channel {
        sample: None,
        held: None,
        volume: 0,
        active: none_active(),
        up_speed: 0,
        down_speed: 0,
        volslide: 0,
        tone_step: 0,
        tone_target: None,
        vibrato_speed: 0,
        vibrato_depth: 0,
        vibrato_pos: 0,
        tremolo_speed: 0,
        tremolo_depth: 0,
        tremolo_pos: 0,
        offset: 0,
        fine_up: 0,
        fine_down: 0,
        fine_volume_up: 0,
        fine_volume_down: 0,
    }
}

/// The row that is being played.
#[derive(Debug, Clone, Copy, PartialEq, Eq, Structural)]
pub struct RowTime {
    pub row: usize,
    pub tempo: Tempo,
}

impl RowTime {
    /// Tick `tick` of the row.
    pub open spec fn at(self, tick: u32) -> Moment {
        Moment { row: self.row, tick, speed: self.tempo.speed }
    }

    fn moment(&self, tick: u32) -> (r: Moment)
        ensures
            r == self.at(tick),
    {
        Moment { row: self.row, tick, speed: self.tempo.speed }
    }

    /// The ticks of the row behind its first.
    pub open spec fn later_ticks(self) -> nat {
        if self.tempo.speed > 0 {
            (self.tempo.speed - 1) as nat
        } else {
            0
        }
    }
}

/// The log of a simulation and the state of its channels.
pub struct Sim {
    pub channels: Vec<Channel>,
    pub notes: Vec<Note>,
    pub bends: Vec<(usize, PitchBend)>,
    pub volumes: Vec<(usize, VolumeChange)>,
    pub pans: Vec<(usize, PanChange)>,
    pub envelope_volumes: Vec<(usize, EnvelopeLevel)>,
    pub envelope_pans: Vec<(usize, EnvelopeLevel)>,
}

/// What a `Sim` holds.
#[verifier::ext_equal]
pub struct SimView {
    pub channels: Seq<Channel>,
    pub notes: Seq<Note>,
    pub bends: Seq<(usize, PitchBend)>,
    pub volumes: Seq<(usize, VolumeChange)>,
    pub pans: Seq<(usize, PanChange)>,
    pub envelope_volumes: Seq<(usize, EnvelopeLevel)>,
    pub envelope_pans: Seq<(usize, EnvelopeLevel)>,
}

impl View for Sim {
    type V = SimView;

    open spec fn view(&self) -> SimView {
        SimView {
            channels: self.channels@,
            notes: self.notes@,
            bends: self.bends@,
            volumes: self.volumes@,
            pans: self.pans@,
            envelope_volumes: self.envelope_volumes@,
            envelope_pans: self.envelope_pans@,
        }
    }
}

/// An integer kept within the tracker volumes.
pub open spec fn clamp_volume(v: int) -> i32 {
    if v < 0 {
        0
    } else if v > MAX_VOLUME {
        MAX_VOLUME
    } else {
        v as i32
    }
}

fn clamped(v: i64) -> (r: i32)
    ensures
        r == clamp_volume(v as int),
        0 <= r <= MAX_VOLUME,
{
    if v < 0 {
        0
    } else if v > 64 {
        64
    } else {
        v as i32
    }
}

/// The MIDI velocity of a note: its tracker volume scaled from 64 to 127, rounded to the
/// nearest integer, and kept within 1..=127.
pub open spec fn velocity_spec(cell_volume: Option<u32>, sample_volume: u32) -> i32 {
    let vol = match cell_volume {
        Some(v) => v,
        None => sample_volume,
    };
    let scaled = (vol * 127 + 32) / 64;
    if scaled < 1 {
        1
    } else if scaled > 127 {
        127
    } else {
        scaled as i32
    }
}

pub fn velocity(cell_volume: Option<u32>, sample_volume: u32) -> (r: i32)
    ensures
        r == velocity_spec(cell_volume, sample_volume),
        1 <= r <= 127,
{
    let vol: u32 = match cell_volume {
        Some(v) => v,
        None => sample_volume,
    };
    let scaled: u64 = (vol as u64 * 127 + 32) / 64;
    if scaled < 1 {
        1
    } else if scaled > 127 {
        127
    } else {
        scaled as i32
    }
}

/// 2^30 times the sine of `i / 64` of a full turn, for the first quarter of it, rounded.
pub open spec fn quarter_sine(i: int) -> int {
    seq![
        0int,
        105245103,
        209476638,
        311690799,
        410903207,
        506158392,
        596538995,
        681174602,
        759250125,
        830013654,
        892783698,
        946955747,
        992008094,
        1027506862,
        1053110176,
        1068571464,
        1073741824,
    ][i]
}

fn quarter_sine_of(i: u32) -> (r: i64)
    requires
        i <= 16,
    ensures
        r == quarter_sine(i as int),
        0 <= r <= 1073741824,
{
    match i {
        0 => 0,
        1 => 105245103,
        2 => 209476638,
        3 => 311690799,
        4 => 410903207,
        5 => 506158392,
        6 => 596538995,
        7 => 681174602,
        8 => 759250125,
        9 => 830013654,
        10 => 892783698,
        11 => 946955747,
        12 => 992008094,
        13 => 1027506862,
        14 => 1053110176,
        15 => 1068571464,
        _ => 1073741824,
    }
}

/// 2^30 times the sine of `i / 64` of a full turn, `i` being 0..=63.
pub open spec fn sine(i: int) -> int {
    if i <= 16 {
        quarter_sine(i)
    } else if i <= 32 {
        quarter_sine(32 - i)
    } else if i <= 48 {
        -quarter_sine(i - 32)
    } else {
        -quarter_sine(64 - i)
    }
}

/// What Tremolo at phase `pos` (0-255) and depth `depth` adds to the volume: the sine of the
/// phase times `255 * depth / 64`, rounded to the nearest integer.
pub open spec fn tremolo_offset(pos: u32, depth: u32) -> int {
    let scaled = 255 * depth * sine(pos as int / 4);
    if scaled >= 0 {
        (scaled + 0x8_0000_0000) / 0x10_0000_0000
    } else {
        -((-scaled + 0x8_0000_0000) / 0x10_0000_0000)
    }
}

fn tremolo_offset_of(pos: u32, depth: u32) -> (r: i64)
    requires
        pos < 256,
        depth < 16,
    ensures
        r == tremolo_offset(pos, depth),
        -100 <= r <= 100,
{
    let i: u32 = pos / 4;
    let s: i64 = if i <= 16 {
        quarter_sine_of(i)
    } else if i <= 32 {
        quarter_sine_of(32 - i)
    } else if i <= 48 {
        -quarter_sine_of(i - 32)
    } else {
        -quarter_sine_of(64 - i)
    };
    assert(s == sine(pos as int / 4));
    let amount: i64 = 255 * depth as i64;
    assert(-3825 * 1073741824 <= amount * s <= 3825 * 1073741824) by (nonlinear_arith)
        requires
            0 <= amount <= 3825,
            -1073741824 <= s <= 1073741824,
    ;
    let scaled: i64 = amount * s;
    assert(scaled == 255 * depth * sine(pos as int / 4)) by (nonlinear_arith)
        requires
            scaled == amount * s,
            amount == 255 * depth,
            s == sine(pos as int / 4),
    ;
    if scaled >= 0 {
        (scaled + 0x8_0000_0000) / 0x10_0000_0000
    } else {
        -((-scaled + 0x8_0000_0000) / 0x10_0000_0000)
    }
}

/// Which of the three notes of an Arpeggio sounds, by a tick counter that runs down: 0 is the
/// note itself, 1 and 2 the two raised ones. Up to 16 the three alternate; what lies behind
/// that is the second raised note.
pub open spec fn arpeggio_kind(counter: int) -> int {
    if counter < 16 {
        counter % 3
    } else if counter == 16 {
        0
    } else {
        2
    }
}

/// The last sample with the given index.
pub open spec fn sample_at(samples: Seq<SampleView>, index: u32) -> Option<int>
    decreases samples.len(),
{
    if samples.len() == 0 {
        None
    } else if samples.last().index == index {
        Some(samples.len() - 1)
    } else {
        sample_at(samples.drop_last(), index)
    }
}

/// Whether the module has sound for the given sample index.
pub open spec fn has_sound(samples: Seq<SampleView>, index: u32) -> bool {
    exists|i: int| 0 <= i < samples.len() && (#[trigger] samples[i]).index == index
        && !samples[i].is_empty()
}

/// The sample that a channel plays, if it has one and that has sound.
pub open spec fn playable(samples: Seq<SampleView>, current: Option<u32>) -> Option<int> {
    match current {
        Some(index) => if has_sound(samples, index) {
            sample_at(samples, index)
        } else {
            None
        },
        None => None,
    }
}

fn find_sample(samples: &Vec<Sample>, index: u32) -> (r: Option<usize>)
    ensures
        match r {
            Some(i) => sample_at(sample_views(samples@), index) == Some(i as int) && i
                < samples.len(),
            None => sample_at(sample_views(samples@), index) is None,
        },
{
    let ghost views = sample_views(samples@);
    let mut n: usize = samples.len();
    assert(views.take(n as int) =~= views);
    while n > 0
        invariant
            n <= samples.len(),
            views == sample_views(samples@),
            sample_at(views.take(n as int), index) == sample_at(views, index),
        decreases n,
    {
        proof {
            assert(views.take(n as int).drop_last() =~= views.take(n - 1));
            assert(views.take(n as int).last() == samples[n - 1]@);
        }
        if samples[n - 1].index == index {
            return Some(n - 1);
        }
        n -= 1;
    }
    None
}

fn find_playable(samples: &Vec<Sample>, current: Option<u32>) -> (r: Option<usize>)
    ensures
        match r {
            Some(i) => playable(sample_views(samples@), current) == Some(i as int) && i
                < samples.len(),
            None => playable(sample_views(samples@), current) is None,
        },
{
    let ghost views = sample_views(samples@);
    match current {
        None => None,
        Some(index) => {
            let mut i: usize = 0;
            while i < samples.len()
                invariant
                    i <= samples.len(),
                    views == sample_views(samples@),
                    current == Some(index),
                    forall|j: int| 0 <= j < i ==> !((#[trigger] views[j]).index == index
                        && !views[j].is_empty()),
                decreases samples.len() - i,
            {
                assert(views[i as int] == samples[i as int]@);
                if samples[i].index == index && !samples[i].is_empty() {
                    assert(has_sound(views, index));
                    return find_sample(samples, index);
                }
                i += 1;
            }
            None
        },
    }
}

impl SimView {
    /// Every channel's sounding note is in the log, and its oscillations are in range.
    pub open spec fn wf(self) -> bool {
        forall|c: int|
            0 <= c < self.channels.len() ==> (#[trigger] self.channels[c]).wf(self.notes.len())
    }

    pub open spec fn with_channel(self, ch: int, c: Channel) -> SimView {
        SimView { channels: self.channels.update(ch, c), ..self }
    }

    pub open spec fn with_note(self, id: int, n: Note) -> SimView {
        SimView { notes: self.notes.update(id, n), ..self }
    }

    /// The channel lets go of a note.
    pub open spec fn closed(self, id: int, at: Moment) -> SimView {
        self.with_note(id, Note { close: at, ..self.notes[id] })
    }

    pub open spec fn bent(self, id: usize, bends: Seq<PitchBend>) -> SimView {
        SimView { bends: self.bends + bends.map_values(|b: PitchBend| (id, b)), ..self }
    }

    pub open spec fn add_volume(self, id: usize, v: VolumeChange) -> SimView {
        SimView {
            volumes: self.volumes.push((id, v)),
            notes: self.notes.update(
                id as int,
                Note { has_volumes: true, ..self.notes[id as int] },
            ),
            ..self
        }
    }

    pub open spec fn add_pan(self, id: usize, p: PanChange) -> SimView {
        SimView { pans: self.pans.push((id, p)), ..self }
    }
}

/// The envelope points that a trigger emits: up to the sustain point, or all without one.
pub open spec fn attack_levels(env: EnvelopeView, from: Moment) -> Seq<EnvelopeLevel> {
    let n = match env.sustain_point {
        Some(s) => s + 1,
        None => env.points.len() as int,
    };
    Seq::new(
        n as nat,
        |i: int|
            EnvelopeLevel {
                from,
                ticks: env.points[i].tick as i64,
                value: env.points[i].value,
                glide: i != 0,
            },
    )
}

/// The envelope points that a release emits: those behind the sustain point, counted from it.
pub open spec fn release_levels(env: EnvelopeView, from: Moment) -> Seq<EnvelopeLevel> {
    match env.sustain_point {
        Some(s) => Seq::new(
            (env.points.len() - s - 1) as nat,
            |i: int|
                EnvelopeLevel {
                    from,
                    ticks: (env.points[s + 1 + i].tick - env.points[s as int].tick) as i64,
                    value: env.points[s + 1 + i].value,
                    glide: true,
                },
        ),
        None => Seq::empty(),
    }
}

/// The given levels, of note `id`.
pub open spec fn levels_of(id: usize, levels: Seq<EnvelopeLevel>) -> Seq<(usize, EnvelopeLevel)> {
    levels.map_values(|l: EnvelopeLevel| (id, l))
}

/// The attack levels of an optional envelope, of note `id`.
pub open spec fn attack_of(env: Option<EnvelopeView>, from: Moment, id: usize) -> Seq<
    (usize, EnvelopeLevel),
> {
    match env {
        Some(e) => levels_of(id, attack_levels(e, from)),
        None => Seq::empty(),
    }
}

/// The release levels of an optional envelope, of note `id`.
pub open spec fn release_of(env: Option<EnvelopeView>, from: Moment, id: usize) -> Seq<
    (usize, EnvelopeLevel),
> {
    match env {
        Some(e) => levels_of(id, release_levels(e, from)),
        None => Seq::empty(),
    }
}

fn push_attack(
    out: &mut Vec<(usize, EnvelopeLevel)>,
    env: &Option<Envelope>,
    from: Moment,
    id: usize,
)
    requires
        envelope_view(*env) matches Some(e) ==> e.wf(),
    ensures
        final(out)@ == old(out)@ + attack_of(envelope_view(*env), from, id),
{
    match env {
        None => {
            assert(out@ + Seq::<(usize, EnvelopeLevel)>::empty() =~= out@);
        },
        Some(e) => {
            assert(e@.wf());
            let all: usize = e.points.len();
            let n: usize = match e.sustain_point {
                Some(s) => s + 1,
                None => all,
            };
            let ghost levels = attack_levels(e@, from);
            let ghost start = out@;
            let mut i: usize = 0;
            assert(start + levels_of(id, levels.take(0)) =~= start);
            while i < n
                invariant
                    i <= n <= e.points.len(),
                    n == levels.len(),
                    levels == attack_levels(e@, from),
                    out@ == start + levels_of(id, levels.take(i as int)),
                decreases n - i,
            {
                let p: EnvelopePoint = e.points[i];
                let l = EnvelopeLevel {
                    from,
                    ticks: p.tick as i64,
                    value: p.value,
                    glide: i != 0,
                };
                assert(levels[i as int] == l);
                out.push((id, l));
                i += 1;
                assert(levels_of(id, levels.take(i as int)) =~= levels_of(
                    id,
                    levels.take(i - 1),
                ).push((id, l)));
                assert(out@ =~= start + levels_of(id, levels.take(i as int)));
            }
            assert(levels.take(i as int) =~= levels);
        },
    }
}

fn push_release(
    out: &mut Vec<(usize, EnvelopeLevel)>,
    env: &Option<Envelope>,
    from: Moment,
    id: usize,
)
    requires
        envelope_view(*env) matches Some(e) ==> e.wf(),
    ensures
        final(out)@ == old(out)@ + release_of(envelope_view(*env), from, id),
{
    match env {
        None => {
            assert(out@ + Seq::<(usize, EnvelopeLevel)>::empty() =~= out@);
        },
        Some(e) => match e.sustain_point {
            None => {
                assert(out@ + levels_of(id, Seq::<EnvelopeLevel>::empty()) =~= out@);
            },
            Some(s) => {
                assert(e@.wf());
                let ghost levels = release_levels(e@, from);
                let ghost start = out@;
                let sustain_tick: u32 = e.points[s].tick;
                let all: usize = e.points.len();
                let mut i: usize = s + 1;
                assert(start + levels_of(id, levels.take(0)) =~= start);
                while i < all
                    invariant
                        s < i <= all == e.points.len(),
                        sustain_tick == e.points[s as int].tick,
                        e.sustain_point == Some(s),
                        levels == release_levels(e@, from),
                        levels.len() == e.points.len() - s - 1,
                        out@ == start + levels_of(id, levels.take(i - s - 1)),
                    decreases all - i,
                {
                    let p: EnvelopePoint = e.points[i];
                    let l = EnvelopeLevel {
                        from,
                        ticks: p.tick as i64 - sustain_tick as i64,
                        value: p.value,
                        glide: true,
                    };
                    assert(levels[i - s - 1] == l);
                    out.push((id, l));
                    i += 1;
                    assert(levels_of(id, levels.take(i - s - 1)) =~= levels_of(
                        id,
                        levels.take(i - s - 2),
                    ).push((id, l)));
                    assert(out@ =~= start + levels_of(id, levels.take(i - s - 1)));
                }
                assert(levels.take(i - s - 1) =~= levels);
            },
        },
    }
}

/// The volume that a trigger starts with: the cell's, or the sample's default.
pub open spec fn trigger_volume(cell: Cell, sample: SampleView) -> i32 {
    match cell.volume {
        Some(v) => v as i32,
        None => sample.volume as i32,
    }
}

/// The Sample Offset that a channel remembers after a trigger: a parameter of 0 keeps it.
pub open spec fn offset_memory(c: Channel, cell: Cell) -> u32 {
    if cell.effect == Some(SAMPLE_OFFSET) && param_of(cell) != 0 {
        param_of(cell)
    } else {
        c.offset
    }
}

/// Where playback of the sample starts: with Sample Offset, 256 frames for each unit of it,
/// at most the last frame; else at the start.
pub open spec fn start_frame(c: Channel, cell: Cell, sample: SampleView) -> u32 {
    if cell.effect == Some(SAMPLE_OFFSET) {
        let frames = sample.frames() as u32;
        let last: u32 = if frames > 0 {
            (frames - 1) as u32
        } else {
            0
        };
        let wanted = offset_memory(c, cell) * 256;
        if wanted < last {
            wanted as u32
        } else {
            last
        }
    } else {
        0
    }
}

/// The note that a trigger starts.
pub open spec fn new_note(
    c: Channel,
    t: RowTime,
    tick: u32,
    ch: int,
    cell: Cell,
    index: u32,
    sample: SampleView,
    pitch: i32,
) -> Note {
    Note {
        sample: index,
        start: t.at(tick),
        close: t.at(tick),
        natural: if sample.has_loop() {
            None
        } else {
            Some(
                NaturalLength {
                    frames: sample.frames() as u64,
                    rate_hz: sample.sample_rate_hz,
                    tracker_bpm: t.tempo.tracker_bpm,
                },
            )
        },
        pitch,
        velocity: velocity_spec(cell.volume, sample.volume),
        trigger_volume: trigger_volume(cell, sample),
        channel: ch as usize,
        sample_offset_frames: start_frame(c, cell, sample),
        release: None,
        has_volumes: false,
    }
}

/// A channel triggers a note: what it held before is closed, the vibrato and tremolo phases
/// start over, and the envelopes' attacks are emitted.
pub open spec fn triggered(
    s: SimView,
    t: RowTime,
    tick: u32,
    ch: int,
    cell: Cell,
    index: u32,
    sample: SampleView,
    pitch: i32,
) -> SimView {
    let c = s.channels[ch];
    let s1 = match c.held {
        Some(old_id) => s.closed(old_id as int, t.at(tick)),
        None => s,
    };
    let id = s.notes.len() as usize;
    SimView {
        channels: s.channels.update(
            ch,
            Channel {
                held: Some(id),
                volume: trigger_volume(cell, sample),
                vibrato_pos: 0,
                tremolo_pos: 0,
                offset: offset_memory(c, cell),
                ..c
            },
        ),
        notes: s1.notes.push(new_note(c, t, tick, ch, cell, index, sample, pitch)),
        pans: if cell.effect == Some(SET_PANNING) {
            s.pans.push((id, PanChange { at: t.at(tick), param: param_of(cell) }))
        } else {
            s.pans
        },
        envelope_volumes: s.envelope_volumes + attack_of(
            sample.volume_envelope,
            t.at(tick),
            id,
        ),
        envelope_pans: s.envelope_pans + attack_of(sample.panning_envelope, t.at(tick), id),
        ..s
    }
}

fn param_or_zero(cell: &Cell) -> (r: u32)
    ensures
        r == param_of(*cell),
{
    match cell.effect_param {
        Some(p) => p,
        None => 0,
    }
}

impl Sim {
    fn trigger(
        &mut self,
        t: &RowTime,
        tick: u32,
        ch: usize,
        cell: &Cell,
        index: u32,
        sample: &Sample,
        pitch: i32,
    )
        requires
            old(self)@.wf(),
            ch < old(self)@.channels.len(),
            sample@.wf(),
        ensures
            final(self)@ == triggered(
                old(self)@,
                *t,
                tick,
                ch as int,
                *cell,
                index,
                sample@,
                pitch,
            ),
            final(self)@.wf(),
    {
        let at: Moment = t.moment(tick);
        let mut c: Channel = self.channels[ch];
        if let Some(old_id) = c.held {
            let mut n: Note = self.notes[old_id];
            n.close = at;
            self.notes[old_id] = n;
        }
        let id: usize = self.notes.len();
        let volume: i32 = match cell.volume {
            Some(v) => v as i32,
            None => sample.volume as i32,
        };
        let natural: Option<NaturalLength> = if sample.has_loop() {
            None
        } else {
            Some(
                NaturalLength {
                    frames: (sample.pcm16.len() / 2) as u64,
                    rate_hz: sample.sample_rate_hz,
                    tracker_bpm: t.tempo.tracker_bpm,
                },
            )
        };
        let mut offset_frames: u32 = 0;
        let ghost c0 = c;
        if cell.effect == Some(SAMPLE_OFFSET) {
            let raw: u32 = param_or_zero(cell);
            if raw != 0 {
                c.offset = raw;
            }
            let frames: u32 = (sample.pcm16.len() / 2) as u32;
            let last: u32 = if frames > 0 {
                frames - 1
            } else {
                0
            };
            let wanted: u64 = c.offset as u64 * 256;
            offset_frames = if wanted < last as u64 {
                wanted as u32
            } else {
                last
            };
            assert(c.offset == offset_memory(c0, *cell));
        }
        c.held = Some(id);
        c.volume = volume;
        c.vibrato_pos = 0;
        c.tremolo_pos = 0;
        self.channels[ch] = c;
        self.notes.push(
            Note {
                sample: index,
                start: at,
                close: at,
                natural,
                pitch,
                velocity: velocity(cell.volume, sample.volume),
                trigger_volume: volume,
                channel: ch,
                sample_offset_frames: offset_frames,
                release: None,
                has_volumes: false,
            },
        );
        if cell.effect == Some(SET_PANNING) {
            self.pans.push((id, PanChange { at, param: param_or_zero(cell) }));
        }
        push_attack(&mut self.envelope_volumes, &sample.volume_envelope, at, id);
        push_attack(&mut self.envelope_pans, &sample.panning_envelope, at, id);
    }
}

/// The tick that Note Delay (ED1-EDF) puts the trigger off to.
pub open spec fn note_delay(cell: Cell) -> Option<u32> {
    if cell.effect == Some(EXTENDED) && param_of(cell) / 16 % 16 == E_NOTE_DELAY && param_of(cell)
        % 16 != 0 {
        Some(param_of(cell) % 16)
    } else {
        None
    }
}

fn note_delay_of(cell: &Cell) -> (r: Option<u32>)
    ensures
        r == note_delay(*cell),
        r matches Some(d) ==> 1 <= d <= 15,
{
    let raw: u32 = param_or_zero(cell);
    if cell.effect == Some(EXTENDED) && raw / 16 % 16 == E_NOTE_DELAY && raw % 16 != 0 {
        Some(raw % 16)
    } else {
        None
    }
}

/// Tone Portamento takes a note as the new target, and a parameter other than 0 as the new
/// rate.
pub open spec fn tone_prepared(c: Channel, cell: Cell) -> Channel {
    Channel {
        tone_target: if cell.midi_note is Some {
            cell.midi_note
        } else {
            c.tone_target
        },
        tone_step: if param_of(cell) != 0 {
            (param_of(cell) * 4) as u64
        } else {
            c.tone_step
        },
        ..c
    }
}

fn prepare_tone(c: Channel, cell: &Cell) -> (r: Channel)
    ensures
        r == tone_prepared(c, *cell),
{
    let mut r: Channel = c;
    if cell.midi_note.is_some() {
        r.tone_target = cell.midi_note;
    }
    let param: u32 = param_or_zero(cell);
    if param != 0 {
        r.tone_step = param as u64 * 4;
    }
    r
}

/// The first Key Off of a note: the envelopes of the channel's sample are released. The note
/// itself goes on.
pub open spec fn released(s: SimView, t: RowTime, ch: int, samples: Seq<SampleView>) -> SimView {
    match s.channels[ch].held {
        Some(id) => if s.notes[id as int].release is Some {
            s
        } else {
            let at = t.at(0);
            let s1 = s.with_note(
                id as int,
                Note { release: Some(at), ..s.notes[id as int] },
            );
            match s.channels[ch].sample {
                Some(index) => match sample_at(samples, index) {
                    Some(i) => SimView {
                        envelope_volumes: s1.envelope_volumes + release_of(
                            samples[i].volume_envelope,
                            at,
                            id,
                        ),
                        envelope_pans: s1.envelope_pans + release_of(
                            samples[i].panning_envelope,
                            at,
                            id,
                        ),
                        ..s1
                    },
                    None => s1,
                },
                None => s1,
            }
        },
        None => s,
    }
}

/// A sample number without a note, while a note sounds: the volume becomes that sample's
/// default. The note is not triggered again.
pub open spec fn swapped(
    s: SimView,
    t: RowTime,
    ch: int,
    samples: Seq<SampleView>,
    index: u32,
) -> SimView {
    match s.channels[ch].held {
        Some(id) => match sample_at(samples, index) {
            Some(i) => {
                let volume = samples[i].volume as i32;
                s.with_channel(ch, Channel { volume, ..s.channels[ch] }).add_volume(
                    id,
                    VolumeChange { at: t.at(0), tracker_volume: volume, glide: false },
                )
            },
            None => s,
        },
        None => s,
    }
}

/// Set Volume and Set Panning on a sounding note. A volume of 0 cuts the note.
pub open spec fn set_directly(s: SimView, t: RowTime, ch: int, id: usize, cell: Cell) -> SimView {
    let c = s.channels[ch];
    if cell.effect == Some(SET_VOLUME) && cell.effect_param == Some(0u32) {
        s.closed(id as int, t.at(0)).with_channel(ch, Channel { held: None, ..c })
    } else if cell.effect == Some(SET_VOLUME) && cell.effect_param is Some {
        let volume = clamp_volume(param_of(cell) as int);
        s.with_channel(ch, Channel { volume, ..c }).add_volume(
            id,
            VolumeChange { at: t.at(0), tracker_volume: volume, glide: false },
        )
    } else if cell.effect == Some(SET_PANNING) {
        s.add_pan(id, PanChange { at: t.at(0), param: param_of(cell) })
    } else {
        s
    }
}

/// The first tick behind a row's start glides only where the row before did the same; the
/// ticks behind it always do.
pub open spec fn glides(i: int, was: bool) -> bool {
    if i == 0 {
        was
    } else {
        true
    }
}

/// One bend point for every tick behind the row's first.
pub open spec fn bend_run(t: RowTime, step: spec_fn(int) -> BendStep, was: bool) -> Seq<PitchBend> {
    Seq::new(
        t.later_ticks(),
        |i: int| PitchBend { at: t.at((i + 1) as u32), step: step(i), glide: glides(i, was) },
    )
}

/// The volume after `n` ticks of a slide, and the points that it emits: none for a tick that
/// changes nothing, once the note has a volume point.
pub open spec fn slid(
    s: SimView,
    t: RowTime,
    ch: int,
    id: usize,
    delta: int,
    was: bool,
    n: nat,
) -> SimView
    decreases n,
{
    if n == 0 {
        s
    } else {
        let p = slid(s, t, ch, id, delta, was, (n - 1) as nat);
        let previous = p.channels[ch].volume;
        let volume = clamp_volume(previous + delta);
        let moved = p.with_channel(ch, Channel { volume, ..p.channels[ch] });
        if volume == previous && p.notes[id as int].has_volumes {
            moved
        } else {
            moved.add_volume(
                id,
                VolumeChange {
                    at: t.at(n as u32),
                    tracker_volume: volume,
                    glide: glides(n - 1, was),
                },
            )
        }
    }
}

/// The rate that an effect uses: its parameter, or what it used last where that is 0.
pub open spec fn remembered(param: u32, memory: u32) -> u32 {
    if param != 0 {
        param
    } else {
        memory
    }
}

fn or_memory(param: u32, memory: u32) -> (r: u32)
    ensures
        r == remembered(param, memory),
{
    if param != 0 {
        param
    } else {
        memory
    }
}

/// How much one tick of a Volume Slide adds: the high digit up, else the low digit down.
pub open spec fn slide_delta(param: u32) -> int {
    if param / 16 % 16 != 0 {
        (param / 16 % 16) as int
    } else {
        -((param % 16) as int)
    }
}

/// A Volume Slide over the ticks behind the row's first.
pub open spec fn volume_slid(
    s: SimView,
    t: RowTime,
    ch: int,
    id: usize,
    cell: Cell,
    was: bool,
) -> SimView {
    let c = s.channels[ch];
    let param = remembered(param_of(cell), c.volslide);
    let delta = slide_delta(param);
    let s1 = s.with_channel(ch, Channel { volslide: param, ..c });
    if delta == 0 {
        s1
    } else {
        let s2 = slid(s1, t, ch, id, delta, was, t.later_ticks());
        s2.with_channel(
            ch,
            Channel {
                active: Active { sliding: true, ..s2.channels[ch].active },
                ..s2.channels[ch]
            },
        )
    }
}

/// Portamento Up or Down: the period moves by the parameter on every tick behind the first.
pub open spec fn portamento(
    s: SimView,
    t: RowTime,
    ch: int,
    id: usize,
    cell: Cell,
    was: bool,
) -> SimView {
    let c = s.channels[ch];
    let up = cell.effect == Some(PORTAMENTO_UP);
    let param = remembered(
        param_of(cell),
        if up {
            c.up_speed
        } else {
            c.down_speed
        },
    );
    let c1 = if up {
        Channel { up_speed: param, ..c }
    } else {
        Channel { down_speed: param, ..c }
    };
    if param == 0 {
        s.with_channel(ch, c1)
    } else {
        let delta = if up {
            -(param as int)
        } else {
            param as int
        };
        s.with_channel(ch, Channel { active: Active { bending: true, ..c1.active }, ..c1 }).bent(
            id,
            bend_run(t, |i: int| BendStep::Slide { delta: delta as i64 }, was),
        )
    }
}

/// Tone Portamento, alone or with a Volume Slide.
pub open spec fn tone_portamento(
    s: SimView,
    t: RowTime,
    ch: int,
    id: usize,
    cell: Cell,
    was: Active,
) -> SimView {
    let c = s.channels[ch];
    match c.tone_target {
        Some(note) => {
            let s1 = s.with_channel(
                ch,
                Channel { active: Active { tone: true, ..c.active }, ..c },
            ).bent(id, bend_run(t, |i: int| BendStep::Toward { note, step: c.tone_step }, was.tone));
            if cell.effect == Some(TONE_PORTAMENTO_VOLSLIDE) {
                volume_slid(s1, t, ch, id, cell, was.sliding)
            } else {
                s1
            }
        },
        None => s,
    }
}

/// The phase of an oscillation after `n` ticks.
pub open spec fn phase(pos: u32, speed: u32, n: int) -> u32 {
    ((pos + n * speed) % 256) as u32
}

/// The rates of an oscillation: each digit of the parameter that is not 0 is taken, the high
/// one as the speed in quarter steps, the low one as the depth.
pub open spec fn oscillation(param: u32, speed: u32, depth: u32) -> (u32, u32) {
    (
        if param / 16 % 16 != 0 {
            (param / 16 % 16 * 4) as u32
        } else {
            speed
        },
        if param % 16 != 0 {
            param % 16
        } else {
            depth
        },
    )
}

fn oscillation_of(param: u32, speed: u32, depth: u32) -> (r: (u32, u32))
    requires
        speed < 64,
        depth < 16,
    ensures
        r == oscillation(param, speed, depth),
        r.0 < 64,
        r.1 < 16,
{
    (
        if param / 16 % 16 != 0 {
            param / 16 % 16 * 4
        } else {
            speed
        },
        if param % 16 != 0 {
            param % 16
        } else {
            depth
        },
    )
}

/// Vibrato, alone or with a Volume Slide.
pub open spec fn vibrato(
    s: SimView,
    t: RowTime,
    ch: int,
    id: usize,
    cell: Cell,
    was: Active,
) -> SimView {
    let c = s.channels[ch];
    let (speed, depth) = if cell.effect == Some(VIBRATO) {
        oscillation(param_of(cell), c.vibrato_speed, c.vibrato_depth)
    } else {
        (c.vibrato_speed, c.vibrato_depth)
    };
    let c1 = Channel { vibrato_speed: speed, vibrato_depth: depth, ..c };
    let s1 = if speed != 0 || depth != 0 {
        s.with_channel(
            ch,
            Channel {
                vibrato_pos: phase(c.vibrato_pos, speed, t.later_ticks() as int),
                active: Active { vibrating: true, ..c1.active },
                ..c1
            },
        ).bent(
            id,
            bend_run(
                t,
                |i: int| BendStep::Vibrato { pos: phase(c.vibrato_pos, speed, i + 1), depth },
                was.vibrating,
            ),
        )
    } else {
        s.with_channel(ch, c1)
    };
    if cell.effect == Some(VIBRATO_VOLSLIDE) {
        volume_slid(s1, t, ch, id, cell, was.sliding)
    } else {
        s1
    }
}

/// The volume points of a Tremolo: it swings round the volume, which stays what it is.
pub open spec fn tremolo_run(t: RowTime, c: Channel, was: bool) -> Seq<VolumeChange> {
    Seq::new(
        t.later_ticks(),
        |i: int|
            VolumeChange {
                at: t.at((i + 1) as u32),
                tracker_volume: clamp_volume(
                    c.volume + tremolo_offset(
                        phase(c.tremolo_pos, c.tremolo_speed, i + 1),
                        c.tremolo_depth,
                    ),
                ),
                glide: glides(i, was),
            },
    )
}

/// Tremolo.
pub open spec fn tremolo(
    s: SimView,
    t: RowTime,
    ch: int,
    id: usize,
    cell: Cell,
    was: bool,
) -> SimView {
    let c = s.channels[ch];
    let (speed, depth) = oscillation(param_of(cell), c.tremolo_speed, c.tremolo_depth);
    let c1 = Channel { tremolo_speed: speed, tremolo_depth: depth, ..c };
    if speed != 0 || depth != 0 {
        let run = tremolo_run(t, c1, was);
        SimView {
            channels: s.channels.update(
                ch,
                Channel {
                    tremolo_pos: phase(c.tremolo_pos, speed, t.later_ticks() as int),
                    active: Active { tremoloing: true, ..c1.active },
                    ..c1
                },
            ),
            volumes: s.volumes + run.map_values(|v: VolumeChange| (id, v)),
            notes: s.notes.update(
                id as int,
                Note {
                    has_volumes: s.notes[id as int].has_volumes || run.len() > 0,
                    ..s.notes[id as int]
                },
            ),
            ..s
        }
    } else {
        s.with_channel(ch, c1)
    }
}

/// Arpeggio: the note and two notes above it, in turn. Always jumps.
pub open spec fn arpeggio(s: SimView, t: RowTime, id: usize, param: u32) -> SimView {
    s.bent(
        id,
        Seq::new(
            t.later_ticks(),
            |i: int|
                {
                    let kind = arpeggio_kind(t.tempo.speed - (i + 1));
                    PitchBend {
                        at: t.at((i + 1) as u32),
                        step: BendStep::Arpeggio {
                            semitones: if kind == 0 {
                                0
                            } else if kind == 1 {
                                param / 16 % 16
                            } else {
                                param % 16
                            },
                        },
                        glide: false,
                    }
                },
        ),
    )
}

/// Fine Portamento: four times the parameter, once, at the row's start.
pub open spec fn fine_portamento(
    s: SimView,
    t: RowTime,
    ch: int,
    id: usize,
    up: bool,
    param: u32,
) -> SimView {
    let c = s.channels[ch];
    let raw = remembered(
        param,
        if up {
            c.fine_up
        } else {
            c.fine_down
        },
    );
    let s1 = s.with_channel(
        ch,
        if up {
            Channel { fine_up: raw, ..c }
        } else {
            Channel { fine_down: raw, ..c }
        },
    );
    if raw != 0 {
        let delta = if up {
            -4 * raw
        } else {
            4 * raw
        };
        s1.bent(
            id,
            seq![
                PitchBend {
                    at: t.at(0),
                    step: BendStep::Slide { delta: delta as i64 },
                    glide: false,
                },
            ],
        )
    } else {
        s1
    }
}

/// Fine Volume Slide: once, at the row's start.
pub open spec fn fine_volume(
    s: SimView,
    t: RowTime,
    ch: int,
    id: usize,
    up: bool,
    param: u32,
) -> SimView {
    let c = s.channels[ch];
    let raw = remembered(
        param,
        if up {
            c.fine_volume_up
        } else {
            c.fine_volume_down
        },
    );
    let c1 = if up {
        Channel { fine_volume_up: raw, ..c }
    } else {
        Channel { fine_volume_down: raw, ..c }
    };
    if raw != 0 {
        let volume = clamp_volume(
            c.volume + (if up {
                raw as int
            } else {
                -(raw as int)
            }),
        );
        s.with_channel(ch, Channel { volume, ..c1 }).add_volume(
            id,
            VolumeChange { at: t.at(0), tracker_volume: volume, glide: false },
        )
    } else {
        s.with_channel(ch, c1)
    }
}

/// Retrigger: the note starts again on every `every`th of the first `n` ticks behind the
/// row's start.
pub open spec fn retriggered(
    s: SimView,
    t: RowTime,
    ch: int,
    cell: Cell,
    index: u32,
    sample: SampleView,
    pitch: i32,
    every: u32,
    n: nat,
) -> SimView
    decreases n,
{
    if n == 0 {
        s
    } else {
        let p = retriggered(s, t, ch, cell, index, sample, pitch, every, (n - 1) as nat);
        if n % every as nat == 0 {
            triggered(p, t, n as u32, ch, cell, index, sample, pitch)
        } else {
            p
        }
    }
}

/// Note Cut: from tick `tick` on the note is silent, but it is not ended.
pub open spec fn note_cut(s: SimView, t: RowTime, ch: int, id: usize, tick: u32) -> SimView {
    if tick == 0 || tick < t.tempo.speed {
        s.with_channel(ch, Channel { volume: 0, ..s.channels[ch] }).add_volume(
            id,
            VolumeChange { at: t.at(tick), tracker_volume: 0, glide: false },
        )
    } else {
        s
    }
}

/// The Extended (Exx) effects on a sounding note.
pub open spec fn extended(
    s: SimView,
    t: RowTime,
    ch: int,
    id: usize,
    cell: Cell,
    samples: Seq<SampleView>,
) -> SimView {
    let command = param_of(cell) / 16 % 16;
    let param = param_of(cell) % 16;
    if command == E_FINE_PORTAMENTO_UP || command == E_FINE_PORTAMENTO_DOWN {
        fine_portamento(s, t, ch, id, command == E_FINE_PORTAMENTO_UP, param)
    } else if command == E_FINE_VOLSLIDE_UP || command == E_FINE_VOLSLIDE_DOWN {
        fine_volume(s, t, ch, id, command == E_FINE_VOLSLIDE_UP, param)
    } else if command == E_RETRIGGER && param != 0 {
        match playable(samples, s.channels[ch].sample) {
            Some(i) => retriggered(
                s,
                t,
                ch,
                cell,
                s.channels[ch].sample->0,
                samples[i],
                s.notes[id as int].pitch,
                param,
                t.later_ticks(),
            ),
            None => s,
        }
    } else if command == E_NOTE_CUT {
        note_cut(s, t, ch, id, param)
    } else {
        s
    }
}

/// The effects that run over the ticks of a row, on the sounding note.
pub open spec fn tick_effects(
    s: SimView,
    t: RowTime,
    ch: int,
    id: usize,
    cell: Cell,
    samples: Seq<SampleView>,
    was: Active,
) -> SimView {
    match cell.effect {
        Some(e) => if e == VOLUME_SLIDE {
            volume_slid(s, t, ch, id, cell, was.sliding)
        } else if e == PORTAMENTO_UP || e == PORTAMENTO_DOWN {
            portamento(s, t, ch, id, cell, was.bending)
        } else if e == TONE_PORTAMENTO || e == TONE_PORTAMENTO_VOLSLIDE {
            tone_portamento(s, t, ch, id, cell, was)
        } else if e == VIBRATO || e == VIBRATO_VOLSLIDE {
            vibrato(s, t, ch, id, cell, was)
        } else if e == TREMOLO {
            tremolo(s, t, ch, id, cell, was.tremoloing)
        } else if e == ARPEGGIO {
            if param_of(cell) != 0 {
                arpeggio(s, t, id, param_of(cell))
            } else {
                s
            }
        } else if e == EXTENDED {
            extended(s, t, ch, id, cell, samples)
        } else {
            s
        },
        None => s,
    }
}

/// A row's effects on whatever note the channel holds. A fresh trigger has its volume and
/// panning already; only a note that was sounding has them set.
pub open spec fn effects(
    s: SimView,
    t: RowTime,
    ch: int,
    cell: Cell,
    samples: Seq<SampleView>,
    was: Active,
) -> SimView {
    match s.channels[ch].held {
        None => s,
        Some(id) => {
            let s1 = if cell.midi_note is Some && cell.effect != Some(TONE_PORTAMENTO) {
                s
            } else {
                set_directly(s, t, ch, id, cell)
            };
            match s1.channels[ch].held {
                None => s1,
                Some(id1) => tick_effects(s1, t, ch, id1, cell, samples, was),
            }
        },
    }
}

/// A channel at the start of a row: the cell's sample number is taken, and no effect is
/// active yet.
pub open spec fn row_start(c: Channel, cell: Cell) -> Channel {
    Channel {
        sample: if cell.sample_index is Some {
            cell.sample_index
        } else {
            c.sample
        },
        active: idle(),
        ..c
    }
}

/// The channel plays its cell of a row.
pub open spec fn step_cell(
    s: SimView,
    t: RowTime,
    ch: int,
    cell: Cell,
    samples: Seq<SampleView>,
) -> SimView {
    let was = s.channels[ch].active;
    let c = row_start(s.channels[ch], cell);
    let s1 = s.with_channel(ch, c);
    if cell.effect == Some(TONE_PORTAMENTO) {
        effects(s.with_channel(ch, tone_prepared(c, cell)), t, ch, cell, samples, was)
    } else if note_delay(cell) is Some {
        let tick = note_delay(cell)->0;
        match (cell.midi_note, playable(samples, c.sample)) {
            (Some(pitch), Some(i)) => if tick < t.tempo.speed {
                triggered(s1, t, tick, ch, cell, c.sample->0, samples[i], pitch)
            } else {
                s1
            },
            _ => s1,
        }
    } else if cell.midi_note is Some {
        match playable(samples, c.sample) {
            Some(i) => effects(
                triggered(s1, t, 0, ch, cell, c.sample->0, samples[i], cell.midi_note->0),
                t,
                ch,
                cell,
                samples,
                idle(),
            ),
            None => effects(s1, t, ch, cell, samples, was),
        }
    } else if cell.note_off {
        effects(released(s1, t, ch, samples), t, ch, cell, samples, was)
    } else if cell.sample_index is Some {
        effects(swapped(s1, t, ch, samples, cell.sample_index->0), t, ch, cell, samples, was)
    } else {
        effects(s1, t, ch, cell, samples, was)
    }
}

/// The channels play the first cells of a row, from the left.
pub open spec fn step_row(
    s: SimView,
    t: RowTime,
    cells: Seq<Cell>,
    samples: Seq<SampleView>,
) -> SimView
    decreases cells.len(),
{
    if cells.len() == 0 {
        s
    } else {
        step_cell(
            step_row(s, t, cells.drop_last(), samples),
            t,
            cells.len() - 1,
            cells.last(),
            samples,
        )
    }
}


proof fn lemma_phase_step(pos: u32, speed: u32, n: int)
    requires
        0 <= n,
    ensures
        (phase(pos, speed, n) + speed) % 256 == phase(pos, speed, n + 1),
        phase(pos, speed, n) < 256,
{
    let a = pos + n * speed;
    assert(pos + (n + 1) * speed == a + speed) by (nonlinear_arith)
        requires
            a == pos + n * speed,
    ;
    assert(a >= 0) by (nonlinear_arith)
        requires
            a == pos + n * speed,
            n >= 0,
            pos >= 0,
            speed >= 0,
    ;
    assert((a % 256 + speed) % 256 == (a + speed) % 256);
}

/// The log with `bends` added for note `id`, one step at a time.
proof fn lemma_bent_push(s: SimView, id: usize, run: Seq<PitchBend>, k: int)
    requires
        0 <= k < run.len(),
    ensures
        s.bent(id, run.take(k + 1)).bends == s.bent(id, run.take(k)).bends.push((id, run[k])),
{
    let f = |b: PitchBend| (id, b);
    assert(run.take(k + 1).map_values(f) =~= run.take(k).map_values(f).push((id, run[k])));
    assert(s.bent(id, run.take(k + 1)).bends =~= s.bent(id, run.take(k)).bends.push((id, run[k])));
}

impl Sim {
    /// Frames the parts of the state that an effect on channel `ch` and note `id` works on.
    pub open spec fn ready(self, ch: usize, id: usize) -> bool {
        &&& self@.wf()
        &&& ch < self@.channels.len()
        &&& id < self@.notes.len()
    }

    /// Emits one bend point for every tick behind the row's first, all with the same step.
    fn bend_ticks(&mut self, t: &RowTime, id: usize, step: BendStep, was: bool)
        ensures
            final(self)@ == old(self)@.bent(id, bend_run(*t, |i: int| step, was)),
    {
        let ghost start = self@;
        let ghost run = bend_run(*t, |i: int| step, was);
        let mut tick: u32 = 1;
        assert(start.bent(id, run.take(0)) =~= start);
        while tick < t.tempo.speed
            invariant
                1 <= tick,
                tick <= t.tempo.speed || tick == 1,
                run == bend_run(*t, |i: int| step, was),
                self@ == start.bent(id, run.take(tick - 1)),
            decreases t.tempo.speed - tick,
        {
            let glide: bool = if tick == 1 {
                was
            } else {
                true
            };
            let b = PitchBend { at: t.moment(tick), step, glide };
            proof {
                assert(run[tick - 1] == b);
                lemma_bent_push(start, id, run, tick - 1);
            }
            self.bends.push((id, b));
            tick += 1;
        }
        assert(run.take(tick - 1) =~= run);
    }

    fn add_volume_change(&mut self, id: usize, v: VolumeChange)
        requires
            id < old(self)@.notes.len(),
            old(self)@.wf(),
        ensures
            final(self)@ == old(self)@.add_volume(id, v),
            final(self)@.wf(),
    {
        self.volumes.push((id, v));
        let mut n: Note = self.notes[id];
        n.has_volumes = true;
        self.notes[id] = n;
        assert forall|c: int| 0 <= c < self@.channels.len() implies (#[trigger] self@.channels[c]).wf(
            self@.notes.len(),
        ) by {
            assert(old(self)@.channels[c].wf(old(self)@.notes.len()));
        }
    }

    fn release(&mut self, t: &RowTime, ch: usize, samples: &Vec<Sample>)
        requires
            old(self)@.wf(),
            ch < old(self)@.channels.len(),
            forall|i: int| 0 <= i < samples.len() ==> (#[trigger] samples[i])@.wf(),
        ensures
            final(self)@ == released(old(self)@, *t, ch as int, sample_views(samples@)),
            final(self)@.wf(),
    {
        let c: Channel = self.channels[ch];
        if let Some(id) = c.held {
            let mut n: Note = self.notes[id];
            if n.release.is_none() {
                let at: Moment = t.moment(0);
                n.release = Some(at);
                self.notes[id] = n;
                if let Some(index) = c.sample {
                    if let Some(i) = find_sample(samples, index) {
                        assert(sample_views(samples@)[i as int] == samples[i as int]@);
                        let sample: &Sample = &samples[i];
                        push_release(&mut self.envelope_volumes, &sample.volume_envelope, at, id);
                        push_release(&mut self.envelope_pans, &sample.panning_envelope, at, id);
                    }
                }
            }
        }
    }

    fn swap_sample(&mut self, t: &RowTime, ch: usize, samples: &Vec<Sample>, index: u32)
        requires
            old(self)@.wf(),
            ch < old(self)@.channels.len(),
        ensures
            final(self)@ == swapped(old(self)@, *t, ch as int, sample_views(samples@), index),
            final(self)@.wf(),
    {
        let mut c: Channel = self.channels[ch];
        if let Some(id) = c.held {
            if let Some(i) = find_sample(samples, index) {
                assert(sample_views(samples@)[i as int] == samples[i as int]@);
                let volume: i32 = samples[i].volume as i32;
                c.volume = volume;
                self.channels[ch] = c;
                self.add_volume_change(
                    id,
                    VolumeChange { at: t.moment(0), tracker_volume: volume, glide: false },
                );
            }
        }
    }

    fn set_volume_or_pan(&mut self, t: &RowTime, ch: usize, id: usize, cell: &Cell)
        requires
            old(self).ready(ch, id),
        ensures
            final(self)@ == set_directly(old(self)@, *t, ch as int, id, *cell),
            final(self)@.wf(),
    {
        let mut c: Channel = self.channels[ch];
        if cell.effect == Some(SET_VOLUME) && cell.effect_param == Some(0u32) {
            let mut n: Note = self.notes[id];
            n.close = t.moment(0);
            self.notes[id] = n;
            c.held = None;
            self.channels[ch] = c;
        } else if cell.effect == Some(SET_VOLUME) && cell.effect_param.is_some() {
            let volume: i32 = clamped(param_or_zero(cell) as i64);
            c.volume = volume;
            self.channels[ch] = c;
            self.add_volume_change(
                id,
                VolumeChange { at: t.moment(0), tracker_volume: volume, glide: false },
            );
        } else if cell.effect == Some(SET_PANNING) {
            self.pans.push((id, PanChange { at: t.moment(0), param: param_or_zero(cell) }));
        }
    }

    fn slide_volume(&mut self, t: &RowTime, ch: usize, id: usize, cell: &Cell, was: bool)
        requires
            old(self).ready(ch, id),
        ensures
            final(self)@ == volume_slid(old(self)@, *t, ch as int, id, *cell, was),
            final(self)@.wf(),
            final(self)@.notes.len() == old(self)@.notes.len(),
            final(self)@.channels.len() == old(self)@.channels.len(),
    {
        let mut c: Channel = self.channels[ch];
        let param: u32 = or_memory(param_or_zero(cell), c.volslide);
        c.volslide = param;
        self.channels[ch] = c;
        let up: u32 = param / 16 % 16;
        let delta: i64 = if up != 0 {
            up as i64
        } else {
            -((param % 16) as i64)
        };
        if delta == 0 {
            return ;
        }
        let ghost s1 = self@;
        let mut tick: u32 = 1;
        while tick < t.tempo.speed
            invariant
                1 <= tick,
                tick <= t.tempo.speed || tick == 1,
                -15 <= delta <= 15,
                self@ == slid(s1, *t, ch as int, id, delta as int, was, (tick - 1) as nat),
                self.ready(ch, id),
                self@.notes.len() == s1.notes.len(),
                self@.channels.len() == s1.channels.len(),
            decreases t.tempo.speed - tick,
        {
            let mut c1: Channel = self.channels[ch];
            let previous: i32 = c1.volume;
            let volume: i32 = clamped(previous as i64 + delta);
            c1.volume = volume;
            self.channels[ch] = c1;
            let glide: bool = if tick == 1 {
                was
            } else {
                true
            };
            if !(volume == previous && self.notes[id].has_volumes) {
                self.add_volume_change(
                    id,
                    VolumeChange { at: t.moment(tick), tracker_volume: volume, glide },
                );
            }
            tick += 1;
        }
        let mut c2: Channel = self.channels[ch];
        c2.active.sliding = true;
        self.channels[ch] = c2;
    }

    fn slide_pitch(&mut self, t: &RowTime, ch: usize, id: usize, cell: &Cell, was: bool)
        requires
            old(self).ready(ch, id),
        ensures
            final(self)@ == portamento(old(self)@, *t, ch as int, id, *cell, was),
            final(self)@.wf(),
    {
        let mut c: Channel = self.channels[ch];
        let up: bool = cell.effect == Some(PORTAMENTO_UP);
        let param: u32 = or_memory(
            param_or_zero(cell),
            if up {
                c.up_speed
            } else {
                c.down_speed
            },
        );
        if up {
            c.up_speed = param;
        } else {
            c.down_speed = param;
        }
        if param == 0 {
            self.channels[ch] = c;
            return ;
        }
        let delta: i64 = if up {
            -(param as i64)
        } else {
            param as i64
        };
        c.active.bending = true;
        self.channels[ch] = c;
        let ghost mid = self@;
        self.bend_ticks(t, id, BendStep::Slide { delta }, was);
        proof {
            assert(bend_run(*t, |i: int| BendStep::Slide { delta }, was) =~= bend_run(
                *t,
                |i: int| BendStep::Slide { delta: delta as int as i64 },
                was,
            ));
        }
    }

    fn glide_to_target(&mut self, t: &RowTime, ch: usize, id: usize, cell: &Cell, was: Active)
        requires
            old(self).ready(ch, id),
        ensures
            final(self)@ == tone_portamento(old(self)@, *t, ch as int, id, *cell, was),
            final(self)@.wf(),
    {
        let mut c: Channel = self.channels[ch];
        if let Some(note) = c.tone_target {
            let step: u64 = c.tone_step;
            c.active.tone = true;
            self.channels[ch] = c;
            self.bend_ticks(t, id, BendStep::Toward { note, step }, was.tone);
            if cell.effect == Some(TONE_PORTAMENTO_VOLSLIDE) {
                self.slide_volume(t, ch, id, cell, was.sliding);
            }
        }
    }

    fn wobble(&mut self, t: &RowTime, ch: usize, id: usize, cell: &Cell, was: Active)
        requires
            old(self).ready(ch, id),
        ensures
            final(self)@ == vibrato(old(self)@, *t, ch as int, id, *cell, was),
            final(self)@.wf(),
    {
        let mut c: Channel = self.channels[ch];
        let ghost c0 = c;
        if cell.effect == Some(VIBRATO) {
            let rates: (u32, u32) = oscillation_of(
                param_or_zero(cell),
                c.vibrato_speed,
                c.vibrato_depth,
            );
            c.vibrato_speed = rates.0;
            c.vibrato_depth = rates.1;
        }
        let speed: u32 = c.vibrato_speed;
        let depth: u32 = c.vibrato_depth;
        if speed != 0 || depth != 0 {
            let ghost start = self@;
            let ghost run = bend_run(
                *t,
                |i: int| BendStep::Vibrato { pos: phase(c0.vibrato_pos, speed, i + 1), depth },
                was.vibrating,
            );
            let mut pos: u32 = c.vibrato_pos;
            let mut tick: u32 = 1;
            assert(start.bent(id, run.take(0)) =~= start);
            while tick < t.tempo.speed
                invariant
                    1 <= tick,
                    tick <= t.tempo.speed || tick == 1,
                    speed < 64,
                    pos == phase(c0.vibrato_pos, speed, tick - 1),
                    pos < 256,
                    run == bend_run(
                        *t,
                        |i: int|
                            BendStep::Vibrato { pos: phase(c0.vibrato_pos, speed, i + 1), depth },
                        was.vibrating,
                    ),
                    self@ == start.bent(id, run.take(tick - 1)),
                decreases t.tempo.speed - tick,
            {
                proof {
                    lemma_phase_step(c0.vibrato_pos, speed, tick - 1);
                }
                pos = (pos + speed) % 256;
                let glide: bool = if tick == 1 {
                    was.vibrating
                } else {
                    true
                };
                let b = PitchBend {
                    at: t.moment(tick),
                    step: BendStep::Vibrato { pos, depth },
                    glide,
                };
                proof {
                    assert(run[tick - 1] == b);
                    lemma_bent_push(start, id, run, tick - 1);
                }
                self.bends.push((id, b));
                tick += 1;
            }
            assert(run.take(tick - 1) =~= run);
            c.vibrato_pos = pos;
            c.active.vibrating = true;
        }
        self.channels[ch] = c;
        if cell.effect == Some(VIBRATO_VOLSLIDE) {
            self.slide_volume(t, ch, id, cell, was.sliding);
        }
    }

    fn shake_volume(&mut self, t: &RowTime, ch: usize, id: usize, cell: &Cell, was: bool)
        requires
            old(self).ready(ch, id),
        ensures
            final(self)@ == tremolo(old(self)@, *t, ch as int, id, *cell, was),
            final(self)@.wf(),
    {
        let mut c: Channel = self.channels[ch];
        let ghost c0 = c;
        let rates: (u32, u32) = oscillation_of(
            param_or_zero(cell),
            c.tremolo_speed,
            c.tremolo_depth,
        );
        c.tremolo_speed = rates.0;
        c.tremolo_depth = rates.1;
        let ghost c1 = c;
        let speed: u32 = c.tremolo_speed;
        let depth: u32 = c.tremolo_depth;
        if speed != 0 || depth != 0 {
            let ghost start = self@;
            let ghost run = tremolo_run(*t, c1, was);
            let ghost tag = |v: VolumeChange| (id, v);
            let mut pos: u32 = c.tremolo_pos;
            let mut tick: u32 = 1;
            assert(start.volumes + run.take(0).map_values(tag) =~= start.volumes);
            while tick < t.tempo.speed
                invariant
                    1 <= tick,
                    tick <= t.tempo.speed || tick == 1,
                    speed < 64,
                    depth < 16,
                    c.volume == c1.volume,
                    speed == c1.tremolo_speed,
                    depth == c1.tremolo_depth,
                    pos == phase(c1.tremolo_pos, speed, tick - 1),
                    pos < 256,
                    run == tremolo_run(*t, c1, was),
                    tag == (|v: VolumeChange| (id, v)),
                    self@ == (SimView {
                        volumes: start.volumes + run.take(tick - 1).map_values(tag),
                        ..start
                    }),
                decreases t.tempo.speed - tick,
            {
                proof {
                    lemma_phase_step(c1.tremolo_pos, speed, tick - 1);
                }
                pos = (pos + speed) % 256;
                let volume: i32 = clamped(c.volume as i64 + tremolo_offset_of(pos, depth));
                let glide: bool = if tick == 1 {
                    was
                } else {
                    true
                };
                let v = VolumeChange { at: t.moment(tick), tracker_volume: volume, glide };
                proof {
                    assert(run[tick - 1] == v);
                    assert(start.volumes + run.take(tick as int).map_values(tag) =~= (start.volumes
                        + run.take(tick - 1).map_values(tag)).push((id, v)));
                }
                self.volumes.push((id, v));
                tick += 1;
            }
            assert(run.take(tick - 1) =~= run);
            if tick > 1 {
                let mut n: Note = self.notes[id];
                n.has_volumes = true;
                self.notes[id] = n;
            }
            c.tremolo_pos = pos;
            c.active.tremoloing = true;
            self.channels[ch] = c;
            assert(self@.notes =~= tremolo(start, *t, ch as int, id, *cell, was).notes);
        } else {
            self.channels[ch] = c;
        }
    }

    fn arpeggiate(&mut self, t: &RowTime, id: usize, param: u32)
        ensures
            final(self)@ == arpeggio(old(self)@, *t, id, param),
    {
        let ghost start = self@;
        let ghost run = Seq::new(
            t.later_ticks(),
            |i: int|
                {
                    let kind = arpeggio_kind(t.tempo.speed - (i + 1));
                    PitchBend {
                        at: t.at((i + 1) as u32),
                        step: BendStep::Arpeggio {
                            semitones: if kind == 0 {
                                0
                            } else if kind == 1 {
                                param / 16 % 16
                            } else {
                                param % 16
                            },
                        },
                        glide: false,
                    }
                },
        );
        let mut tick: u32 = 1;
        assert(start.bent(id, run.take(0)) =~= start);
        while tick < t.tempo.speed
            invariant
                1 <= tick,
                tick <= t.tempo.speed || tick == 1,
                run.len() == t.later_ticks(),
                forall|i: int|
                    0 <= i < run.len() ==> #[trigger] run[i] == ({
                        let kind = arpeggio_kind(t.tempo.speed - (i + 1));
                        PitchBend {
                            at: t.at((i + 1) as u32),
                            step: BendStep::Arpeggio {
                                semitones: if kind == 0 {
                                    0
                                } else if kind == 1 {
                                    param / 16 % 16
                                } else {
                                    param % 16
                                },
                            },
                            glide: false,
                        }
                    }),
                self@ == start.bent(id, run.take(tick - 1)),
            decreases t.tempo.speed - tick,
        {
            let counter: u32 = t.tempo.speed - tick;
            let semitones: u32 = if counter == 16 || (counter < 16 && counter % 3 == 0) {
                0
            } else if counter < 16 && counter % 3 == 1 {
                param / 16 % 16
            } else {
                param % 16
            };
            let b = PitchBend {
                at: t.moment(tick),
                step: BendStep::Arpeggio { semitones },
                glide: false,
            };
            proof {
                assert(run[tick - 1] == b);
                lemma_bent_push(start, id, run, tick - 1);
            }
            self.bends.push((id, b));
            tick += 1;
        }
        assert(run.take(tick - 1) =~= run);
    }

    fn slide_pitch_once(&mut self, t: &RowTime, ch: usize, id: usize, up: bool, param: u32)
        requires
            old(self).ready(ch, id),
        ensures
            final(self)@ == fine_portamento(old(self)@, *t, ch as int, id, up, param),
            final(self)@.wf(),
    {
        let mut c: Channel = self.channels[ch];
        let raw: u32 = or_memory(
            param,
            if up {
                c.fine_up
            } else {
                c.fine_down
            },
        );
        if up {
            c.fine_up = raw;
        } else {
            c.fine_down = raw;
        }
        self.channels[ch] = c;
        let ghost mid = self@;
        if raw != 0 {
            let delta: i64 = if up {
                -(4 * (raw as i64))
            } else {
                4 * (raw as i64)
            };
            let b = PitchBend { at: t.moment(0), step: BendStep::Slide { delta }, glide: false };
            self.bends.push((id, b));
            assert(self@.bends =~= mid.bent(id, seq![b]).bends);
        }
    }

    fn slide_volume_once(&mut self, t: &RowTime, ch: usize, id: usize, up: bool, param: u32)
        requires
            old(self).ready(ch, id),
        ensures
            final(self)@ == fine_volume(old(self)@, *t, ch as int, id, up, param),
            final(self)@.wf(),
    {
        let mut c: Channel = self.channels[ch];
        let raw: u32 = or_memory(
            param,
            if up {
                c.fine_volume_up
            } else {
                c.fine_volume_down
            },
        );
        if up {
            c.fine_volume_up = raw;
        } else {
            c.fine_volume_down = raw;
        }
        if raw != 0 {
            let delta: i64 = if up {
                raw as i64
            } else {
                -(raw as i64)
            };
            let volume: i32 = clamped(c.volume as i64 + delta);
            c.volume = volume;
            self.channels[ch] = c;
            self.add_volume_change(
                id,
                VolumeChange { at: t.moment(0), tracker_volume: volume, glide: false },
            );
        } else {
            self.channels[ch] = c;
        }
    }

    fn retrigger(
        &mut self,
        t: &RowTime,
        ch: usize,
        cell: &Cell,
        index: u32,
        sample: &Sample,
        pitch: i32,
        every: u32,
    )
        requires
            old(self)@.wf(),
            ch < old(self)@.channels.len(),
            sample@.wf(),
            every > 0,
        ensures
            final(self)@ == retriggered(
                old(self)@,
                *t,
                ch as int,
                *cell,
                index,
                sample@,
                pitch,
                every,
                t.later_ticks(),
            ),
            final(self)@.wf(),
    {
        let ghost start = self@;
        let mut tick: u32 = 1;
        while tick < t.tempo.speed
            invariant
                1 <= tick,
                tick <= t.tempo.speed || tick == 1,
                self@.wf(),
                ch < self@.channels.len(),
                sample@.wf(),
                every > 0,
                self@ == retriggered(
                    start,
                    *t,
                    ch as int,
                    *cell,
                    index,
                    sample@,
                    pitch,
                    every,
                    (tick - 1) as nat,
                ),
            decreases t.tempo.speed - tick,
        {
            if tick % every == 0 {
                self.trigger(t, tick, ch, cell, index, sample, pitch);
            }
            tick += 1;
        }
    }

    fn cut(&mut self, t: &RowTime, ch: usize, id: usize, tick: u32)
        requires
            old(self).ready(ch, id),
        ensures
            final(self)@ == note_cut(old(self)@, *t, ch as int, id, tick),
            final(self)@.wf(),
    {
        if tick == 0 || tick < t.tempo.speed {
            let mut c: Channel = self.channels[ch];
            c.volume = 0;
            self.channels[ch] = c;
            self.add_volume_change(
                id,
                VolumeChange { at: t.moment(tick), tracker_volume: 0, glide: false },
            );
        }
    }

    fn apply_extended(
        &mut self,
        t: &RowTime,
        ch: usize,
        id: usize,
        cell: &Cell,
        samples: &Vec<Sample>,
    )
        requires
            old(self).ready(ch, id),
            forall|i: int| 0 <= i < samples.len() ==> (#[trigger] samples[i])@.wf(),
        ensures
            final(self)@ == extended(
                old(self)@,
                *t,
                ch as int,
                id,
                *cell,
                sample_views(samples@),
            ),
            final(self)@.wf(),
    {
        let raw: u32 = param_or_zero(cell);
        let command: u32 = raw / 16 % 16;
        let param: u32 = raw % 16;
        if command == E_FINE_PORTAMENTO_UP || command == E_FINE_PORTAMENTO_DOWN {
            self.slide_pitch_once(t, ch, id, command == E_FINE_PORTAMENTO_UP, param);
        } else if command == E_FINE_VOLSLIDE_UP || command == E_FINE_VOLSLIDE_DOWN {
            self.slide_volume_once(t, ch, id, command == E_FINE_VOLSLIDE_UP, param);
        } else if command == E_RETRIGGER && param != 0 {
            let current: Option<u32> = self.channels[ch].sample;
            if let Some(i) = find_playable(samples, current) {
                assert(sample_views(samples@)[i as int] == samples[i as int]@);
                if let Some(index) = current {
                    let pitch: i32 = self.notes[id].pitch;
                    self.retrigger(t, ch, cell, index, &samples[i], pitch, param);
                }
            }
        } else if command == E_NOTE_CUT {
            self.cut(t, ch, id, param);
        }
    }

    fn apply_tick_effects(
        &mut self,
        t: &RowTime,
        ch: usize,
        id: usize,
        cell: &Cell,
        samples: &Vec<Sample>,
        was: Active,
    )
        requires
            old(self).ready(ch, id),
            forall|i: int| 0 <= i < samples.len() ==> (#[trigger] samples[i])@.wf(),
        ensures
            final(self)@ == tick_effects(
                old(self)@,
                *t,
                ch as int,
                id,
                *cell,
                sample_views(samples@),
                was,
            ),
            final(self)@.wf(),
    {
        if let Some(e) = cell.effect {
            if e == VOLUME_SLIDE {
                self.slide_volume(t, ch, id, cell, was.sliding);
            } else if e == PORTAMENTO_UP || e == PORTAMENTO_DOWN {
                self.slide_pitch(t, ch, id, cell, was.bending);
            } else if e == TONE_PORTAMENTO || e == TONE_PORTAMENTO_VOLSLIDE {
                self.glide_to_target(t, ch, id, cell, was);
            } else if e == VIBRATO || e == VIBRATO_VOLSLIDE {
                self.wobble(t, ch, id, cell, was);
            } else if e == TREMOLO {
                self.shake_volume(t, ch, id, cell, was.tremoloing);
            } else if e == ARPEGGIO {
                let param: u32 = param_or_zero(cell);
                if param != 0 {
                    self.arpeggiate(t, id, param);
                }
            } else if e == EXTENDED {
                self.apply_extended(t, ch, id, cell, samples);
            }
        }
    }

    fn apply_effects(
        &mut self,
        t: &RowTime,
        ch: usize,
        cell: &Cell,
        samples: &Vec<Sample>,
        was: Active,
    )
        requires
            old(self)@.wf(),
            ch < old(self)@.channels.len(),
            forall|i: int| 0 <= i < samples.len() ==> (#[trigger] samples[i])@.wf(),
        ensures
            final(self)@ == effects(
                old(self)@,
                *t,
                ch as int,
                *cell,
                sample_views(samples@),
                was,
            ),
            final(self)@.wf(),
    {
        if let Some(id) = self.channels[ch].held {
            assert(self@.channels[ch as int].wf(self@.notes.len()));
            if !(cell.midi_note.is_some() && cell.effect != Some(TONE_PORTAMENTO)) {
                self.set_volume_or_pan(t, ch, id, cell);
            }
            if let Some(id1) = self.channels[ch].held {
                assert(self@.channels[ch as int].wf(self@.notes.len()));
                self.apply_tick_effects(t, ch, id1, cell, samples, was);
            }
        }
    }

    /// The channel plays its cell of a row.
    pub fn play_cell(&mut self, t: &RowTime, ch: usize, cell: &Cell, samples: &Vec<Sample>)
        requires
            old(self)@.wf(),
            ch < old(self)@.channels.len(),
            forall|i: int| 0 <= i < samples.len() ==> (#[trigger] samples[i])@.wf(),
        ensures
            final(self)@ == step_cell(
                old(self)@,
                *t,
                ch as int,
                *cell,
                sample_views(samples@),
            ),
            final(self)@.wf(),
    {
        let ghost start = self@;
        let ghost views = sample_views(samples@);
        let mut c: Channel = self.channels[ch];
        assert(c.wf(self@.notes.len()));
        let was: Active = c.active;
        if cell.sample_index.is_some() {
            c.sample = cell.sample_index;
        }
        c.active = none_active();
        if cell.effect == Some(TONE_PORTAMENTO) {
            let prepared: Channel = prepare_tone(c, cell);
            self.channels[ch] = prepared;
            self.apply_effects(t, ch, cell, samples, was);
            return ;
        }
        self.channels[ch] = c;
        assert(self@ == start.with_channel(ch as int, c));
        if let Some(tick) = note_delay_of(cell) {
            if let Some(pitch) = cell.midi_note {
                if let Some(i) = find_playable(samples, c.sample) {
                    assert(views[i as int] == samples[i as int]@);
                    if let Some(index) = c.sample {
                        if tick < t.tempo.speed {
                            self.trigger(t, tick, ch, cell, index, &samples[i], pitch);
                        }
                    }
                }
            }
        } else if let Some(pitch) = cell.midi_note {
            match find_playable(samples, c.sample) {
                Some(i) => {
                    assert(views[i as int] == samples[i as int]@);
                    if let Some(index) = c.sample {
                        self.trigger(t, 0, ch, cell, index, &samples[i], pitch);
                        self.apply_effects(t, ch, cell, samples, none_active());
                    }
                },
                None => {
                    self.apply_effects(t, ch, cell, samples, was);
                },
            }
        } else if cell.note_off {
            self.release(t, ch, samples);
            self.apply_effects(t, ch, cell, samples, was);
        } else if let Some(index) = cell.sample_index {
            self.swap_sample(t, ch, samples, index);
            self.apply_effects(t, ch, cell, samples, was);
        } else {
            self.apply_effects(t, ch, cell, samples, was);
        }
    }
}

/// The tempo that the module starts at.
pub open spec fn initial_tempo(m: ModuleView) -> Tempo {
    Tempo { tracker_bpm: m.initial_tempo_bpm, speed: m.initial_speed_ticks }
}

/// The time of the last of the given rows.
pub open spec fn last_row_time(m: ModuleView, rows: Seq<SongRowView>) -> RowTime {
    RowTime {
        row: (rows.len() - 1) as usize,
        tempo: tempo_track(initial_tempo(m), rows).tempo,
    }
}

/// The log after the given rows of the song.
pub open spec fn sim_rows(m: ModuleView, rows: Seq<SongRowView>) -> SimView
    decreases rows.len(),
{
    if rows.len() == 0 {
        SimView {
            channels: Seq::new(m.num_channels as nat, |i: int| fresh_channel()),
            notes: Seq::empty(),
            bends: Seq::empty(),
            volumes: Seq::empty(),
            pans: Seq::empty(),
            envelope_volumes: Seq::empty(),
            envelope_pans: Seq::empty(),
        }
    } else {
        step_row(
            sim_rows(m, rows.drop_last()),
            last_row_time(m, rows),
            rows.last().row,
            m.samples,
        )
    }
}

/// The end of a song of `rows` rows.
pub open spec fn song_end(rows: usize) -> Moment {
    Moment { row: rows, tick: 0, speed: 1 }
}

/// The song ends: the first `n` channels let go of their notes.
pub open spec fn close_rest(s: SimView, rows: usize, n: int) -> SimView
    decreases n,
{
    if n <= 0 {
        s
    } else {
        let p = close_rest(s, rows, n - 1);
        match s.channels[n - 1].held {
            Some(id) => p.closed(id as int, song_end(rows)),
            None => p,
        }
    }
}

/// Plays the song to its end.
pub fn play_song(module: &Module, rows: &Vec<SongRow<'_>>, tempos: &Vec<Tempo>) -> (r: Sim)
    requires
        forall|k: int|
            0 <= k < rows.len() ==> (#[trigger] rows[k])@.row.len() <= module.num_channels,
        forall|i: int| 0 <= i < module.samples.len() ==> (#[trigger] module.samples[i])@.wf(),
        tempos@ == Seq::new(
            rows.len() as nat,
            |k: int| tempo_at(initial_tempo(module@), song_row_views(rows@), k),
        ),
    ensures
        r@ == close_rest(
            sim_rows(module@, song_row_views(rows@)),
            rows.len(),
            module.num_channels as int,
        ),
        r@.channels.len() == module.num_channels,
        sim_rows(module@, song_row_views(rows@)).channels.len() == module.num_channels,
{
    let ghost m = module@;
    let ghost views = song_row_views(rows@);
    let mut channels: Vec<Channel> = Vec::new();
    let mut z: usize = 0;
    while z < module.num_channels
        invariant
            z <= module.num_channels,
            channels@ == Seq::new(z as nat, |i: int| fresh_channel()),
        decreases module.num_channels - z,
    {
        channels.push(new_channel());
        z += 1;
        assert(channels@ =~= Seq::new(z as nat, |i: int| fresh_channel()));
    }
    let mut sim = Sim {
        channels,
        notes: Vec::new(),
        bends: Vec::new(),
        volumes: Vec::new(),
        pans: Vec::new(),
        envelope_volumes: Vec::new(),
        envelope_pans: Vec::new(),
    };
    let mut k: usize = 0;
    assert(views.take(0) =~= Seq::<SongRowView>::empty());
    while k < rows.len()
        invariant
            k <= rows.len(),
            m == module@,
            views == song_row_views(rows@),
            forall|j: int|
                0 <= j < rows.len() ==> (#[trigger] rows[j])@.row.len() <= module.num_channels,
            forall|i: int| 0 <= i < module.samples.len() ==> (#[trigger] module.samples[i])@.wf(),
            tempos@ == Seq::new(
                rows.len() as nat,
                |j: int| tempo_at(initial_tempo(m), views, j),
            ),
            sim@ == sim_rows(m, views.take(k as int)),
            sim@.wf(),
            sim@.channels.len() == module.num_channels,
        decreases rows.len() - k,
    {
        let cells: &[Cell] = rows[k].row;
        let t = RowTime { row: k, tempo: tempos[k] };
        let ghost start = sim@;
        proof {
            assert(views.take(k + 1).drop_last() =~= views.take(k as int));
            assert(views.take(k + 1).last() == rows[k as int]@);
            assert(t == last_row_time(m, views.take(k + 1)));
            assert(cells@.take(0) =~= Seq::<Cell>::empty());
        }
        let mut c: usize = 0;
        while c < cells.len()
            invariant
                c <= cells.len() <= module.num_channels,
                m == module@,
                forall|i: int|
                    0 <= i < module.samples.len() ==> (#[trigger] module.samples[i])@.wf(),
                sim@ == step_row(start, t, cells@.take(c as int), m.samples),
                sim@.wf(),
                sim@.channels.len() == module.num_channels,
            decreases cells.len() - c,
        {
            let cell: Cell = cells[c];
            proof {
                assert(cells@.take(c + 1).drop_last() =~= cells@.take(c as int));
                assert(cells@.take(c + 1).last() == cell);
                lemma_cell_grows(sim@, t, c as int, cell, m.samples);
            }
            sim.play_cell(&t, c, &cell, &module.samples);
            c += 1;
        }
        assert(cells@.take(c as int) =~= cells@);
        k += 1;
    }
    assert(views.take(k as int) =~= views);
    let ghost played = sim@;
    let mut c: usize = 0;
    while c < sim.channels.len()
        invariant
            c <= sim.channels.len(),
            played.wf(),
            sim@ == close_rest(played, rows.len(), c as int),
            sim@.channels == played.channels,
            sim@.notes.len() == played.notes.len(),
        decreases sim.channels.len() - c,
    {
        assert(played.channels[c as int].wf(played.notes.len()));
        if let Some(id) = sim.channels[c].held {
            let mut n: Note = sim.notes[id];
            n.close = Moment { row: rows.len(), tick: 0, speed: 1 };
            sim.notes[id] = n;
        }
        c += 1;
    }
    sim
}

/// The two notes were triggered the same way.
pub open spec fn same_trigger(a: Note, b: Note) -> bool {
    &&& a.sample == b.sample
    &&& a.start == b.start
    &&& a.natural == b.natural
    &&& a.pitch == b.pitch
    &&& a.velocity == b.velocity
    &&& a.trigger_volume == b.trigger_volume
    &&& a.channel == b.channel
    &&& a.sample_offset_frames == b.sample_offset_frames
}

/// What a row may do to the log: notes keep their triggers, and new ones start within the row
/// and play a sample that has sound.
pub open spec fn grows(a: SimView, b: SimView, t: RowTime, samples: Seq<SampleView>) -> bool {
    &&& b.wf()
    &&& b.channels.len() == a.channels.len()
    &&& b.notes.len() >= a.notes.len()
    &&& forall|i: int|
        0 <= i < a.notes.len() ==> same_trigger(#[trigger] a.notes[i], b.notes[i])
    &&& forall|i: int|
        a.notes.len() <= i < b.notes.len() ==> {
            &&& (#[trigger] b.notes[i]).start.row == t.row
            &&& b.notes[i].start.speed == t.tempo.speed
            &&& b.notes[i].start.wf()
            &&& has_sound(samples, b.notes[i].sample)
        }
}

pub(crate) proof fn lemma_grows_trans(
    a: SimView,
    b: SimView,
    c: SimView,
    t: RowTime,
    samples: Seq<SampleView>,
)
    requires
        grows(a, b, t, samples),
        grows(b, c, t, samples),
    ensures
        grows(a, c, t, samples),
{
    assert forall|i: int| 0 <= i < a.notes.len() implies same_trigger(
        #[trigger] a.notes[i],
        c.notes[i],
    ) by {
        assert(same_trigger(a.notes[i], b.notes[i]));
        assert(same_trigger(b.notes[i], c.notes[i]));
    }
    assert forall|i: int| a.notes.len() <= i < c.notes.len() implies {
        &&& (#[trigger] c.notes[i]).start.row == t.row
        &&& c.notes[i].start.speed == t.tempo.speed
        &&& c.notes[i].start.wf()
        &&& has_sound(samples, c.notes[i].sample)
    } by {
        if i < b.notes.len() {
            assert(same_trigger(b.notes[i], c.notes[i]));
        }
    }
}

pub(crate) proof fn lemma_trigger_grows(
    s: SimView,
    t: RowTime,
    tick: u32,
    ch: int,
    cell: Cell,
    index: u32,
    sample: SampleView,
    pitch: i32,
    samples: Seq<SampleView>,
)
    requires
        s.wf(),
        0 <= ch < s.channels.len(),
        tick == 0 || tick < t.tempo.speed,
        has_sound(samples, index),
    ensures
        grows(s, triggered(s, t, tick, ch, cell, index, sample, pitch), t, samples),
{
}

proof fn lemma_slid_grows(
    s: SimView,
    t: RowTime,
    ch: int,
    id: usize,
    delta: int,
    was: bool,
    n: nat,
    samples: Seq<SampleView>,
)
    requires
        s.wf(),
        0 <= ch < s.channels.len(),
        id < s.notes.len(),
    ensures
        grows(s, slid(s, t, ch, id, delta, was, n), t, samples),
    decreases n,
{
    if n > 0 {
        lemma_slid_grows(s, t, ch, id, delta, was, (n - 1) as nat, samples);
        lemma_grows_trans(
            s,
            slid(s, t, ch, id, delta, was, (n - 1) as nat),
            slid(s, t, ch, id, delta, was, n),
            t,
            samples,
        );
    }
}

proof fn lemma_volume_slid_grows(
    s: SimView,
    t: RowTime,
    ch: int,
    id: usize,
    cell: Cell,
    was: bool,
    samples: Seq<SampleView>,
)
    requires
        s.wf(),
        0 <= ch < s.channels.len(),
        id < s.notes.len(),
    ensures
        grows(s, volume_slid(s, t, ch, id, cell, was), t, samples),
{
    let c = s.channels[ch];
    let param = remembered(param_of(cell), c.volslide);
    let s1 = s.with_channel(ch, Channel { volslide: param, ..c });
    assert(grows(s, s1, t, samples));
    if slide_delta(param) != 0 {
        lemma_slid_grows(s1, t, ch, id, slide_delta(param), was, t.later_ticks(), samples);
        let s2 = slid(s1, t, ch, id, slide_delta(param), was, t.later_ticks());
        lemma_grows_trans(s, s1, s2, t, samples);
        lemma_grows_trans(s, s2, volume_slid(s, t, ch, id, cell, was), t, samples);
    }
}

pub(crate) proof fn lemma_retriggered_grows(
    s: SimView,
    t: RowTime,
    ch: int,
    cell: Cell,
    index: u32,
    sample: SampleView,
    pitch: i32,
    every: u32,
    n: nat,
    samples: Seq<SampleView>,
)
    requires
        s.wf(),
        0 <= ch < s.channels.len(),
        n <= t.later_ticks(),
        has_sound(samples, index),
    ensures
        grows(s, retriggered(s, t, ch, cell, index, sample, pitch, every, n), t, samples),
    decreases n,
{
    if n > 0 {
        let p = retriggered(s, t, ch, cell, index, sample, pitch, every, (n - 1) as nat);
        lemma_retriggered_grows(
            s,
            t,
            ch,
            cell,
            index,
            sample,
            pitch,
            every,
            (n - 1) as nat,
            samples,
        );
        if n % every as nat == 0 {
            lemma_trigger_grows(p, t, n as u32, ch, cell, index, sample, pitch, samples);
            lemma_grows_trans(
                s,
                p,
                triggered(p, t, n as u32, ch, cell, index, sample, pitch),
                t,
                samples,
            );
        }
    }
}

proof fn lemma_tone_grows(
    s: SimView,
    t: RowTime,
    ch: int,
    id: usize,
    cell: Cell,
    samples: Seq<SampleView>,
    was: Active,
)
    requires
        s.wf(),
        0 <= ch < s.channels.len(),
        id < s.notes.len(),
    ensures
        grows(s, tone_portamento(s, t, ch, id, cell, was), t, samples),
{
    let c = s.channels[ch];
    if c.tone_target is Some {
        let note = c.tone_target->0;
        let s1 = s.with_channel(
            ch,
            Channel { active: Active { tone: true, ..c.active }, ..c },
        ).bent(id, bend_run(t, |i: int| BendStep::Toward { note, step: c.tone_step }, was.tone));
        assert(grows(s, s1, t, samples));
        lemma_volume_slid_grows(s1, t, ch, id, cell, was.sliding, samples);
        lemma_grows_trans(
            s,
            s1,
            volume_slid(s1, t, ch, id, cell, was.sliding),
            t,
            samples,
        );
    }
}

proof fn lemma_vibrato_grows(
    s: SimView,
    t: RowTime,
    ch: int,
    id: usize,
    cell: Cell,
    samples: Seq<SampleView>,
    was: Active,
)
    requires
        s.wf(),
        0 <= ch < s.channels.len(),
        id < s.notes.len(),
    ensures
        grows(s, vibrato(s, t, ch, id, cell, was), t, samples),
{
    let c = s.channels[ch];
    assert(c.wf(s.notes.len()));
    let (speed, depth) = if cell.effect == Some(VIBRATO) {
        oscillation(param_of(cell), c.vibrato_speed, c.vibrato_depth)
    } else {
        (c.vibrato_speed, c.vibrato_depth)
    };
    let c1 = Channel { vibrato_speed: speed, vibrato_depth: depth, ..c };
    let s1 = if speed != 0 || depth != 0 {
        s.with_channel(
            ch,
            Channel {
                vibrato_pos: phase(c.vibrato_pos, speed, t.later_ticks() as int),
                active: Active { vibrating: true, ..c1.active },
                ..c1
            },
        ).bent(
            id,
            bend_run(
                t,
                |i: int| BendStep::Vibrato { pos: phase(c.vibrato_pos, speed, i + 1), depth },
                was.vibrating,
            ),
        )
    } else {
        s.with_channel(ch, c1)
    };
    lemma_phase_step(c.vibrato_pos, speed, t.later_ticks() as int);
    assert(s1.notes == s.notes);
    assert(grows(s, s1, t, samples));
    lemma_volume_slid_grows(s1, t, ch, id, cell, was.sliding, samples);
    lemma_grows_trans(s, s1, volume_slid(s1, t, ch, id, cell, was.sliding), t, samples);
}

proof fn lemma_tremolo_grows(
    s: SimView,
    t: RowTime,
    ch: int,
    id: usize,
    cell: Cell,
    samples: Seq<SampleView>,
    was: Active,
)
    requires
        s.wf(),
        0 <= ch < s.channels.len(),
        id < s.notes.len(),
    ensures
        grows(s, tremolo(s, t, ch, id, cell, was.tremoloing), t, samples),
{
    let c = s.channels[ch];
    assert(c.wf(s.notes.len()));
    let rates = oscillation(param_of(cell), c.tremolo_speed, c.tremolo_depth);
    lemma_phase_step(c.tremolo_pos, rates.0, t.later_ticks() as int);
}

proof fn lemma_extended_grows(
    s: SimView,
    t: RowTime,
    ch: int,
    id: usize,
    cell: Cell,
    samples: Seq<SampleView>,
    was: Active,
)
    requires
        s.wf(),
        0 <= ch < s.channels.len(),
        id < s.notes.len(),
    ensures
        grows(s, extended(s, t, ch, id, cell, samples), t, samples),
{
    assert(s.channels[ch].wf(s.notes.len()));
    let param = param_of(cell) % 16;
    match playable(samples, s.channels[ch].sample) {
        Some(i) => {
            lemma_retriggered_grows(
                s,
                t,
                ch,
                cell,
                s.channels[ch].sample->0,
                samples[i],
                s.notes[id as int].pitch,
                param,
                t.later_ticks(),
                samples,
            );
        },
        None => {},
    }
}

proof fn lemma_portamento_grows(
    s: SimView,
    t: RowTime,
    ch: int,
    id: usize,
    cell: Cell,
    samples: Seq<SampleView>,
    was: Active,
)
    requires
        s.wf(),
        0 <= ch < s.channels.len(),
        id < s.notes.len(),
    ensures
        grows(s, portamento(s, t, ch, id, cell, was.bending), t, samples),
{
    assert(s.channels[ch].wf(s.notes.len()));
}

proof fn lemma_tick_effects_grow(
    s: SimView,
    t: RowTime,
    ch: int,
    id: usize,
    cell: Cell,
    samples: Seq<SampleView>,
    was: Active,
)
    requires
        s.wf(),
        0 <= ch < s.channels.len(),
        id < s.notes.len(),
    ensures
        grows(s, tick_effects(s, t, ch, id, cell, samples, was), t, samples),
{
    match cell.effect {
        Some(e) => if e == VOLUME_SLIDE {
            lemma_volume_slid_grows(s, t, ch, id, cell, was.sliding, samples);
        } else if e == PORTAMENTO_UP || e == PORTAMENTO_DOWN {
            lemma_portamento_grows(s, t, ch, id, cell, samples, was);
        } else if e == TONE_PORTAMENTO || e == TONE_PORTAMENTO_VOLSLIDE {
            lemma_tone_grows(s, t, ch, id, cell, samples, was);
        } else if e == VIBRATO || e == VIBRATO_VOLSLIDE {
            lemma_vibrato_grows(s, t, ch, id, cell, samples, was);
        } else if e == TREMOLO {
            lemma_tremolo_grows(s, t, ch, id, cell, samples, was);
        } else if e == EXTENDED {
            lemma_extended_grows(s, t, ch, id, cell, samples, was);
        } else {
            assert(grows(s, tick_effects(s, t, ch, id, cell, samples, was), t, samples));
        },
        None => {},
    }
}

pub(crate) proof fn lemma_effects_grow(
    s: SimView,
    t: RowTime,
    ch: int,
    cell: Cell,
    samples: Seq<SampleView>,
    was: Active,
)
    requires
        s.wf(),
        0 <= ch < s.channels.len(),
    ensures
        grows(s, effects(s, t, ch, cell, samples, was), t, samples),
{
    match s.channels[ch].held {
        None => {},
        Some(id) => {
            let s1 = if cell.midi_note is Some && cell.effect != Some(TONE_PORTAMENTO) {
                s
            } else {
                set_directly(s, t, ch, id, cell)
            };
            assert(grows(s, s1, t, samples));
            match s1.channels[ch].held {
                None => {},
                Some(id1) => {
                    lemma_tick_effects_grow(s1, t, ch, id1, cell, samples, was);
                    lemma_grows_trans(
                        s,
                        s1,
                        tick_effects(s1, t, ch, id1, cell, samples, was),
                        t,
                        samples,
                    );
                },
            }
        },
    }
}

pub(crate) proof fn lemma_cell_grows(s: SimView, t: RowTime, ch: int, cell: Cell, samples: Seq<SampleView>)
    requires
        s.wf(),
        0 <= ch < s.channels.len(),
    ensures
        grows(s, step_cell(s, t, ch, cell, samples), t, samples),
{
    let was = s.channels[ch].active;
    let c = row_start(s.channels[ch], cell);
    let s1 = s.with_channel(ch, c);
    let after = step_cell(s, t, ch, cell, samples);
    assert(grows(s, s1, t, samples));
    if cell.effect == Some(TONE_PORTAMENTO) {
        let s2 = s.with_channel(ch, tone_prepared(c, cell));
        assert(grows(s, s2, t, samples));
        lemma_effects_grow(s2, t, ch, cell, samples, was);
        lemma_grows_trans(s, s2, after, t, samples);
    } else if note_delay(cell) is Some {
        match (cell.midi_note, playable(samples, c.sample)) {
            (Some(pitch), Some(i)) => {
                if note_delay(cell)->0 < t.tempo.speed {
                    lemma_trigger_grows(
                        s1,
                        t,
                        note_delay(cell)->0,
                        ch,
                        cell,
                        c.sample->0,
                        samples[i],
                        pitch,
                        samples,
                    );
                    lemma_grows_trans(s, s1, after, t, samples);
                }
            },
            _ => {},
        }
    } else if cell.midi_note is Some {
        match playable(samples, c.sample) {
            Some(i) => {
                let s2 = triggered(
                    s1,
                    t,
                    0,
                    ch,
                    cell,
                    c.sample->0,
                    samples[i],
                    cell.midi_note->0,
                );
                lemma_trigger_grows(
                    s1,
                    t,
                    0,
                    ch,
                    cell,
                    c.sample->0,
                    samples[i],
                    cell.midi_note->0,
                    samples,
                );
                lemma_grows_trans(s, s1, s2, t, samples);
                lemma_effects_grow(s2, t, ch, cell, samples, idle());
                lemma_grows_trans(s, s2, after, t, samples);
            },
            None => {
                lemma_effects_grow(s1, t, ch, cell, samples, was);
                lemma_grows_trans(s, s1, after, t, samples);
            },
        }
    } else if cell.note_off {
        let s2 = released(s1, t, ch, samples);
        assert(grows(s1, s2, t, samples));
        lemma_grows_trans(s, s1, s2, t, samples);
        lemma_effects_grow(s2, t, ch, cell, samples, was);
        lemma_grows_trans(s, s2, after, t, samples);
    } else if cell.sample_index is Some {
        let s2 = swapped(s1, t, ch, samples, cell.sample_index->0);
        assert(grows(s1, s2, t, samples));
        lemma_grows_trans(s, s1, s2, t, samples);
        lemma_effects_grow(s2, t, ch, cell, samples, was);
        lemma_grows_trans(s, s2, after, t, samples);
    } else {
        lemma_effects_grow(s1, t, ch, cell, samples, was);
        lemma_grows_trans(s, s1, after, t, samples);
    }
}

pub(crate) proof fn lemma_row_grows(s: SimView, t: RowTime, cells: Seq<Cell>, samples: Seq<SampleView>)
    requires
        s.wf(),
        cells.len() <= s.channels.len(),
    ensures
        grows(s, step_row(s, t, cells, samples), t, samples),
    decreases cells.len(),
{
    if cells.len() > 0 {
        let p = step_row(s, t, cells.drop_last(), samples);
        lemma_row_grows(s, t, cells.drop_last(), samples);
        lemma_cell_grows(p, t, cells.len() - 1, cells.last(), samples);
        lemma_grows_trans(s, p, step_row(s, t, cells, samples), t, samples);
    }
}

pub proof fn lemma_sim_wf(m: ModuleView, rows: Seq<SongRowView>)
    requires
        forall|k: int|
            0 <= k < rows.len() ==> (#[trigger] rows[k]).row.len() <= m.num_channels,
    ensures
        sim_rows(m, rows).wf(),
        sim_rows(m, rows).channels.len() == m.num_channels,
    decreases rows.len(),
{
    if rows.len() > 0 {
        let d = rows.drop_last();
        assert forall|k: int| 0 <= k < d.len() implies (#[trigger] d[k]).row.len()
            <= m.num_channels by {
            assert(d[k] == rows[k]);
        }
        lemma_sim_wf(m, d);
        assert(rows[rows.len() - 1].row.len() <= m.num_channels);
        lemma_row_grows(
            sim_rows(m, d),
            last_row_time(m, rows),
            rows.last().row,
            m.samples,
        );
    }
}

/// Every note of the song starts within one of its rows, at a tick of it and at the Speed
/// that the row is played at, and plays a sample that has sound.
pub proof fn law_notes_lie_on_rows(m: ModuleView, rows: Seq<SongRowView>, i: int)
    requires
        rows.len() <= usize::MAX,
        forall|k: int|
            0 <= k < rows.len() ==> (#[trigger] rows[k]).row.len() <= m.num_channels,
        0 <= i < sim_rows(m, rows).notes.len(),
    ensures
        ({
            let n = sim_rows(m, rows).notes[i];
            &&& n.start.row < rows.len()
            &&& n.start.speed == tempo_at(initial_tempo(m), rows, n.start.row as int).speed
            &&& n.start.wf()
            &&& has_sound(m.samples, n.sample)
        }),
    decreases rows.len(),
{
    if rows.len() > 0 {
        let d = rows.drop_last();
        let p = sim_rows(m, d);
        let t = last_row_time(m, rows);
        assert forall|k: int| 0 <= k < d.len() implies (#[trigger] d[k]).row.len()
            <= m.num_channels by {
            assert(d[k] == rows[k]);
        }
        lemma_sim_wf(m, d);
        assert(rows[rows.len() - 1].row.len() <= m.num_channels);
        lemma_row_grows(p, t, rows.last().row, m.samples);
        let n = sim_rows(m, rows).notes[i];
        if i < p.notes.len() {
            law_notes_lie_on_rows(m, d, i);
            assert(same_trigger(p.notes[i], n));
            assert(d.take(n.start.row + 1) =~= rows.take(n.start.row + 1));
        } else {
            assert(rows.take(n.start.row + 1) =~= rows);
        }
    }
}

/// Ending the song changes when notes are let go of, and nothing else about them.
pub proof fn law_end_keeps_triggers(s: SimView, rows: usize, n: int)
    requires
        s.wf(),
        n <= s.channels.len(),
    ensures
        close_rest(s, rows, n).notes.len() == s.notes.len(),
        forall|i: int|
            0 <= i < s.notes.len() ==> same_trigger(
                #[trigger] s.notes[i],
                close_rest(s, rows, n).notes[i],
            ),
    decreases n,
{
    if n > 0 {
        law_end_keeps_triggers(s, rows, n - 1);
        assert(s.channels[n - 1].wf(s.notes.len()));
        let p = close_rest(s, rows, n - 1);
        let r = close_rest(s, rows, n);
        assert forall|i: int| 0 <= i < s.notes.len() implies same_trigger(
            #[trigger] s.notes[i],
            r.notes[i],
        ) by {
            assert(same_trigger(s.notes[i], p.notes[i]));
        }
    }
}

} // verus!
