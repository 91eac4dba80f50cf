//! A module's note events as a Standard MIDI File, one track per sample.
//!
//! Pitch bends come in as wheel positions: the caller evaluates the pitch curves. Everything
//! else about the file is decided here.
use crate::export::clock::{
    beat_micros, end_units, moment_units, tempo_beat_micros, units_at, units_end, TICK_Q,
};
use crate::export::midi_file::{
    channel_event, file_of, has_status, name_event, tempo_event, track_views, wheel_event,
    EventView, MidiFile, Track,
};
use crate::export::notes::{event_views, NoteEvent, NoteEventView, SongEvents};
use crate::export::simulate::{PanChange, VolumeChange};
use crate::export::tempo::TempoChange;
use crate::export::time::Moment;
use crate::formats::base::{sample_views, Module, ModuleView, Sample, SampleView};
use crate::text::{decimal, push_decimal_padded, trim, trimmed, zero_padded};
use vstd::prelude::*;

verus! {

pub const TICKS_PER_BEAT: u16 = 480;

/// Generous headroom for tracker portamento slides.
pub const PITCH_BEND_RANGE_SEMITONES: u8 = 48;

/// A note of a MIDI track.
#[derive(Debug)]
pub struct MidiNote {
    pub start_tick: u32,
    pub end_tick: u32,
    pub pitch: i32,
    pub velocity: i32,
    /// Tracker volume at the trigger.
    pub trigger_volume: i32,
    /// When, and the position of the pitch wheel.
    pub bends: Vec<(u32, i16)>,
    /// When, and the parameter of the Set Panning effect.
    pub pans: Vec<(u32, u32)>,
    /// When, and the tracker volume.
    pub volumes: Vec<(u32, i32)>,
}

/// What a `MidiNote` holds.
pub struct MidiNoteView {
    pub start_tick: u32,
    pub end_tick: u32,
    pub pitch: i32,
    pub velocity: i32,
    pub trigger_volume: i32,
    pub bends: Seq<(u32, i16)>,
    pub pans: Seq<(u32, u32)>,
    pub volumes: Seq<(u32, i32)>,
}

impl View for MidiNote {
    type V = MidiNoteView;

    open spec fn view(&self) -> MidiNoteView {
        MidiNoteView {
            start_tick: self.start_tick,
            end_tick: self.end_tick,
            pitch: self.pitch,
            velocity: self.velocity,
            trigger_volume: self.trigger_volume,
            bends: self.bends@,
            pans: self.pans@,
            volumes: self.volumes@,
        }
    }
}

/// What the notes hold.
pub open spec fn midi_note_views(notes: Seq<MidiNote>) -> Seq<MidiNoteView> {
    notes.map_values(|n: MidiNote| n@)
}

/// What the lists of notes hold.
pub open spec fn midi_list_views(lists: Seq<Vec<MidiNote>>) -> Seq<Seq<MidiNoteView>> {
    lists.map_values(|l: Vec<MidiNote>| midi_note_views(l@))
}

/// A pan as a controller value, 0 being left, 64 the center and 127 right: the pan
/// `(param - 128) / 127`, kept within -1 and 1, times 63, rounded to the nearest.
pub open spec fn pan_cc(param: u32) -> u8 {
    let pan = if param > 255 {
        127int
    } else if param == 0 {
        -127
    } else {
        param - 128
    };
    (64 + (126 * pan + 127) / 254) as u8
}

/// A volume as a controller value. Expression multiplies the velocity of the note, so the
/// volume is taken relative to that of the note's own trigger, at most 127: it cannot make the
/// note louder than it was triggered.
pub open spec fn expression_cc(volume: i32, trigger: i32) -> u8 {
    let full = if trigger < 1 {
        1int
    } else {
        trigger as int
    };
    let v = if volume < 0 {
        0int
    } else if volume > full {
        full
    } else {
        volume as int
    };
    ((254 * v + full) / (2 * full)) as u8
}

fn pan_cc_value(param: u32) -> (r: u8)
    ensures
        r == pan_cc(param),
{
    let pan: i64 = if param > 255 {
        127
    } else if param == 0 {
        -127
    } else {
        param as i64 - 128
    };
    let shifted: i64 = (126 * pan + 127 + 254 * 127) / 254 - 127;
    (64 + shifted) as u8
}

fn expression_cc_value(tracker_volume: i32, trigger_volume: i32) -> (r: u8)
    ensures
        r == expression_cc(tracker_volume, trigger_volume),
        r <= 127,
{
    let full: i64 = if trigger_volume < 1 {
        1
    } else {
        trigger_volume as i64
    };
    let v: i64 = if tracker_volume < 0 {
        0
    } else if tracker_volume as i64 > full {
        full
    } else {
        tracker_volume as i64
    };
    let scaled: i64 = (254 * v + full) / (2 * full);
    assert(0 <= (254 * v + full) / (2 * full) <= 127) by (nonlinear_arith)
        requires
            0 <= v <= full,
            1 <= full,
    ;
    scaled as u8
}

/// The controller changes that set the range of the pitch bend.
pub open spec fn range_events(tick: u32, semitones: u8) -> Seq<EventView> {
    seq![
        channel_event(tick, 0xB0, 0, 101, 0),
        channel_event(tick, 0xB0, 0, 100, 0),
        channel_event(tick, 0xB0, 0, 6, semitones),
        channel_event(tick, 0xB0, 0, 38, 0),
        channel_event(tick, 0xB0, 0, 101, 127),
        channel_event(tick, 0xB0, 0, 100, 127),
    ]
}

fn pitch_bend_range_rpn(track: &mut Track, tick: u32, semitones: u8)
    ensures
        final(track)@ == old(track)@ + range_events(tick, semitones),
{
    let ghost start = track@;
    // Selects the pitch bend range, sets semitones and cents, and deselects it.
    track.control_change(tick, 0, 101, 0);
    track.control_change(tick, 0, 100, 0);
    track.control_change(tick, 0, 6, semitones);
    track.control_change(tick, 0, 38, 0);
    track.control_change(tick, 0, 101, 127);
    track.control_change(tick, 0, 100, 127);
    assert(track@ =~= start + range_events(tick, semitones));
}

/// Whether a change comes while the note sounds.
pub open spec fn within(n: MidiNoteView, tick: u32) -> bool {
    n.start_tick <= tick <= n.end_tick
}

/// The pitch bends of a note.
pub open spec fn bend_events(n: MidiNoteView, bends: Seq<(u32, i16)>) -> Seq<EventView>
    decreases bends.len(),
{
    if bends.len() == 0 {
        Seq::empty()
    } else {
        let before = bend_events(n, bends.drop_last());
        let (tick, value) = bends.last();
        if within(n, tick) {
            before.push(wheel_event(tick, 0, value))
        } else {
            before
        }
    }
}

/// The pan changes of a note.
pub open spec fn pan_events(n: MidiNoteView, pans: Seq<(u32, u32)>) -> Seq<EventView>
    decreases pans.len(),
{
    if pans.len() == 0 {
        Seq::empty()
    } else {
        let before = pan_events(n, pans.drop_last());
        let (tick, param) = pans.last();
        if within(n, tick) {
            before.push(channel_event(tick, 0xB0, 0, 10, pan_cc(param)))
        } else {
            before
        }
    }
}

/// The volume changes of a note.
pub open spec fn volume_events(n: MidiNoteView, volumes: Seq<(u32, i32)>) -> Seq<EventView>
    decreases volumes.len(),
{
    if volumes.len() == 0 {
        Seq::empty()
    } else {
        let before = volume_events(n, volumes.drop_last());
        let (tick, volume) = volumes.last();
        if within(n, tick) {
            before.push(
                channel_event(tick, 0xB0, 0, 11, expression_cc(volume, n.trigger_volume)),
            )
        } else {
            before
        }
    }
}

/// The low eight bits of a number.
pub open spec fn low_byte(n: i32) -> u8 {
    (n as int % 256) as u8
}

fn byte_of(n: i32) -> (r: u8)
    ensures
        r == low_byte(n),
{
    ((n as i64 + 0x1_0000_0000) % 256) as u8
}

/// How a note begins: the wheel and the controllers are put back before every note, so that
/// nothing leaks from one note into the next.
pub open spec fn start_events(n: MidiNoteView) -> Seq<EventView> {
    seq![
        wheel_event(n.start_tick, 0, 0),
        channel_event(n.start_tick, 0xB0, 0, 10, 64),
        channel_event(n.start_tick, 0xB0, 0, 11, 127),
        channel_event(n.start_tick, 0x90, 0, low_byte(n.pitch), low_byte(n.velocity)),
    ]
}

/// How a note ends: what it changed is put back.
pub open spec fn end_events(n: MidiNoteView) -> Seq<EventView> {
    let off = seq![channel_event(n.end_tick, 0x80, 0, low_byte(n.pitch), 0)];
    let wheel = if n.bends.len() > 0 {
        seq![wheel_event(n.end_tick, 0, 0)]
    } else {
        Seq::empty()
    };
    let pan = if n.pans.len() > 0 {
        seq![channel_event(n.end_tick, 0xB0, 0, 10, 64)]
    } else {
        Seq::empty()
    };
    let volume = if n.volumes.len() > 0 {
        seq![channel_event(n.end_tick, 0xB0, 0, 11, 127)]
    } else {
        Seq::empty()
    };
    off + wheel + pan + volume
}

/// The events of a note.
pub open spec fn note_events(n: MidiNoteView) -> Seq<EventView> {
    start_events(n) + bend_events(n, n.bends) + pan_events(n, n.pans) + volume_events(
        n,
        n.volumes,
    ) + end_events(n)
}

/// The events of several notes.
pub open spec fn notes_events(notes: Seq<MidiNoteView>) -> Seq<EventView>
    decreases notes.len(),
{
    if notes.len() == 0 {
        Seq::empty()
    } else {
        notes_events(notes.drop_last()) + note_events(notes.last())
    }
}

/// A key is pressed.
pub open spec fn is_note_on(e: EventView) -> bool {
    e.1[0] == 0x90
}

/// The three events before the one at `i` put the wheel and the controllers back, at `tick`.
pub open spec fn put_back_before(events: Seq<EventView>, i: int, tick: u32) -> bool {
    &&& i >= 3
    &&& events[i - 3] == wheel_event(tick, 0, 0)
    &&& events[i - 2] == channel_event(tick, 0xB0, 0, 10, 64)
    &&& events[i - 1] == channel_event(tick, 0xB0, 0, 11, 127)
}

/// None of the events presses a key, and all of them come while the note sounds.
spec fn only_changes(n: MidiNoteView, events: Seq<EventView>) -> bool {
    forall|i: int|
        0 <= i < events.len() ==> !is_note_on(#[trigger] events[i]) && within(n, events[i].0)
}

proof fn lemma_only_changes(
    n: MidiNoteView,
    bends: Seq<(u32, i16)>,
    pans: Seq<(u32, u32)>,
    volumes: Seq<(u32, i32)>,
)
    ensures
        only_changes(n, bend_events(n, bends)),
        only_changes(n, pan_events(n, pans)),
        only_changes(n, volume_events(n, volumes)),
    decreases bends.len() + pans.len() + volumes.len(),
{
    if bends.len() > 0 {
        lemma_only_changes(n, bends.drop_last(), pans, volumes);
    }
    if pans.len() > 0 {
        lemma_only_changes(n, bends, pans.drop_last(), volumes);
    }
    if volumes.len() > 0 {
        lemma_only_changes(n, bends, pans, volumes.drop_last());
    }
}

/// Everything about a note comes from its first to its last tick, and its key is pressed once.
pub proof fn law_notes_keep_to_their_span(n: MidiNoteView, i: int)
    requires
        n.start_tick <= n.end_tick,
        0 <= i < note_events(n).len(),
    ensures
        n.start_tick <= note_events(n)[i].0 <= n.end_tick,
        is_note_on(note_events(n)[i]) <==> i == 3,
{
    lemma_only_changes(n, n.bends, n.pans, n.volumes);
    let a = start_events(n);
    let b = bend_events(n, n.bends);
    let c = pan_events(n, n.pans);
    let d = volume_events(n, n.volumes);
    let e = end_events(n);
    let all = note_events(n);
    if i < a.len() {
        assert(all[i] == a[i]);
    } else if i < a.len() + b.len() {
        assert(all[i] == b[i - a.len()]);
    } else if i < a.len() + b.len() + c.len() {
        assert(all[i] == c[i - a.len() - b.len()]);
    } else if i < a.len() + b.len() + c.len() + d.len() {
        assert(all[i] == d[i - a.len() - b.len() - c.len()]);
    } else {
        assert(all[i] == e[i - a.len() - b.len() - c.len() - d.len()]);
    }
}

/// Before every note the wheel and the controllers are put back, so that nothing leaks from
/// one note into the next.
pub proof fn law_notes_start_afresh(notes: Seq<MidiNoteView>, i: int)
    requires
        forall|k: int|
            0 <= k < notes.len() ==> (#[trigger] notes[k]).start_tick <= notes[k].end_tick,
        0 <= i < notes_events(notes).len(),
        is_note_on(notes_events(notes)[i]),
    ensures
        put_back_before(notes_events(notes), i, notes_events(notes)[i].0),
    decreases notes.len(),
{
    if notes.len() > 0 {
        let before = notes_events(notes.drop_last());
        let last = notes.last();
        assert(last == notes[notes.len() - 1]);
        if i < before.len() {
            assert(notes_events(notes)[i] == before[i]);
            assert forall|k: int| 0 <= k < notes.len() - 1 implies (
            #[trigger] notes.drop_last()[k]).start_tick <= notes.drop_last()[k].end_tick by {
                assert(notes.drop_last()[k] == notes[k]);
            }
            law_notes_start_afresh(notes.drop_last(), i);
        } else {
            assert(notes_events(notes)[i] == note_events(last)[i - before.len()]);
            law_notes_keep_to_their_span(last, i - before.len());
            let a = start_events(last);
            assert(forall|j: int| 0 <= j < 4 ==> note_events(last)[j] == a[j]);
            assert(notes_events(notes)[i - 3] == note_events(last)[0]);
            assert(notes_events(notes)[i - 2] == note_events(last)[1]);
            assert(notes_events(notes)[i - 1] == note_events(last)[2]);
        }
    }
}

/// The name of a sample's track.
pub open spec fn track_title(s: SampleView) -> Seq<char> {
    trimmed(zero_padded(decimal(s.index as int), 2) + " "@ + s.name)
}

/// The track of a sample.
pub open spec fn sample_track(s: SampleView, notes: Seq<MidiNoteView>) -> Seq<EventView> {
    seq![name_event(track_title(s))] + range_events(0, PITCH_BEND_RANGE_SEMITONES)
        + notes_events(notes)
}

/// The tempo changes of the first track.
pub open spec fn tempo_events(tempo: Seq<(u32, u32)>) -> Seq<EventView>
    decreases tempo.len(),
{
    if tempo.len() == 0 {
        Seq::empty()
    } else {
        tempo_events(tempo.drop_last()).push(tempo_event(tempo.last().0, tempo.last().1))
    }
}

/// The first track: the title and the tempo.
pub open spec fn conductor(title: Seq<char>, tempo: Seq<(u32, u32)>) -> Seq<EventView> {
    seq![name_event(title)] + tempo_events(tempo)
}

/// The tracks of the samples that have sound, in order.
pub open spec fn sample_tracks(
    samples: Seq<SampleView>,
    notes: Seq<Seq<MidiNoteView>>,
    k: int,
) -> Seq<Seq<EventView>>
    decreases k,
{
    if k <= 0 {
        Seq::empty()
    } else {
        let before = sample_tracks(samples, notes, k - 1);
        if samples[k - 1].is_empty() {
            before
        } else {
            before.push(sample_track(samples[k - 1], notes[k - 1]))
        }
    }
}

/// The tracks of the file.
pub open spec fn song_tracks(
    m: ModuleView,
    tempo: Seq<(u32, u32)>,
    notes: Seq<Seq<MidiNoteView>>,
) -> Seq<Seq<EventView>> {
    seq![conductor(m.title, tempo)] + sample_tracks(m.samples, notes, m.samples.len() as int)
}

proof fn lemma_note_status(n: MidiNoteView)
    ensures
        has_status(note_events(n)),
{
    lemma_bend_status(n, n.bends);
    lemma_pan_status(n, n.pans);
    lemma_volume_status(n, n.volumes);
    assert(has_status(start_events(n)));
    assert(has_status(end_events(n)));
}

proof fn lemma_bend_status(n: MidiNoteView, bends: Seq<(u32, i16)>)
    ensures
        has_status(bend_events(n, bends)),
    decreases bends.len(),
{
    if bends.len() > 0 {
        lemma_bend_status(n, bends.drop_last());
    }
}

proof fn lemma_pan_status(n: MidiNoteView, pans: Seq<(u32, u32)>)
    ensures
        has_status(pan_events(n, pans)),
    decreases pans.len(),
{
    if pans.len() > 0 {
        lemma_pan_status(n, pans.drop_last());
    }
}

proof fn lemma_volume_status(n: MidiNoteView, volumes: Seq<(u32, i32)>)
    ensures
        has_status(volume_events(n, volumes)),
    decreases volumes.len(),
{
    if volumes.len() > 0 {
        lemma_volume_status(n, volumes.drop_last());
    }
}

proof fn lemma_notes_status(notes: Seq<MidiNoteView>)
    ensures
        has_status(notes_events(notes)),
    decreases notes.len(),
{
    if notes.len() > 0 {
        lemma_notes_status(notes.drop_last());
        lemma_note_status(notes.last());
    }
}

proof fn lemma_tempo_status(tempo: Seq<(u32, u32)>)
    ensures
        has_status(tempo_events(tempo)),
    decreases tempo.len(),
{
    if tempo.len() > 0 {
        lemma_tempo_status(tempo.drop_last());
    }
}

fn write_bends(track: &mut Track, note: &MidiNote)
    ensures
        final(track)@ == old(track)@ + bend_events(note@, note.bends@),
{
    let ghost start = track@;
    let mut i: usize = 0;
    assert(note.bends@.take(0) =~= Seq::<(u32, i16)>::empty());
    assert(track@ =~= start + bend_events(note@, note.bends@.take(0)));
    while i < note.bends.len()
        invariant
            i <= note.bends.len(),
            track@ == start + bend_events(note@, note.bends@.take(i as int)),
        decreases note.bends.len() - i,
    {
        let (tick, value) = note.bends[i];
        proof {
            assert(note.bends@.take(i + 1).drop_last() =~= note.bends@.take(i as int));
            assert(note.bends@.take(i + 1).last() == note.bends[i as int]);
        }
        if note.start_tick <= tick && tick <= note.end_tick {
            track.pitchwheel(tick, 0, value);
        }
        i += 1;
        assert(track@ =~= start + bend_events(note@, note.bends@.take(i as int)));
    }
    assert(note.bends@.take(i as int) =~= note.bends@);
}

fn write_pans(track: &mut Track, note: &MidiNote)
    ensures
        final(track)@ == old(track)@ + pan_events(note@, note.pans@),
{
    let ghost start = track@;
    let mut i: usize = 0;
    assert(note.pans@.take(0) =~= Seq::<(u32, u32)>::empty());
    assert(track@ =~= start + pan_events(note@, note.pans@.take(0)));
    while i < note.pans.len()
        invariant
            i <= note.pans.len(),
            track@ == start + pan_events(note@, note.pans@.take(i as int)),
        decreases note.pans.len() - i,
    {
        let (tick, param) = note.pans[i];
        proof {
            assert(note.pans@.take(i + 1).drop_last() =~= note.pans@.take(i as int));
            assert(note.pans@.take(i + 1).last() == note.pans[i as int]);
        }
        if note.start_tick <= tick && tick <= note.end_tick {
            track.control_change(tick, 0, 10, pan_cc_value(param));
        }
        i += 1;
        assert(track@ =~= start + pan_events(note@, note.pans@.take(i as int)));
    }
    assert(note.pans@.take(i as int) =~= note.pans@);
}

fn write_volumes(track: &mut Track, note: &MidiNote)
    ensures
        final(track)@ == old(track)@ + volume_events(note@, note.volumes@),
{
    let ghost start = track@;
    let mut i: usize = 0;
    assert(note.volumes@.take(0) =~= Seq::<(u32, i32)>::empty());
    assert(track@ =~= start + volume_events(note@, note.volumes@.take(0)));
    while i < note.volumes.len()
        invariant
            i <= note.volumes.len(),
            track@ == start + volume_events(note@, note.volumes@.take(i as int)),
        decreases note.volumes.len() - i,
    {
        let (tick, volume) = note.volumes[i];
        proof {
            assert(note.volumes@.take(i + 1).drop_last() =~= note.volumes@.take(i as int));
            assert(note.volumes@.take(i + 1).last() == note.volumes[i as int]);
        }
        if note.start_tick <= tick && tick <= note.end_tick {
            track.control_change(tick, 0, 11, expression_cc_value(volume, note.trigger_volume));
        }
        i += 1;
        assert(track@ =~= start + volume_events(note@, note.volumes@.take(i as int)));
    }
    assert(note.volumes@.take(i as int) =~= note.volumes@);
}

fn write_note(track: &mut Track, note: &MidiNote)
    ensures
        final(track)@ == old(track)@ + note_events(note@),
{
    let ghost start = track@;
    track.pitchwheel(note.start_tick, 0, 0);
    track.control_change(note.start_tick, 0, 10, 64);
    track.control_change(note.start_tick, 0, 11, 127);
    track.note_on(note.start_tick, 0, byte_of(note.pitch), byte_of(note.velocity));
    assert(track@ =~= start + start_events(note@));
    write_bends(track, note);
    write_pans(track, note);
    write_volumes(track, note);
    let ghost middle = track@;
    track.note_off(note.end_tick, 0, byte_of(note.pitch), 0);
    if note.bends.len() > 0 {
        track.pitchwheel(note.end_tick, 0, 0);
    }
    if note.pans.len() > 0 {
        track.control_change(note.end_tick, 0, 10, 64);
    }
    if note.volumes.len() > 0 {
        track.control_change(note.end_tick, 0, 11, 127);
    }
    assert(track@ =~= middle + end_events(note@));
    assert(track@ =~= start + note_events(note@));
}

fn sample_track_of(sample: &Sample, notes: &Vec<MidiNote>) -> (r: Track)
    ensures
        r@ == sample_track(sample@, midi_note_views(notes@)),
        has_status(r@),
{
    let mut name: String = String::new();
    push_decimal_padded(&mut name, sample.index as u64, 2);
    name.append(" ");
    name.append(sample.name.as_str());
    assert(name@ =~= zero_padded(decimal(sample.index as int), 2) + " "@ + sample.name@);
    let title: String = trim(name.as_str());
    let mut track: Track = Track::default();
    track.track_name(title.as_str());
    pitch_bend_range_rpn(&mut track, 0, PITCH_BEND_RANGE_SEMITONES);
    let ghost head = track@;
    assert(head =~= seq![name_event(track_title(sample@))] + range_events(
        0,
        PITCH_BEND_RANGE_SEMITONES,
    ));
    let ghost views = midi_note_views(notes@);
    let mut i: usize = 0;
    assert(views.take(0) =~= Seq::<MidiNoteView>::empty());
    assert(head + notes_events(views.take(0)) =~= head);
    while i < notes.len()
        invariant
            i <= notes.len(),
            views == midi_note_views(notes@),
            track@ == head + notes_events(views.take(i as int)),
        decreases notes.len() - i,
    {
        proof {
            assert(views.take(i + 1).drop_last() =~= views.take(i as int));
            assert(views.take(i + 1).last() == notes[i as int]@);
        }
        write_note(&mut track, &notes[i]);
        i += 1;
        assert(track@ =~= head + notes_events(views.take(i as int)));
    }
    proof {
        assert(views.take(i as int) =~= views);
        lemma_notes_status(views);
        assert(has_status(head));
    }
    track
}

/// The file of a song whose times are MIDI ticks: the conductor track with title and tempo,
/// then a track for each sample that has sound. `tempo` holds the tempo changes as tick and
/// microseconds per beat, `notes` the notes of each sample.
pub fn write_notes(module: &Module, tempo: &Vec<(u32, u32)>, notes: &Vec<Vec<MidiNote>>) -> (r:
    Vec<u8>)
    requires
        notes.len() == module.samples.len(),
    ensures
        r@ == file_of(
            TICKS_PER_BEAT,
            song_tracks(module@, tempo@, midi_list_views(notes@)),
        ),
{
    let ghost lists = midi_list_views(notes@);
    let ghost samples = sample_views(module.samples@);
    let mut first: Track = Track::default();
    first.track_name(module.title.as_str());
    let ghost head = first@;
    assert(head =~= seq![name_event(module.title@)]);
    let mut i: usize = 0;
    assert(tempo@.take(0) =~= Seq::<(u32, u32)>::empty());
    assert(head + tempo_events(tempo@.take(0)) =~= head);
    while i < tempo.len()
        invariant
            i <= tempo.len(),
            first@ == head + tempo_events(tempo@.take(i as int)),
        decreases tempo.len() - i,
    {
        let (tick, per_beat) = tempo[i];
        proof {
            assert(tempo@.take(i + 1).drop_last() =~= tempo@.take(i as int));
            assert(tempo@.take(i + 1).last() == tempo[i as int]);
        }
        first.set_tempo(tick, per_beat);
        i += 1;
        assert(first@ =~= head + tempo_events(tempo@.take(i as int)));
    }
    proof {
        assert(tempo@.take(i as int) =~= tempo@);
        lemma_tempo_status(tempo@);
        assert(has_status(head));
        assert(has_status(first@));
    }
    let mut file: MidiFile = MidiFile::new(TICKS_PER_BEAT);
    let ghost start = seq![conductor(module.title@, tempo@)];
    file.tracks.push(first);
    assert(track_views(file.tracks@) =~= start);
    let mut k: usize = 0;
    assert(start + sample_tracks(samples, lists, 0) =~= start);
    while k < module.samples.len()
        invariant
            k <= module.samples.len(),
            notes.len() == module.samples.len(),
            lists == midi_list_views(notes@),
            samples == sample_views(module.samples@),
            file.ticks_per_beat == TICKS_PER_BEAT,
            track_views(file.tracks@) == start + sample_tracks(samples, lists, k as int),
            forall|i: int|
                0 <= i < file.tracks.len() ==> has_status((#[trigger] file.tracks[i])@),
        decreases module.samples.len() - k,
    {
        let sample: &Sample = &module.samples[k];
        assert(samples[k as int] == sample@);
        assert(lists[k as int] == midi_note_views(notes[k as int]@));
        if !sample.is_empty() {
            let track: Track = sample_track_of(sample, &notes[k]);
            let ghost before = file.tracks@;
            file.tracks.push(track);
            assert(track_views(file.tracks@) =~= track_views(before).push(track@));
        }
        k += 1;
        assert(track_views(file.tracks@) =~= start + sample_tracks(samples, lists, k as int));
    }
    file.to_bytes()
}

/// A time in ticks, as far as it fits 32 bits.
pub open spec fn tick_value(units: int) -> u32 {
    if units < 0 {
        0
    } else if units > u32::MAX {
        u32::MAX
    } else {
        units as u32
    }
}

fn to_tick(units: i128) -> (r: u32)
    ensures
        r == tick_value(units as int),
{
    if units < 0 {
        0
    } else if units > u32::MAX as i128 {
        u32::MAX
    } else {
        units as u32
    }
}

/// The tick of a moment.
pub open spec fn tick_at(m: Moment) -> u32 {
    tick_value(units_at(m, TICK_Q as int))
}

fn tick_of(m: &Moment) -> (r: u32)
    ensures
        r == tick_at(*m),
{
    to_tick(moment_units(m, TICK_Q))
}

/// A note event as a note of a MIDI track. `wheels` holds the wheel position of each bend.
pub open spec fn midi_note_of(e: NoteEventView, wheels: Seq<i16>) -> MidiNoteView {
    MidiNoteView {
        start_tick: tick_at(e.note.start),
        end_tick: tick_value(units_end(e.note, e.next_start, TICK_Q as int)),
        pitch: e.note.pitch,
        velocity: e.note.velocity,
        trigger_volume: e.note.trigger_volume,
        bends: Seq::new(e.bends.len(), |i: int| (tick_at(e.bends[i].at), wheels[i])),
        pans: e.pans.map_values(|p: PanChange| (tick_at(p.at), p.param)),
        volumes: e.volumes.map_values(|v: VolumeChange| (tick_at(v.at), v.tracker_volume)),
    }
}

/// The note events of a sample as notes of a MIDI track.
pub open spec fn midi_notes_of(events: Seq<NoteEventView>, wheels: Seq<Seq<i16>>) -> Seq<
    MidiNoteView,
> {
    Seq::new(events.len(), |i: int| midi_note_of(events[i], wheels[i]))
}

/// The positions in the given lists.
pub open spec fn wheel_views(wheels: Seq<Vec<i16>>) -> Seq<Seq<i16>> {
    wheels.map_values(|w: Vec<i16>| w@)
}

/// A position for every bend of every note.
pub open spec fn wheels_fit(events: Seq<NoteEventView>, wheels: Seq<Seq<i16>>) -> bool {
    &&& wheels.len() == events.len()
    &&& forall|i: int|
        0 <= i < events.len() ==> (#[trigger] wheels[i]).len() == events[i].bends.len()
}

fn midi_note(event: &NoteEvent, wheels: &Vec<i16>) -> (r: MidiNote)
    requires
        wheels.len() == event.bends.len(),
    ensures
        r@ == midi_note_of(event@, wheels@),
{
    let ghost whole = midi_note_of(event@, wheels@);
    let mut bends: Vec<(u32, i16)> = Vec::new();
    let mut i: usize = 0;
    while i < event.bends.len()
        invariant
            i <= event.bends.len(),
            wheels.len() == event.bends.len(),
            whole == midi_note_of(event@, wheels@),
            bends@ == whole.bends.take(i as int),
        decreases event.bends.len() - i,
    {
        bends.push((tick_of(&event.bends[i].at), wheels[i]));
        i += 1;
        assert(bends@ =~= whole.bends.take(i as int));
    }
    assert(bends@ =~= whole.bends);
    let mut pans: Vec<(u32, u32)> = Vec::new();
    let mut j: usize = 0;
    while j < event.pans.len()
        invariant
            j <= event.pans.len(),
            whole == midi_note_of(event@, wheels@),
            pans@ == whole.pans.take(j as int),
        decreases event.pans.len() - j,
    {
        let p: PanChange = event.pans[j];
        pans.push((tick_of(&p.at), p.param));
        j += 1;
        assert(pans@ =~= whole.pans.take(j as int));
    }
    assert(pans@ =~= whole.pans);
    let mut volumes: Vec<(u32, i32)> = Vec::new();
    let mut k: usize = 0;
    while k < event.volumes.len()
        invariant
            k <= event.volumes.len(),
            whole == midi_note_of(event@, wheels@),
            volumes@ == whole.volumes.take(k as int),
        decreases event.volumes.len() - k,
    {
        let v: VolumeChange = event.volumes[k];
        volumes.push((tick_of(&v.at), v.tracker_volume));
        k += 1;
        assert(volumes@ =~= whole.volumes.take(k as int));
    }
    assert(volumes@ =~= whole.volumes);
    MidiNote {
        start_tick: tick_of(&event.note.start),
        end_tick: to_tick(end_units(&event.note, &event.next_start, TICK_Q)),
        pitch: event.note.pitch,
        velocity: event.note.velocity,
        trigger_volume: event.note.trigger_volume,
        bends,
        pans,
        volumes,
    }
}

fn midi_notes(events: &Vec<NoteEvent>, wheels: &Vec<Vec<i16>>) -> (r: Vec<MidiNote>)
    requires
        wheels_fit(event_views(events@), wheel_views(wheels@)),
    ensures
        midi_note_views(r@) == midi_notes_of(event_views(events@), wheel_views(wheels@)),
{
    let ghost views = event_views(events@);
    let ghost positions = wheel_views(wheels@);
    let ghost whole = midi_notes_of(views, positions);
    let mut out: Vec<MidiNote> = Vec::new();
    let mut i: usize = 0;
    assert(midi_note_views(out@) =~= whole.take(0));
    while i < events.len()
        invariant
            i <= events.len(),
            views == event_views(events@),
            positions == wheel_views(wheels@),
            wheels_fit(views, positions),
            whole == midi_notes_of(views, positions),
            midi_note_views(out@) == whole.take(i as int),
        decreases events.len() - i,
    {
        assert(positions[i as int].len() == views[i as int].bends.len());
        assert(positions[i as int] == wheels[i as int]@);
        assert(views[i as int] == events[i as int]@);
        let note: MidiNote = midi_note(&events[i], &wheels[i]);
        proof {
            assert(midi_note_views(out@.push(note)) =~= midi_note_views(out@).push(note@));
            assert(whole.take(i + 1) =~= whole.take(i as int).push(note@));
        }
        out.push(note);
        i += 1;
    }
    assert(whole.take(i as int) =~= whole);
    out
}

/// The tempo changes of a song as tick and microseconds per beat.
pub open spec fn tempo_ticks(changes: Seq<TempoChange>) -> Seq<(u32, u32)> {
    changes.map_values(
        |c: TempoChange|
            (
                tick_value(units_at(Moment { row: c.row, tick: 0, speed: 1 }, TICK_Q as int)),
                beat_micros(c.tempo),
            ),
    )
}

fn tempo_in_ticks(changes: &Vec<TempoChange>) -> (r: Vec<(u32, u32)>)
    ensures
        r@ == tempo_ticks(changes@),
{
    let mut out: Vec<(u32, u32)> = Vec::new();
    let mut i: usize = 0;
    while i < changes.len()
        invariant
            i <= changes.len(),
            out@ == tempo_ticks(changes@).take(i as int),
        decreases changes.len() - i,
    {
        let c: TempoChange = changes[i];
        let at = Moment { row: c.row, tick: 0, speed: 1 };
        out.push((tick_of(&at), tempo_beat_micros(&c.tempo)));
        i += 1;
        assert(out@ =~= tempo_ticks(changes@).take(i as int));
    }
    assert(out@ =~= tempo_ticks(changes@));
    out
}

/// The positions in the given lists.
pub open spec fn song_wheel_views(wheels: Seq<Vec<Vec<i16>>>) -> Seq<Seq<Seq<i16>>> {
    wheels.map_values(|w: Vec<Vec<i16>>| wheel_views(w@))
}

/// The MIDI notes of each sample of the module.
pub open spec fn song_midi_notes(
    m: ModuleView,
    song: SongEvents,
    wheels: Seq<Seq<Seq<i16>>>,
) -> Seq<Seq<MidiNoteView>> {
    Seq::new(
        m.samples.len(),
        |i: int| midi_notes_of(song.notes_for(m.samples[i].index), wheels[i]),
    )
}

/// A wheel position for every bend of every note of every sample of the module.
pub open spec fn song_wheels_fit(
    m: ModuleView,
    song: SongEvents,
    wheels: Seq<Seq<Seq<i16>>>,
) -> bool {
    &&& wheels.len() == m.samples.len()
    &&& forall|i: int|
        0 <= i < m.samples.len() ==> wheels_fit(
            song.notes_for(m.samples[i].index),
            #[trigger] wheels[i],
        )
}

/// The MIDI file of a song. `wheels` holds, for each sample of the module, the wheel position
/// of each bend of each of its notes.
pub fn write_midi(module: &Module, song: &SongEvents, wheels: &Vec<Vec<Vec<i16>>>) -> (r: Vec<u8>)
    requires
        song_wheels_fit(module@, *song, song_wheel_views(wheels@)),
    ensures
        r@ == file_of(
            TICKS_PER_BEAT,
            song_tracks(
                module@,
                tempo_ticks(song.tempo_changes@),
                song_midi_notes(module@, *song, song_wheel_views(wheels@)),
            ),
        ),
{
    let ghost positions = song_wheel_views(wheels@);
    let ghost whole = song_midi_notes(module@, *song, positions);
    let mut lists: Vec<Vec<MidiNote>> = Vec::new();
    let mut i: usize = 0;
    assert(midi_list_views(lists@) =~= whole.take(0));
    while i < module.samples.len()
        invariant
            i <= module.samples.len(),
            positions == song_wheel_views(wheels@),
            song_wheels_fit(module@, *song, positions),
            whole == song_midi_notes(module@, *song, positions),
            midi_list_views(lists@) == whole.take(i as int),
        decreases module.samples.len() - i,
    {
        let index: u32 = module.samples[i].index;
        proof {
            assert(module@.samples[i as int] == module.samples[i as int]@);
            assert(positions[i as int] == wheel_views(wheels[i as int]@));
            assert(wheels_fit(song.notes_for(index), positions[i as int]));
        }
        let list: Vec<MidiNote> = match song.notes_of(index) {
            Some(events) => midi_notes(events, &wheels[i]),
            None => Vec::new(),
        };
        proof {
            assert(midi_note_views(list@) =~= whole[i as int]);
            assert(midi_list_views(lists@.push(list)) =~= midi_list_views(lists@).push(
                midi_note_views(list@),
            ));
            assert(whole.take(i + 1) =~= whole.take(i as int).push(whole[i as int]));
        }
        lists.push(list);
        i += 1;
    }
    assert(whole.take(i as int) =~= whole);
    let tempo: Vec<(u32, u32)> = tempo_in_ticks(&song.tempo_changes);
    write_notes(module, &tempo, &lists)
}

} // verus!
