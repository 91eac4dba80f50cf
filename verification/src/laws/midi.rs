//! What the MIDI file of a song says.
use crate::export::clock::{
    beat_micros, is_instant, law_nearest_is_near, nearest, parts, units_at, units_just_before,
    TICK_Q,
};
use crate::export::midi::{
    bend_events, end_events, expression_cc, midi_note_of, note_events, notes_events, pan_cc,
    pan_events, range_events, sample_track, sample_tracks, song_tracks, start_events, tempo_events,
    tempo_ticks, tick_at, volume_events, within, MidiNoteView, TICKS_PER_BEAT,
};
use crate::export::midi_file::{
    channel_event, event_bytes, file_of, law_vlq_reads_back, name_event, read_vlq, tempo_event,
    track_chunk, track_chunks, wheel_event, EventView,
};
use crate::export::notes::NoteEventView;
use crate::export::pitch::wheel_at;
use crate::export::tempo::{Tempo, TempoChange};
use crate::export::time::Moment;
use crate::formats::base::{ModuleView, SampleView};
use vstd::prelude::*;

verus! {

/// The three bytes are told at a tick.
pub open spec fn told(events: Seq<EventView>, tick: u32, a: u8, b: u8, c: u8) -> bool {
    events.contains((tick, seq![a, b, c]))
}

proof fn lemma_in_parts(a: Seq<EventView>, b: Seq<EventView>, e: EventView)
    requires
        a.contains(e) || b.contains(e),
    ensures
        (a + b).contains(e),
{
    if a.contains(e) {
        let i = choose|i: int| 0 <= i < a.len() && a[i] == e;
        assert((a + b)[i] == e);
    } else {
        let i = choose|i: int| 0 <= i < b.len() && b[i] == e;
        assert((a + b)[a.len() + i] == e);
    }
}

proof fn lemma_note_parts(n: MidiNoteView, e: EventView)
    requires
        start_events(n).contains(e) || bend_events(n, n.bends).contains(e) || pan_events(
            n,
            n.pans,
        ).contains(e) || volume_events(n, n.volumes).contains(e) || end_events(n).contains(e),
    ensures
        note_events(n).contains(e),
{
    let s = start_events(n);
    let b = bend_events(n, n.bends);
    let p = pan_events(n, n.pans);
    let v = volume_events(n, n.volumes);
    let x = end_events(n);
    if s.contains(e) || b.contains(e) {
        lemma_in_parts(s, b, e);
    }
    if (s + b).contains(e) || p.contains(e) {
        lemma_in_parts(s + b, p, e);
    }
    if (s + b + p).contains(e) || v.contains(e) {
        lemma_in_parts(s + b + p, v, e);
    }
    lemma_in_parts(s + b + p + v, x, e);
}

proof fn lemma_pan_told(n: MidiNoteView, pans: Seq<(u32, u32)>, i: int)
    requires
        0 <= i < pans.len(),
        n.start_tick <= pans[i].0 <= n.end_tick,
    ensures
        told(pan_events(n, pans), pans[i].0, 0xB0, 10, pan_cc(pans[i].1)),
    decreases pans.len(),
{
    let before = pan_events(n, pans.drop_last());
    let all = pan_events(n, pans);
    lemma_cc_fits(pans[i].1);
    let e = (pans[i].0, seq![0xB0u8, 10, pan_cc(pans[i].1)]);
    if i < pans.len() - 1 {
        lemma_pan_told(n, pans.drop_last(), i);
        let j = choose|j: int| 0 <= j < before.len() && before[j] == e;
        assert(all[j] == e);
    } else {
        assert(channel_event(pans[i].0, 0xB0, 0, 10, pan_cc(pans[i].1)) == e);
        assert(all.last() == e);
        assert(all[all.len() - 1] == e);
    }
}

proof fn lemma_cc_fits(param: u32)
    ensures
        1 <= pan_cc(param) <= 127,
{
}

/// Panning goes from left to right as its parameter rises, and nowhere back: the controller of
/// the panorama is 1 for 0, 64 for 128, which is the center, and 127 for 255; and each step of it
/// is two of the parameter, or nearly so.
pub proof fn law_panning_goes_from_left_to_right(p: u32, q: u32)
    requires
        p <= q,
    ensures
        pan_cc(p) <= pan_cc(q),
        pan_cc(0) == 1,
        pan_cc(128) == 64,
        pan_cc(255) == 127,
        0 < p < 256 ==> -1 <= 2 * (pan_cc(p) - 64) - (p - 128) <= 1,
        p >= 256 ==> pan_cc(p) == 127,
{
}

/// Every panning of a note within its span is told when it happens, as controller 10 on the first
/// channel: 64 is the center, less is to the left and more to the right.
pub proof fn law_panning_is_told(e: NoteEventView, wheels: Seq<i16>, i: int)
    requires
        0 <= i < e.pans.len(),
        midi_note_of(e, wheels).start_tick <= tick_at(e.pans[i].at) <= midi_note_of(
            e,
            wheels,
        ).end_tick,
    ensures
        exists|v: u8| #[trigger]
            told(note_events(midi_note_of(e, wheels)), tick_at(e.pans[i].at), 0xB0, 10, v) && ({
                let param = e.pans[i].param;
                &&& param == 0 ==> v == 1
                &&& param == 128 ==> v == 64
                &&& param >= 255 ==> v == 127
                &&& param < 128 ==> 1 <= v <= 64
                &&& param > 128 ==> 64 <= v <= 127
                &&& 0 < param < 256 ==> -1 <= 2 * (v - 64) - (param - 128) <= 1
            }),
{
    let n = midi_note_of(e, wheels);
    let param = e.pans[i].param;
    let at = tick_at(e.pans[i].at);
    assert(n.pans[i] == (at, param));
    lemma_pan_told(n, n.pans, i);
    let v = pan_cc(param);
    law_panning_goes_from_left_to_right(param, param);
    lemma_note_parts(n, (at, seq![0xB0u8, 10, v]));
    assert(told(note_events(n), at, 0xB0, 10, v));
}

proof fn lemma_volume_told(n: MidiNoteView, volumes: Seq<(u32, i32)>, i: int)
    requires
        0 <= i < volumes.len(),
        n.start_tick <= volumes[i].0 <= n.end_tick,
    ensures
        told(
            volume_events(n, volumes),
            volumes[i].0,
            0xB0,
            11,
            expression_cc(volumes[i].1, n.trigger_volume),
        ),
    decreases volumes.len(),
{
    let before = volume_events(n, volumes.drop_last());
    let all = volume_events(n, volumes);
    let v = expression_cc(volumes[i].1, n.trigger_volume);
    law_expression_is_the_share_of_the_volume(volumes[i].1, n.trigger_volume);
    let e = (volumes[i].0, seq![0xB0u8, 11, v]);
    if i < volumes.len() - 1 {
        lemma_volume_told(n, volumes.drop_last(), i);
        let j = choose|j: int| 0 <= j < before.len() && before[j] == e;
        assert(all[j] == e);
    } else {
        assert(channel_event(volumes[i].0, 0xB0, 0, 11, v) == e);
        assert(all.last() == e);
        assert(all[all.len() - 1] == e);
    }
}

/// The expression of a note is the share that its volume has of the one it was triggered with: 0
/// for silence, 127 for the volume of the trigger and all above it, and the nearest share in
/// between.
pub proof fn law_expression_is_the_share_of_the_volume(volume: i32, trigger: i32)
    ensures
        expression_cc(volume, trigger) <= 127,
        volume <= 0 ==> expression_cc(volume, trigger) == 0,
        volume >= trigger && volume >= 1 ==> expression_cc(volume, trigger) == 127,
        0 <= volume <= trigger
            ==> -(trigger as int) <= 2 * (trigger * expression_cc(volume, trigger)
            - 127 * volume) <= trigger,
{
    let full = if trigger < 1 {
        1int
    } else {
        trigger as int
    };
    let v = if volume < 0 {
        0int
    } else if volume > full {
        full
    } else {
        volume as int
    };
    let q = (254 * v + full) / (2 * full);
    assert(0 <= q <= 127 && -full <= 2 * (full * q - 127 * v) <= full) by (nonlinear_arith)
        requires
            q == (254 * v + full) / (2 * full),
            0 <= v <= full,
            1 <= full,
    ;
    assert(v == 0 ==> q == 0) by (nonlinear_arith)
        requires
            q == (254 * v + full) / (2 * full),
            1 <= full,
    ;
    assert(v == full ==> q == 127) by (nonlinear_arith)
        requires
            q == (254 * v + full) / (2 * full),
            1 <= full,
    ;
    if 0 <= volume <= trigger {
        if trigger == 0 {
            assert(trigger * expression_cc(volume, trigger) == 0) by (nonlinear_arith)
                requires
                    trigger == 0,
            ;
        }
    }
}

/// Every change of a note's volume within its span is told when it happens, as controller 11: the
/// share that it has of the volume that the note was triggered with.
pub proof fn law_volumes_are_told(e: NoteEventView, wheels: Seq<i16>, i: int)
    requires
        0 <= i < e.volumes.len(),
        midi_note_of(e, wheels).start_tick <= tick_at(e.volumes[i].at) <= midi_note_of(
            e,
            wheels,
        ).end_tick,
    ensures
        exists|v: u8| #[trigger]
            told(note_events(midi_note_of(e, wheels)), tick_at(e.volumes[i].at), 0xB0, 11, v) && ({
                let volume = e.volumes[i].tracker_volume;
                let full = e.note.trigger_volume;
                &&& volume <= 0 ==> v == 0
                &&& volume >= full && volume >= 1 ==> v == 127
                &&& 0 <= volume <= full ==> -(full as int) <= 2 * (full * v - 127 * volume) <= full
            }),
{
    let n = midi_note_of(e, wheels);
    let volume = e.volumes[i].tracker_volume;
    let at = tick_at(e.volumes[i].at);
    assert(n.volumes[i] == (at, volume));
    lemma_volume_told(n, n.volumes, i);
    let v = expression_cc(volume, n.trigger_volume);
    law_expression_is_the_share_of_the_volume(volume, n.trigger_volume);
    lemma_note_parts(n, (at, seq![0xB0u8, 11, v]));
    assert(told(note_events(n), at, 0xB0, 11, v));
}

/// A row lasts 120 ticks of the file, a quarter of a beat, and a tick of the tracker its share of
/// that, rounded to the nearest.
pub proof fn law_rows_are_quarter_beats(m: Moment)
    requires
        m.tick == 0 || m.tick < m.speed,
        m.row < 30_000_000,
    ensures
        m.tick == 0 ==> tick_at(m) == 120 * m.row,
        m.tick > 0
            ==> -(m.speed as int) <= 2 * (m.speed * (tick_at(m) - 120 * m.row) - 120 * m.tick)
            <= m.speed,
        120 * m.row <= tick_at(m) <= 120 * (m.row + 1),
        TICKS_PER_BEAT == 480,
{
    let den = if m.tick == 0 || m.speed == 0 {
        1int
    } else {
        m.speed as int
    };
    let x = crate::export::clock::nearest(120 * m.tick, den);
    law_nearest_is_near(120 * m.tick, den);
    assert(0 <= x <= 120) by (nonlinear_arith)
        requires
            2 * (120 * m.tick) - den <= 2 * den * x <= 2 * (120 * m.tick) + den,
            0 <= m.tick < den || (m.tick == 0 && den == 1),
            den >= 1,
    ;
    assert(units_at(m, TICK_Q as int) == 120 * m.row + x);
    assert(2 * den * x == 2 * (den * x)) by (nonlinear_arith);
}

/// A note is struck when it starts, with its pitch and velocity, and let go when it ends.
pub proof fn law_notes_are_struck_and_let_go(e: NoteEventView, wheels: Seq<i16>)
    requires
        0 <= e.note.pitch < 128,
        0 <= e.note.velocity < 128,
    ensures
        ({
            let n = midi_note_of(e, wheels);
            &&& n.start_tick == tick_at(e.note.start)
            &&& told(
                note_events(n),
                tick_at(e.note.start),
                0x90,
                e.note.pitch as u8,
                e.note.velocity as u8,
            )
            &&& told(note_events(n), n.end_tick, 0x80, e.note.pitch as u8, 0)
        }),
{
    let n = midi_note_of(e, wheels);
    let on = (n.start_tick, seq![0x90u8, e.note.pitch as u8, e.note.velocity as u8]);
    let off = (n.end_tick, seq![0x80u8, e.note.pitch as u8, 0]);
    assert(start_events(n)[3].1 =~= on.1);
    assert(start_events(n)[3] == on);
    assert(end_events(n)[0].1 =~= off.1);
    assert(end_events(n)[0] == off);
    lemma_note_parts(n, on);
    lemma_note_parts(n, off);
}

proof fn lemma_bend_told(n: MidiNoteView, bends: Seq<(u32, i16)>, i: int)
    requires
        0 <= i < bends.len(),
        n.start_tick <= bends[i].0 <= n.end_tick,
    ensures
        bend_events(n, bends).contains(wheel_event(bends[i].0, 0, bends[i].1)),
    decreases bends.len(),
{
    let before = bend_events(n, bends.drop_last());
    let all = bend_events(n, bends);
    let e = wheel_event(bends[i].0, 0, bends[i].1);
    if i < bends.len() - 1 {
        lemma_bend_told(n, bends.drop_last(), i);
        let j = choose|j: int| 0 <= j < before.len() && before[j] == e;
        assert(all[j] == e);
    } else {
        assert(all[all.len() - 1] == e);
    }
}

/// Every bend of a note within its span is told when it happens, as the position of the wheel in
/// two digits of seven bits, the low one first; 8192 is the wheel at rest.
pub proof fn law_bends_are_told(e: NoteEventView, wheels: Seq<i16>, i: int)
    requires
        0 <= i < e.bends.len(),
        -8192 <= wheels[i] < 8192,
        midi_note_of(e, wheels).start_tick <= tick_at(e.bends[i].at) <= midi_note_of(
            e,
            wheels,
        ).end_tick,
    ensures
        exists|low: u8, high: u8| #[trigger]
            told(note_events(midi_note_of(e, wheels)), tick_at(e.bends[i].at), 0xE0, low, high)
                && low < 128 && high < 128 && low + 128 * high == 8192 + wheels[i],
{
    let n = midi_note_of(e, wheels);
    let at = tick_at(e.bends[i].at);
    assert(n.bends[i] == (at, wheels[i]));
    lemma_bend_told(n, n.bends, i);
    let value = (wheels[i] + 8192) % 16384;
    let low = (value % 128) as u8;
    let high = (value / 128) as u8;
    let ev = wheel_event(at, 0, wheels[i]);
    assert(ev.1 =~= seq![0xE0u8, low, high]);
    lemma_note_parts(n, ev);
    assert(told(note_events(n), at, 0xE0, low, high));
}

/// The wheel goes up with the pitch, rests where that does, and reaches its ends at 48 semitones
/// up and down, which is the range that every track sets for it.
pub proof fn law_wheels_follow_the_pitch(a: int, b: int)
    requires
        a <= b,
    ensures
        -8192 <= wheel_at(a) <= wheel_at(b) <= 8191,
        wheel_at(0) == 0,
        wheel_at(48_000_000) == 8191,
        wheel_at(-48_000_000) == -8192,
        0 <= a <= 48_000_000 ==> -48_000_000 <= 2 * (48_000_000 * wheel_at(a) - 8191 * a)
            <= 48_000_000,
        -48_000_000 <= a <= 0 ==> -48_000_000 <= 2 * (48_000_000 * wheel_at(a) - 8192 * a)
            <= 48_000_000,
        b > 5_000 ==> wheel_at(b) > 0,
        a < -5_000 ==> wheel_at(a) < 0,
{
    let up = |x: int| (2 * (8191 * x) + 48_000_000) / 96_000_000;
    assert(up(0) == 0);
    assert(wheel_at(0) == up(0));
    assert(0 <= a ==> up(a) <= up(b));
    assert(a < 0 && a > -48_000_000 ==> wheel_at(a) == -((2 * (8192 * -a) + 48_000_000)
        / 96_000_000));
    assert(b < 0 && b > -48_000_000 ==> wheel_at(b) == -((2 * (8192 * -b) + 48_000_000)
        / 96_000_000));
    assert(0 <= a < 48_000_000 ==> wheel_at(a) == up(a));
    assert(0 <= b < 48_000_000 ==> wheel_at(b) == up(b));
}

/// Every track begins with its name, and then sets the range of its wheel to 48 semitones and no
/// cents: parameter 0, chosen by controllers 101 and 100 and set by 6 and 38. Then come its notes.
pub proof fn law_tracks_set_the_range_of_their_wheel(s: SampleView, notes: Seq<MidiNoteView>)
    ensures
        ({
            let t = sample_track(s, notes);
            &&& t.len() >= 7
            &&& t[0].0 == 0 && t[0].1[0] == 0xFF && t[0].1[1] == 3
            &&& t[1] == (0u32, seq![0xB0u8, 101, 0])
            &&& t[2] == (0u32, seq![0xB0u8, 100, 0])
            &&& t[3] == (0u32, seq![0xB0u8, 6, 48])
            &&& t[4] == (0u32, seq![0xB0u8, 38, 0])
            &&& t.skip(7) == notes_events(notes)
        }),
{
    let t = sample_track(s, notes);
    let r = range_events(0, 48);
    assert(r[0].1 =~= seq![0xB0u8, 101, 0]);
    assert(r[1].1 =~= seq![0xB0u8, 100, 0]);
    assert(r[2].1 =~= seq![0xB0u8, 6, 48]);
    assert(r[3].1 =~= seq![0xB0u8, 38, 0]);
    assert(t[1] == r[0] && t[2] == r[1] && t[3] == r[2] && t[4] == r[3]);
    assert(t.skip(7) =~= notes_events(notes));
}

/// The notes of a track are told one after the other: with one note more, what was told stays and
/// the events of that note follow.
pub proof fn law_notes_are_told_in_turn(notes: Seq<MidiNoteView>, n: MidiNoteView)
    ensures
        notes_events(notes.push(n)) == notes_events(notes) + note_events(n),
        notes_events(Seq::empty()) == Seq::<EventView>::empty(),
{
    assert(notes.push(n).drop_last() =~= notes);
}

/// The samples with sound among the first `k`.
pub open spec fn sounding(samples: Seq<SampleView>, k: int) -> int
    decreases k,
{
    if k <= 0 {
        0
    } else {
        sounding(samples, k - 1) + if samples[k - 1].pcm16.len() > 0 {
            1int
        } else {
            0
        }
    }
}

proof fn lemma_sounding(samples: Seq<SampleView>, notes: Seq<Seq<MidiNoteView>>, k: int, i: int)
    requires
        0 <= i < k,
        samples[i].pcm16.len() > 0,
    ensures
        sample_tracks(samples, notes, k).len() == sounding(samples, k),
        0 <= sounding(samples, i) < sounding(samples, k),
        sample_tracks(samples, notes, k)[sounding(samples, i)] == sample_track(
            samples[i],
            notes[i],
        ),
    decreases k,
{
    lemma_sounding_count(samples, notes, k);
    lemma_sounding_count(samples, notes, k - 1);
    lemma_sounding_count(samples, notes, i);
    if i < k - 1 {
        lemma_sounding(samples, notes, k - 1, i);
    }
}

proof fn lemma_sounding_count(samples: Seq<SampleView>, notes: Seq<Seq<MidiNoteView>>, k: int)
    ensures
        sample_tracks(samples, notes, k).len() == sounding(samples, k),
        0 <= sounding(samples, k),
    decreases k,
{
    if k > 0 {
        lemma_sounding_count(samples, notes, k - 1);
    }
}

/// There is a track for every sample with sound, in their order and behind the one that conducts;
/// it tells the notes of that sample.
pub proof fn law_a_midi_track_for_every_sample(
    m: ModuleView,
    tempo: Seq<(u32, u32)>,
    notes: Seq<Seq<MidiNoteView>>,
    i: int,
)
    requires
        0 <= i < m.samples.len(),
        m.samples[i].pcm16.len() > 0,
    ensures
        ({
            let t = song_tracks(m, tempo, notes);
            let at = 1 + sounding(m.samples, i);
            &&& t.len() == 1 + sounding(m.samples, m.samples.len() as int)
            &&& 1 <= at < t.len()
            &&& t[at].skip(7) == notes_events(notes[i])
        }),
{
    let n = m.samples.len() as int;
    lemma_sounding(m.samples, notes, n, i);
    law_tracks_set_the_range_of_their_wheel(m.samples[i], notes[i]);
    let t = song_tracks(m, tempo, notes);
    assert(t[1 + sounding(m.samples, i)] == sample_tracks(m.samples, notes, n)[sounding(
        m.samples,
        i,
    )]);
}

/// The first track tells the tempos, one event each in their order, behind the title.
pub proof fn law_the_first_track_conducts(
    m: ModuleView,
    tempo: Seq<(u32, u32)>,
    notes: Seq<Seq<MidiNoteView>>,
    k: int,
)
    requires
        0 <= k < tempo.len(),
    ensures
        ({
            let t = song_tracks(m, tempo, notes)[0];
            &&& t.len() == 1 + tempo.len()
            &&& t[0] == name_event(m.title)
            &&& t[1 + k].0 == tempo[k].0
            &&& t[1 + k].1.len() == 6
            &&& t[1 + k].1[0] == 0xFF && t[1 + k].1[1] == 0x51 && t[1 + k].1[2] == 3
            &&& tempo[k].1 < 0x100_0000 ==> 0x1_0000 * t[1 + k].1[3] + 0x100 * t[1 + k].1[4] + t[1
                + k].1[5] == tempo[k].1
        }),
{
    lemma_tempo_events(tempo, k);
    let t = song_tracks(m, tempo, notes)[0];
    assert(t[1 + k] == tempo_events(tempo)[k]);
}

proof fn lemma_tempo_events(tempo: Seq<(u32, u32)>, k: int)
    requires
        0 <= k < tempo.len(),
    ensures
        tempo_events(tempo).len() == tempo.len(),
        tempo_events(tempo)[k] == tempo_event(tempo[k].0, tempo[k].1),
    decreases tempo.len(),
{
    let d = tempo.drop_last();
    if d.len() > 0 {
        lemma_tempo_events(d, 0);
    } else {
        assert(tempo_events(d).len() == 0);
    }
    assert(tempo.last() == tempo[tempo.len() - 1]);
    if k < d.len() {
        lemma_tempo_events(d, k);
        assert(d[k] == tempo[k]);
    }
}

/// The file begins as every Standard MIDI File does: format 1, as many tracks as there are, and
/// 480 ticks to the beat.
pub proof fn law_files_begin_with_their_header(tracks: Seq<Seq<EventView>>)
    requires
        tracks.len() < 0x1_0000,
    ensures
        ({
            let f = file_of(TICKS_PER_BEAT, tracks);
            &&& f.len() >= 14
            &&& f.take(8) == seq![77u8, 84, 104, 100, 0, 0, 0, 6]
            &&& 256 * f[8] + f[9] == 1
            &&& 256 * f[10] + f[11] == tracks.len()
            &&& 256 * f[12] + f[13] == 480
            &&& f.skip(14) == track_chunks(tracks)
        }),
{
    let f = file_of(TICKS_PER_BEAT, tracks);
    assert(f.take(8) =~= seq![77u8, 84, 104, 100, 0, 0, 0, 6]);
    assert(f.skip(14) =~= track_chunks(tracks));
}

/// A track says how many bytes follow, and ends with the mark of its end.
pub proof fn law_tracks_say_their_length(events: Seq<EventView>)
    requires
        track_chunk(events).len() < 0x1_0000_0000,
    ensures
        ({
            let c = track_chunk(events);
            let n = c.len() as int;
            &&& n >= 12
            &&& c.take(4) == seq![77u8, 84, 114, 107]
            &&& 0x100_0000 * c[4] + 0x1_0000 * c[5] + 0x100 * c[6] + c[7] == n - 8
            &&& c.skip(n - 4) == seq![0u8, 255, 47, 0]
        }),
{
    let c = track_chunk(events);
    let n = c.len() as int;
    assert(c.take(4) =~= seq![77u8, 84, 114, 107]);
    assert(c.skip(n - 4) =~= seq![0u8, 255, 47, 0]);
}

/// The tempo of the file: a beat is four rows, and a row is as many ticks as the Speed says, of
/// which there are two in five of the beats that the tracker counts to the minute. At Speed 6 both
/// count the same.
pub proof fn law_beats_last_as_long_as_four_rows(t: Tempo)
    requires
        t.speed > 0,
        t.tracker_bpm > 0,
        10_000_000 * t.speed <= u32::MAX,
    ensures
        -(t.tracker_bpm as int) <= 2 * (t.tracker_bpm * beat_micros(t) - 10_000_000 * t.speed)
            <= t.tracker_bpm,
        t.speed == 6 ==> -(t.tracker_bpm as int) <= 2 * (t.tracker_bpm * beat_micros(t)
            - 60_000_000) <= t.tracker_bpm,
{
    let num = 10_000_000 * t.speed;
    let den = t.tracker_bpm as int;
    let n = crate::export::clock::nearest(num, den);
    law_nearest_is_near(num, den);
    assert(2 * den * n == 2 * (den * n)) by (nonlinear_arith);
    assert(n <= u32::MAX && n >= 0) by (nonlinear_arith)
        requires
            2 * num - den <= 2 * den * n <= 2 * num + den,
            0 <= num <= 0xffff_ffff,
            den >= 1,
    ;
}

/// A change of tempo is told on its row, in three digits of eight bits, the high one first.
pub proof fn law_tempos_are_told(changes: Seq<TempoChange>, k: int)
    requires
        0 <= k < changes.len(),
        changes[k].row < 30_000_000,
        beat_micros(changes[k].tempo) < 0x100_0000,
    ensures
        ({
            let (tick, micros) = tempo_ticks(changes)[k];
            let e = tempo_event(tick, micros);
            &&& tick == 120 * changes[k].row
            &&& e.0 == tick
            &&& e.1.len() == 6
            &&& e.1[0] == 0xFF && e.1[1] == 0x51 && e.1[2] == 3
            &&& 0x1_0000 * e.1[3] + 0x100 * e.1[4] + e.1[5] == beat_micros(changes[k].tempo)
        }),
{
    let m = Moment { row: changes[k].row, tick: 0, speed: 1 };
    law_rows_are_quarter_beats(m);
    let micros = beat_micros(changes[k].tempo);
    assert(tempo_ticks(changes)[k] == (tick_at(m), micros));
}

/// A note begins with the wheel and the panning in the middle and the expression full, and what
/// it moved is put back there when it ends.
pub proof fn law_notes_put_back_what_they_moved(n: MidiNoteView)
    ensures
        note_events(n)[0] == (n.start_tick, seq![0xE0u8, 0, 64]),
        note_events(n)[1] == (n.start_tick, seq![0xB0u8, 10, 64]),
        note_events(n)[2] == (n.start_tick, seq![0xB0u8, 11, 127]),
        n.bends.len() > 0 ==> told(note_events(n), n.end_tick, 0xE0, 0, 64),
        n.pans.len() > 0 ==> told(note_events(n), n.end_tick, 0xB0, 10, 64),
        n.volumes.len() > 0 ==> told(note_events(n), n.end_tick, 0xB0, 11, 127),
{
    let all = note_events(n);
    let first = start_events(n);
    assert(first[0].1 =~= seq![0xE0u8, 0, 64]);
    assert(first[1].1 =~= seq![0xB0u8, 10, 64]);
    assert(first[2].1 =~= seq![0xB0u8, 11, 127]);
    assert(all[0] == first[0] && all[1] == first[1] && all[2] == first[2]);
    let last = end_events(n);
    let wheel = (n.end_tick, seq![0xE0u8, 0, 64]);
    let pan = (n.end_tick, seq![0xB0u8, 10, 64]);
    let volume = (n.end_tick, seq![0xB0u8, 11, 127]);
    let b: int = if n.bends.len() > 0 {
        1
    } else {
        0
    };
    let p: int = if n.pans.len() > 0 {
        1
    } else {
        0
    };
    if n.bends.len() > 0 {
        assert(last[1].1 =~= wheel.1);
        assert(last[1] == wheel);
        lemma_note_parts(n, wheel);
    }
    if n.pans.len() > 0 {
        assert(last[1 + b].1 =~= pan.1);
        assert(last[1 + b] == pan);
        lemma_note_parts(n, pan);
    }
    if n.volumes.len() > 0 {
        assert(last[1 + b + p].1 =~= volume.1);
        assert(last[1 + b + p] == volume);
        lemma_note_parts(n, volume);
    }
}

/// A note that nothing follows on its voice and that does not play out ends when its channel lets
/// go of it; one that is held when another follows ends when that one begins, a row being 120
/// ticks.
pub proof fn law_midi_notes_end(e: NoteEventView, wheels: Seq<i16>)
    requires
        e.note.natural is None,
        !e.note.close.le(e.note.start),
    ensures
        ({
            let n = midi_note_of(e, wheels);
            &&& e.next_start is None ==> n.end_tick == tick_at(e.note.close)
            &&& e.next_start matches Some(m) ==> (m.tick == 0 && e.note.start.tick == 0 && m.row
                > e.note.start.row && e.note.close.row >= m.row && 120 * m.row <= u32::MAX
                ==> n.end_tick == 120 * m.row)
        }),
{
    match e.next_start {
        None => {},
        Some(m) => {
            if m.tick == 0 && e.note.start.tick == 0 && m.row > e.note.start.row
                && e.note.close.row >= m.row {
                let d = m.row - e.note.start.row;
                assert(parts(m) == 1 && parts(e.note.start) == 1);
                assert(d * 1 * 1 == d) by (nonlinear_arith);
                assert(!is_instant(e.note, Some(m)));
                assert(nearest(-24, 50) == 0) by {
                    let x: int = 2;
                    assert(x / 100 == 0);
                    assert(2 * -24 + 50 == x);
                }
                assert(units_just_before(m, 24) == 120 * m.row) by {
                    assert(250 * 24 * 0 - 24 * 1 == -24);
                    assert(50 * 1 == 50);
                }
                let p = parts(e.note.close);
                let num = 5 * 24 * e.note.close.tick as int;
                law_nearest_is_near(num, p);
                let x = nearest(num, p);
                assert(x >= 0) by (nonlinear_arith)
                    requires
                        2 * p * x >= 2 * num - p,
                        p > 0,
                        num >= 0,
                ;
            }
        },
    }
}

/// An event begins with the ticks that have gone by since the one before it. Then it stands whole,
/// or without its status where the one before it has the same.
pub proof fn law_events_tell_the_ticks_between(before: Seq<EventView>, e: EventView)
    requires
        e.1.len() > 0,
        before.len() > 0 ==> before.last().0 <= e.0,
    ensures
        ({
            let gone = if before.len() == 0 {
                e.0 as int
            } else {
                e.0 - before.last().0
            };
            &&& read_vlq(event_bytes(before, e), 0) matches Some((ticks, rest)) && ticks == gone
                && (rest == e.1 || (before.len() > 0 && before.last().1[0] == e.1[0] && rest
                == e.1.drop_first()))
            &&& e.1[0] >= 0xF0 ==> (read_vlq(event_bytes(before, e), 0)->0).1 == e.1
        }),
{
    let last = if before.len() == 0 {
        0int
    } else {
        before.last().0 as int
    };
    law_vlq_reads_back(e.0 - last, e.1);
    law_vlq_reads_back(e.0 - last, e.1.drop_first());
}

} // verus!
