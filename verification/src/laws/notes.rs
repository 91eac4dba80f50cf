//! Which notes and changes a sample's tracks are given.
use crate::export::clock::{
    is_instant, law_nearest_is_near, nearest, parts, units_end, units_gap,
    units_just_before, units_length,
};
use crate::export::curves::LiveNoteView;
use crate::export::notes::{events_of, of_note, sorted_ids, NoteEventView};
use crate::export::sampler::{clipped, voice_count, voice_notes};
use crate::export::simulate::{Note, SimView};
use crate::export::tempo::Segment;
use crate::export::time::{played_out, Moment, NaturalLength};
use crate::export::vgm_wavetable::{note_at, PlayedView, Registers, SpanView};
use crate::export::voices::{
    in_order, lasts, law_voices_never_overlap, lemma_lasts, local_voice, next_start, voice_of,
};
use vstd::prelude::*;

verus! {

/// A log of changes, with one more behind it: the note that it is of has it last, and no other
/// note has it.
pub proof fn law_changes_go_to_their_note<T>(log: Seq<(usize, T)>, change: (usize, T), id: int)
    ensures
        of_note(Seq::<(usize, T)>::empty(), id) == Seq::<T>::empty(),
        change.0 == id ==> of_note(log.push(change), id) == of_note(log, id).push(change.1),
        change.0 != id ==> of_note(log.push(change), id) == of_note(log, id),
{
    assert(log.push(change).drop_last() =~= log);
}

/// An event of a sample is one of its notes, with the changes that were logged for it: the bends,
/// volumes and pans, and the envelopes' volumes and pans, each from its own log.
pub proof fn law_events_are_of_their_note(s: SimView, sample: u32, i: int)
    requires
        0 <= i < events_of(s, sample).len(),
    ensures
        ({
            let e = events_of(s, sample)[i];
            let id = sorted_ids(s.notes, sample, s.notes.len() as int)[i];
            &&& e.note == s.notes[id]
            &&& e.bends == of_note(s.bends, id)
            &&& e.volumes == of_note(s.volumes, id)
            &&& e.pans == of_note(s.pans, id)
            &&& e.envelope_volumes == of_note(s.envelope_volumes, id)
            &&& e.envelope_pans == of_note(s.envelope_pans, id)
        }),
{
}

/// A voice has the events that were given to it, in their order.
pub proof fn law_voices_have_their_events(
    events: Seq<NoteEventView>,
    e: NoteEventView,
    bends: Seq<Seq<i64>>,
    voice: int,
)
    ensures
        voice_notes(Seq::empty(), bends, voice).len() == 0,
        e.voice == voice ==> voice_notes(events.push(e), bends, voice) == voice_notes(
            events,
            bends,
            voice,
        ).push(crate::export::curves::live_note(e, bends[events.len() as int])),
        e.voice != voice ==> voice_notes(events.push(e), bends, voice) == voice_notes(
            events,
            bends,
            voice,
        ),
{
    assert(events.push(e).drop_last() =~= events);
}

/// There are as many voices as the highest needs, and one at least.
pub proof fn law_voices_are_counted(events: Seq<NoteEventView>, i: int)
    ensures
        voice_count(events) >= 1,
        0 <= i < events.len() ==> events[i].voice < voice_count(events),
        voice_count(events) > 1 ==> exists|k: int|
            0 <= k < events.len() && (#[trigger] events[k]).voice == voice_count(events) - 1,
    decreases events.len(),
{
    if events.len() > 0 {
        let before = events.drop_last();
        law_voices_are_counted(before, i);
        let last = events.len() - 1;
        if events.last().voice + 1 > voice_count(before) {
            assert(events[last].voice == voice_count(events) - 1);
        } else if voice_count(before) > 1 {
            let k = choose|k: int|
                0 <= k < before.len() && (#[trigger] before[k]).voice == voice_count(before) - 1;
            assert(events[k].voice == voice_count(events) - 1);
        }
    }
}

/// A sample without a loop has played out once its frames have: a row of so many ticks has five
/// halves of a second for each, by the tempo.
pub proof fn law_samples_play_out(row: usize, rows: int, len: NaturalLength, speed: u32)
    requires
        speed > 0,
        0 <= rows,
        row + rows <= usize::MAX,
    ensures
        ({
            let start = Moment { row, tick: 0, speed };
            let at = Moment { row: (row + rows) as usize, tick: 0, speed };
            played_out(start, len, at) <==> len.rate_hz > 0 && 2 * (len.frames * len.tracker_bpm)
                <= 5 * (len.rate_hz * (speed * rows))
        }),
{
    let start = Moment { row, tick: 0, speed };
    let at = Moment { row: (row + rows) as usize, tick: 0, speed };
    let (r, s) = (len.rate_hz as int, speed as int);
    let (f, b) = (len.frames as int, len.tracker_bpm as int);
    assert((5 * r * 0 + 2 * f * b) * 1 == 2 * (f * b)) by (nonlinear_arith);
    assert((rows * 1 + 0) * (5 * r * s) == 5 * (r * (s * rows))) by (nonlinear_arith);
}

/// A note that another follows on its voice has ended a fiftieth of a row before that one begins,
/// where there is room for it.
pub proof fn law_notes_end_before_the_next(n: Note, row: usize, next: usize)
    requires
        n.start == (Moment { row, tick: 0, speed: n.start.speed }),
        n.natural is None,
        row < next,
        n.close.row >= next,
    ensures
        ({
            let m = Moment { row: next, tick: 0, speed: n.start.speed };
            &&& units_end(n, Some(m), 50_000) == 250_000 * next - 1000
            &&& units_length(n, Some(m), 50_000) == 250_000 * (next - row) - 1000
        }),
{
    let m = Moment { row: next, tick: 0, speed: n.start.speed };
    assert(parts(m) == 1 && parts(n.start) == 1);
    assert(!n.close.le(n.start));
    assert(!is_instant(n, Some(m))) by {
        let d = next - row;
        assert(d * 1 * 1 == d) by (nonlinear_arith);
        assert(250 * (d * 1 * 1 + 0 * 1 - 0 * 1) > 1);
    }
    assert(nearest(-50_000, 50) == -1000) by {
        let x: int = -99_950;
        assert(x / 100 == -1000);
        assert(2 * -50_000 + 50 == x);
    }
    assert(units_just_before(m, 50_000) == 250_000 * next - 1000) by {
        assert(250 * 50_000 * 0 - 50_000 * 1 == -50_000);
        assert(50 * 1 == 50);
    }
    let closed = crate::export::clock::units_at(n.close, 50_000);
    let p = parts(n.close);
    law_nearest_is_near(5 * 50_000 * n.close.tick as int, p);
    let x = nearest(5 * 50_000 * n.close.tick as int, p);
    assert(x >= 0) by (nonlinear_arith)
        requires
            2 * p * x >= 2 * (5 * 50_000 * n.close.tick as int) - p,
            p > 0,
            n.close.tick >= 0,
    ;
    let q: int = 50_000;
    let held = crate::export::clock::units_between(n.start, n.close, q);
    assert(units_gap(n.start, m, q) == 250_000 * (next - row) - 1000) by {
        assert(q * 1 * 1 == 50_000 && 50 * 1 * 1 == 50) by (nonlinear_arith)
            requires
                q == 50_000,
        ;
        assert(250 * q * (0 * 1 - 0 * 1) == 0) by (nonlinear_arith);
    }
    assert(held >= 250_000 * (next - row)) by {
        let num = 5 * q * (n.close.tick * 1 - 0 * p);
        assert(num == 250_000 * n.close.tick) by (nonlinear_arith)
            requires
                num == 5 * q * (n.close.tick * 1 - 0 * p),
                q == 50_000,
        ;
        assert(p * 1 == p);
        law_nearest_is_near(num, p);
        let y = nearest(num, p);
        assert(y >= 0) by (nonlinear_arith)
            requires
                2 * p * y >= 2 * num - p,
                num >= 0,
                p > 0,
        ;
    }
}

/// A note in a clip keeps its start, pitch and velocity, and ends with the clip at the latest.
pub proof fn law_notes_end_with_their_clip(n: LiveNoteView, segment: Segment)
    requires
        250_000 * segment.end_row <= i64::MAX,
        n.start <= 250_000 * segment.end_row,
        0 <= n.start,
    ensures
        ({
            let c = clipped(n, segment);
            &&& c.start == n.start && c.pitch == n.pitch && c.velocity == n.velocity
            &&& n.start + n.length <= 250_000 * segment.end_row ==> c.duration == n.length
            &&& n.start + n.length > 250_000 * segment.end_row ==> c.start + c.duration == 250_000
                * segment.end_row
        }),
{
}

/// The next note on a voice is the first behind that is on it.
pub proof fn law_next_notes_are_on_the_voice(ns: Seq<Note>, i: int, j: int)
    requires
        0 <= i < j < ns.len(),
        voice_of(ns, j) == voice_of(ns, i),
        forall|k: int| i < k < j ==> #[trigger] voice_of(ns, k) != voice_of(ns, i),
    ensures
        next_start(ns, i) == Some(ns[j].start),
{
    lemma_next(ns, voice_of(ns, i), i + 1, j);
}

proof fn lemma_next(ns: Seq<Note>, v: int, k: int, j: int)
    requires
        0 <= k <= j < ns.len(),
        voice_of(ns, j) == v,
        forall|x: int| k <= x < j ==> #[trigger] voice_of(ns, x) != v,
    ensures
        crate::export::voices::next_on_voice(ns, v, k) == Some(j),
    decreases j - k,
{
    if k < j {
        assert(voice_of(ns, k) != v);
        lemma_next(ns, v, k + 1, j);
    }
}

/// While its key is down, a channel of an SCC begins its note again where the waveform changes,
/// the volume jumps up by three or more, or the frequency is that of another note; a smaller
/// change only bends the note or changes its volume.
pub proof fn law_scc_notes_are_struck_again(
    p: PlayedView,
    before: Registers,
    r: Registers,
    ch: int,
    at: u64,
    tones: Seq<i64>,
)
    requires
        p.key,
        p.open is Some,
        p.open->0.start + 200 <= at,
        r.freq > 8,
        p.settled == before.freq,
    ensures
        ({
            let o = p.open->0;
            let q = p.after_group(before, r, None, ch, at, tones, false);
            let again = r.waveform != before.waveform || r.volume >= before.volume + 3 || (r.freq
                != before.freq && note_at(tones, r.freq) != o.pitch);
            &&& again ==> q.spans == p.spans.push(SpanView { end: at, ..o })
                && (q.open matches Some(
                n,
            ) && n.start == at && n.waveform == r.waveform && n.bends == seq![(at, r.freq)]
                && n.volumes == seq![(at, r.volume)])
            &&& !again ==> q.spans == p.spans && (q.open matches Some(n) && n.start == o.start
                && n.pitch == o.pitch && n.velocity == o.velocity)
            &&& !again && r.freq != before.freq ==> q.open->0.bends == o.bends.push((at, r.freq))
            &&& !again && r.freq == before.freq ==> q.open->0.bends == o.bends
            &&& !again && r.volume != before.volume ==> q.open->0.volumes == o.volumes.push(
                (at, r.volume),
            )
            &&& !again && r.volume == before.volume ==> q.open->0.volumes == o.volumes
        }),
{
}

/// A note that begins while an earlier one is held and has not played out is on another voice. One
/// that begins when all that begin at its frame have been let go of or have played out is on the
/// first voice of its frame.
pub proof fn law_voices_are_free_when_notes_have_ended(ns: Seq<Note>, i: int)
    requires
        in_order(ns),
        0 <= i < ns.len(),
    ensures
        forall|j: int|
            0 <= j < i && !(#[trigger] ns[j]).close.le(ns[i].start) && (ns[j].natural matches Some(
                len,
            ) ==> !played_out(ns[j].start, len, ns[i].start)) ==> voice_of(ns, j) != voice_of(
                ns,
                i,
            ),
        (forall|j: int|
            0 <= j < i && (#[trigger] ns[j]).sample_offset_frames == ns[i].sample_offset_frames
                ==> ns[j].close.le(ns[i].start) || (ns[j].natural matches Some(len) && played_out(
                ns[j].start,
                len,
                ns[i].start,
            ))) ==> local_voice(ns, i) == 0,
{
    assert forall|j: int|
        0 <= j < i && !(#[trigger] ns[j]).close.le(ns[i].start) && (ns[j].natural matches Some(len)
            ==> !played_out(ns[j].start, len, ns[i].start)) implies voice_of(ns, j) != voice_of(
        ns,
        i,
    ) by {
        if voice_of(ns, j) == voice_of(ns, i) {
            law_voices_never_overlap(ns, j, i);
        }
    }
    lemma_lasts(ns, ns[i].sample_offset_frames, i);
    let p = lasts(ns, ns[i].sample_offset_frames, i);
    if p.len() > 0 {
        assert(0 <= p[0] < i);
        assert(ns[p[0]].sample_offset_frames == ns[i].sample_offset_frames);
    }
}

} // verus!
