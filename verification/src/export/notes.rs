//! Turns a module into a format-agnostic list of note events.
//!
//! Shared by the MIDI exporter and the .als exporter so both target formats stay in sync:
//! playback is simulated once (honoring pattern breaks and position jumps, and carrying a
//! channel's sample forward on cells without a sample number), and each exporter just converts
//! the resulting times into its own time base.
use crate::export::simulate::{
    close_rest, has_sound, initial_tempo, law_end_keeps_triggers, law_notes_lie_on_rows,
    lemma_sim_wf, play_song, same_trigger, sim_rows, EnvelopeLevel, Note, PanChange, PitchBend, Sim, SimView, VolumeChange,
};
use crate::export::tempo::{
    segments_of, song_segments, song_tempo, tempo_at, tempo_track, Segment, Tempo, TempoChange,
};
use crate::export::time::Moment;
use crate::export::voices::{
    assign_voices, following_starts, in_order, next_start, voice_of,
};
use crate::formats::base::{Module, ModuleView, Sample};
use crate::formats::playback::{iter_song_rows, song_row_views, song_rows, SongRow};
use std::collections::BTreeMap;
use vstd::prelude::*;

verus! {

/// A note with everything that happens to it.
#[derive(Debug)]
pub struct NoteEvent {
    pub note: Note,
    /// Which of the sample's voices plays it: notes that share a voice never overlap, and
    /// never start at different frames of the sample. Each voice becomes a track.
    pub voice: usize,
    /// When the next note on its voice starts: this one stops a hair before that.
    pub next_start: Option<Moment>,
    pub bends: Vec<PitchBend>,
    pub volumes: Vec<VolumeChange>,
    pub pans: Vec<PanChange>,
    /// The instrument's own envelopes, a layer of their own beside `volumes` and `pans`.
    pub envelope_volumes: Vec<EnvelopeLevel>,
    pub envelope_pans: Vec<EnvelopeLevel>,
}

/// What a `NoteEvent` holds.
pub struct NoteEventView {
    pub note: Note,
    pub voice: int,
    pub next_start: Option<Moment>,
    pub bends: Seq<PitchBend>,
    pub volumes: Seq<VolumeChange>,
    pub pans: Seq<PanChange>,
    pub envelope_volumes: Seq<EnvelopeLevel>,
    pub envelope_pans: Seq<EnvelopeLevel>,
}

impl View for NoteEvent {
    type V = NoteEventView;

    open spec fn view(&self) -> NoteEventView {
        NoteEventView {
            note: self.note,
            voice: self.voice as int,
            next_start: self.next_start,
            bends: self.bends@,
            volumes: self.volumes@,
            pans: self.pans@,
            envelope_volumes: self.envelope_volumes@,
            envelope_pans: self.envelope_pans@,
        }
    }
}

/// The views of a list of note events.
pub open spec fn event_views(events: Seq<NoteEvent>) -> Seq<NoteEventView> {
    events.map_values(|e: NoteEvent| e@)
}

/// The song as notes, tempo and pattern plays.
#[derive(Debug)]
pub struct SongEvents {
    /// The notes of every sample that has sound, in the order of their starts.
    pub notes_by_sample: BTreeMap<u32, Vec<NoteEvent>>,
    pub tempo_changes: Vec<TempoChange>,
    pub total_rows: usize,
    pub segments: Vec<Segment>,
}

/// The log of the whole song.
pub open spec fn simulated(m: ModuleView) -> SimView {
    let s = sim_rows(m, song_rows(m));
    close_rest(s, song_rows(m).len() as usize, m.num_channels as int)
}

/// The changes of one note, in order.
pub open spec fn of_note<T>(log: Seq<(usize, T)>, id: int) -> Seq<T>
    decreases log.len(),
{
    if log.len() == 0 {
        Seq::empty()
    } else if log.last().0 == id {
        of_note(log.drop_last(), id).push(log.last().1)
    } else {
        of_note(log.drop_last(), id)
    }
}

/// Note `id` put behind the notes that do not start after it.
pub open spec fn insert_by_start(notes: Seq<Note>, ids: Seq<int>, id: int) -> Seq<int>
    decreases ids.len(),
{
    if ids.len() == 0 || notes[ids.last()].start.le(notes[id].start) {
        ids.push(id)
    } else {
        insert_by_start(notes, ids.drop_last(), id).push(ids.last())
    }
}

/// The first `k` notes, as far as they play the given sample, in the order of their starts;
/// notes that start together keep the order of their triggers.
pub open spec fn sorted_ids(notes: Seq<Note>, sample: u32, k: int) -> Seq<int>
    decreases k,
{
    if k <= 0 {
        Seq::empty()
    } else if notes[k - 1].sample == sample {
        insert_by_start(notes, sorted_ids(notes, sample, k - 1), k - 1)
    } else {
        sorted_ids(notes, sample, k - 1)
    }
}

/// The notes with the given numbers.
pub open spec fn pick(notes: Seq<Note>, ids: Seq<int>) -> Seq<Note> {
    ids.map_values(|id: int| notes[id])
}

/// The notes of a sample, in the order of their starts.
pub open spec fn sample_notes(s: SimView, sample: u32) -> Seq<Note> {
    pick(s.notes, sorted_ids(s.notes, sample, s.notes.len() as int))
}

/// The note events of a sample.
pub open spec fn events_of(s: SimView, sample: u32) -> Seq<NoteEventView> {
    let ids = sorted_ids(s.notes, sample, s.notes.len() as int);
    let ns = pick(s.notes, ids);
    Seq::new(
        ids.len(),
        |i: int|
            NoteEventView {
                note: ns[i],
                voice: voice_of(ns, i),
                next_start: next_start(ns, i),
                bends: of_note(s.bends, ids[i]),
                volumes: of_note(s.volumes, ids[i]),
                pans: of_note(s.pans, ids[i]),
                envelope_volumes: of_note(s.envelope_volumes, ids[i]),
                envelope_pans: of_note(s.envelope_pans, ids[i]),
            },
    )
}

/// What can be simulated: no row that is played has more cells than the module has channels,
/// and the envelopes' sustain points exist.
pub open spec fn can_simulate(m: ModuleView) -> bool {
    &&& forall|k: int|
        0 <= k < song_rows(m).len() ==> (#[trigger] song_rows(m)[k]).row.len() <= m.num_channels
    &&& forall|i: int| 0 <= i < m.samples.len() ==> (#[trigger] m.samples[i]).wf()
}

proof fn lemma_inserted(notes: Seq<Note>, ids: Seq<int>, id: int, n: int)
    requires
        forall|i: int| 0 <= i < ids.len() ==> 0 <= #[trigger] ids[i] < n,
        0 <= id < n <= notes.len(),
        forall|i: int, j: int|
            0 <= i < j < ids.len() ==> notes[#[trigger] ids[i]].start.le(
                notes[#[trigger] ids[j]].start,
            ),
    ensures
        ({
            let r = insert_by_start(notes, ids, id);
            &&& r.len() == ids.len() + 1
            &&& forall|i: int| 0 <= i < r.len() ==> 0 <= #[trigger] r[i] < n
            &&& forall|i: int, j: int|
                0 <= i < j < r.len() ==> notes[#[trigger] r[i]].start.le(
                    notes[#[trigger] r[j]].start,
                )
            &&& forall|x: int| #[trigger] r.contains(x) <==> ids.contains(x) || x == id
            &&& ids.no_duplicates() && !ids.contains(id) ==> r.no_duplicates()
        }),
    decreases ids.len(),
{
    let r = insert_by_start(notes, ids, id);
    if ids.len() == 0 || notes[ids.last()].start.le(notes[id].start) {
        assert forall|i: int, j: int| 0 <= i < j < r.len() implies notes[#[trigger] r[i]].start.le(
            notes[#[trigger] r[j]].start,
        ) by {
            if j == ids.len() && i < ids.len() - 1 {
                assert(notes[ids[i]].start.le(notes[ids[ids.len() - 1]].start));
            }
        }
        assert forall|x: int| #[trigger] r.contains(x) <==> ids.contains(x) || x == id by {
            if r.contains(x) {
                let i = choose|i: int| 0 <= i < r.len() && r[i] == x;
                if i < ids.len() {
                    assert(ids[i] == x);
                }
            }
            if ids.contains(x) {
                let i = choose|i: int| 0 <= i < ids.len() && ids[i] == x;
                assert(r[i] == x);
            }
            if x == id {
                assert(r[ids.len() as int] == x);
            }
        }
    } else {
        let d = ids.drop_last();
        let last = ids.last();
        lemma_inserted(notes, d, id, n);
        let p = insert_by_start(notes, d, id);
        assert forall|i: int, j: int| 0 <= i < j < r.len() implies notes[#[trigger] r[i]].start.le(
            notes[#[trigger] r[j]].start,
        ) by {
            if j == p.len() {
                assert(p.contains(p[i]));
                if d.contains(p[i]) {
                    let q = choose|q: int| 0 <= q < d.len() && d[q] == p[i];
                    assert(notes[ids[q]].start.le(notes[ids[ids.len() - 1]].start));
                }
            }
        }
        assert forall|x: int| #[trigger] r.contains(x) <==> ids.contains(x) || x == id by {
            if r.contains(x) {
                let i = choose|i: int| 0 <= i < r.len() && r[i] == x;
                if i < p.len() {
                    assert(p.contains(x));
                    if d.contains(x) {
                        let q = choose|q: int| 0 <= q < d.len() && d[q] == x;
                        assert(ids[q] == x);
                    }
                } else {
                    assert(ids[ids.len() - 1] == x);
                }
            }
            if ids.contains(x) {
                let i = choose|i: int| 0 <= i < ids.len() && ids[i] == x;
                if i < d.len() {
                    assert(d[i] == x);
                    assert(p.contains(x));
                    let q = choose|q: int| 0 <= q < p.len() && p[q] == x;
                    assert(r[q] == x);
                } else {
                    assert(r[p.len() as int] == x);
                }
            }
            if x == id {
                assert(p.contains(x));
                let q = choose|q: int| 0 <= q < p.len() && p[q] == x;
                assert(r[q] == x);
            }
        }
        if ids.no_duplicates() && !ids.contains(id) {
            assert(!d.contains(id)) by {
                if d.contains(id) {
                    let q = choose|q: int| 0 <= q < d.len() && d[q] == id;
                    assert(ids[q] == id);
                }
            }
            assert(!p.contains(last)) by {
                if p.contains(last) {
                    if d.contains(last) {
                        let q = choose|q: int| 0 <= q < d.len() && d[q] == last;
                        assert(ids[q] == ids[ids.len() - 1]);
                    } else {
                        assert(ids[ids.len() - 1] == id);
                    }
                }
            }
            assert forall|i: int, j: int| 0 <= i < j < r.len() implies r[i] != r[j] by {
                if j == p.len() {
                    assert(p.contains(p[i]));
                }
            }
        }
    }
}

proof fn lemma_sorted_ids(notes: Seq<Note>, sample: u32, k: int)
    requires
        0 <= k <= notes.len(),
    ensures
        ({
            let r = sorted_ids(notes, sample, k);
            &&& forall|i: int| 0 <= i < r.len() ==> 0 <= #[trigger] r[i] < k
            &&& forall|i: int, j: int|
                0 <= i < j < r.len() ==> notes[#[trigger] r[i]].start.le(
                    notes[#[trigger] r[j]].start,
                )
            &&& forall|x: int| #[trigger]
                r.contains(x) <==> 0 <= x < k && notes[x].sample == sample
            &&& r.no_duplicates()
        }),
    decreases k,
{
    if k > 0 {
        lemma_sorted_ids(notes, sample, k - 1);
        let p = sorted_ids(notes, sample, k - 1);
        if notes[k - 1].sample == sample {
            lemma_inserted(notes, p, k - 1, k);
        }
    }
}

proof fn lemma_simulated(m: ModuleView)
    requires
        song_rows(m).len() <= usize::MAX,
        can_simulate(m),
    ensures
        forall|i: int|
            0 <= i < simulated(m).notes.len() ==> (#[trigger] simulated(m).notes[i]).start.wf(),
        forall|i: int, j: int|
            0 <= i < simulated(m).notes.len() && 0 <= j < simulated(m).notes.len() && (
            #[trigger] simulated(m).notes[i]).start.row == (#[trigger] simulated(
                m,
            ).notes[j]).start.row ==> simulated(m).notes[i].start.speed == simulated(
                m,
            ).notes[j].start.speed,
{
    let s = sim_rows(m, song_rows(m));
    lemma_sim_wf(m, song_rows(m));
    law_end_keeps_triggers(s, song_rows(m).len() as usize, m.num_channels as int);
    assert forall|i: int| 0 <= i < simulated(m).notes.len() implies ({
        let n = #[trigger] simulated(m).notes[i];
        &&& n.start.wf()
        &&& n.start.speed == tempo_at(
            initial_tempo(m),
            song_rows(m),
            n.start.row as int,
        ).speed
    }) by {
        law_notes_lie_on_rows(m, song_rows(m), i);
        assert(same_trigger(s.notes[i], simulated(m).notes[i]));
    }
}

/// The notes of a sample stand in the order of their starts, as the assignment of voices needs
/// it: so no two notes of a voice overlap, and no fewer voices would do.
pub proof fn law_sample_notes_in_order(m: ModuleView, sample: u32)
    requires
        song_rows(m).len() <= usize::MAX,
        can_simulate(m),
    ensures
        in_order(sample_notes(simulated(m), sample)),
{
    let notes = simulated(m).notes;
    lemma_simulated(m);
    lemma_sorted_ids(notes, sample, notes.len() as int);
    let ids = sorted_ids(notes, sample, notes.len() as int);
    let ns = sample_notes(simulated(m), sample);
    assert forall|i: int| 0 <= i < ns.len() implies ns[i] == notes[#[trigger] ids[i]] && 0 <= ids[i]
        < notes.len() by {}
    assert forall|i: int| 0 <= i < ns.len() implies (#[trigger] ns[i]).start.wf() by {
        assert(ns[i] == notes[ids[i]]);
    }
    assert forall|i: int, j: int| 0 <= i < j < ns.len() implies (#[trigger] ns[i]).start.le(
        (#[trigger] ns[j]).start,
    ) by {
        assert(ns[i] == notes[ids[i]] && ns[j] == notes[ids[j]]);
    }
    assert forall|i: int, j: int|
        0 <= i < ns.len() && 0 <= j < ns.len() && (#[trigger] ns[i]).start.row == (
        #[trigger] ns[j]).start.row implies ns[i].start.speed == ns[j].start.speed by {
        assert(ns[i] == notes[ids[i]] && ns[j] == notes[ids[j]]);
    }
}

/// Every note of the song is in the list of its sample, once, and in no other; and the lists
/// stand in the order of the notes' starts.
pub proof fn law_every_note_once(notes: Seq<Note>, sample: u32)
    ensures
        ({
            let ids = sorted_ids(notes, sample, notes.len() as int);
            &&& ids.no_duplicates()
            &&& forall|x: int| #[trigger]
                ids.contains(x) <==> 0 <= x < notes.len() && notes[x].sample == sample
            &&& forall|i: int, j: int|
                0 <= i < j < ids.len() ==> notes[#[trigger] ids[i]].start.le(
                    notes[#[trigger] ids[j]].start,
                )
        }),
{
    lemma_sorted_ids(notes, sample, notes.len() as int);
}

/// The numbers of a sample's notes, in the order of their starts.
fn sort_ids(notes: &Vec<Note>, sample: u32) -> (r: Vec<usize>)
    ensures
        r@.map_values(|x: usize| x as int) == sorted_ids(notes@, sample, notes.len() as int),
        forall|i: int| 0 <= i < r.len() ==> #[trigger] r[i] < notes.len(),
{
    let ghost num = |x: usize| x as int;
    let mut ids: Vec<usize> = Vec::new();
    let mut k: usize = 0;
    assert(ids@.map_values(num) =~= Seq::<int>::empty());
    while k < notes.len()
        invariant
            k <= notes.len(),
            num == (|x: usize| x as int),
            ids@.map_values(num) == sorted_ids(notes@, sample, k as int),
            forall|i: int| 0 <= i < ids.len() ==> #[trigger] ids[i] < k,
        decreases notes.len() - k,
    {
        if notes[k].sample == sample {
            let ghost start = ids@.map_values(num);
            let mut i: usize = ids.len();
            let ghost mut tail: Seq<int> = Seq::empty();
            assert(start.take(i as int) =~= start);
            assert(insert_by_start(notes@, start, k as int) + tail =~= insert_by_start(
                notes@,
                start,
                k as int,
            ));
            assert(start.take(i as int) + tail =~= start);
            while i > 0 && !notes[ids[i - 1]].start.not_after(&notes[k].start)
                invariant
                    i <= ids.len(),
                    k < notes.len(),
                    num == (|x: usize| x as int),
                    start == ids@.map_values(num),
                    forall|j: int| 0 <= j < ids.len() ==> #[trigger] ids[j] < k,
                    start.take(i as int) + tail == start,
                    insert_by_start(notes@, start.take(i as int), k as int) + tail
                        == insert_by_start(notes@, start, k as int),
                decreases i,
            {
                proof {
                    let cur = start.take(i as int);
                    assert(cur.last() == ids[i - 1]);
                    assert(cur.drop_last() =~= start.take(i - 1));
                    assert(insert_by_start(notes@, cur.drop_last(), k as int).push(cur.last())
                        + tail =~= insert_by_start(notes@, start.take(i - 1), k as int) + (
                    seq![cur.last()] + tail));
                    assert(start.take(i - 1) + (seq![cur.last()] + tail) =~= start.take(i as int)
                        + tail);
                    tail = seq![cur.last()] + tail;
                }
                i -= 1;
            }
            proof {
                let cur = start.take(i as int);
                if i > 0 {
                    assert(cur.last() == ids[i - 1]);
                }
                assert(insert_by_start(notes@, cur, k as int) == cur.push(k as int));
                assert(cur.push(k as int) + tail =~= start.insert(i as int, k as int));
            }
            let ghost before = ids@;
            ids.insert(i, k);
            assert(ids@.map_values(num) =~= start.insert(i as int, k as int));
            assert forall|j: int| 0 <= j < ids.len() implies #[trigger] ids[j] < k + 1 by {
                if j < i {
                    assert(ids[j] == before[j]);
                } else if j > i {
                    assert(ids[j] == before[j - 1]);
                }
            }
        }
        k += 1;
    }
    ids
}

/// The log, sorted by the notes that it speaks of.
fn by_note<T: Copy>(log: &Vec<(usize, T)>, n: usize) -> (r: Vec<Vec<T>>)
    ensures
        r.len() == n,
        forall|id: int| 0 <= id < n ==> (#[trigger] r[id])@ == of_note(log@, id),
{
    let mut out: Vec<Vec<T>> = Vec::new();
    let mut z: usize = 0;
    assert(log@.take(0) =~= Seq::<(usize, T)>::empty());
    while z < n
        invariant
            z <= n,
            out.len() == z,
            forall|id: int| 0 <= id < z ==> (#[trigger] out[id])@ == of_note(log@.take(0), id),
            log@.take(0) == Seq::<(usize, T)>::empty(),
        decreases n - z,
    {
        out.push(Vec::new());
        z += 1;
    }
    let mut k: usize = 0;
    while k < log.len()
        invariant
            k <= log.len(),
            out.len() == n,
            forall|id: int|
                0 <= id < n ==> (#[trigger] out[id])@ == of_note(log@.take(k as int), id),
        decreases log.len() - k,
    {
        let e: (usize, T) = log[k];
        proof {
            assert(log@.take(k + 1).drop_last() =~= log@.take(k as int));
            assert(log@.take(k + 1).last() == e);
        }
        if e.0 < n {
            let ghost before = out@;
            out[e.0].push(e.1);
            assert forall|id: int| 0 <= id < n implies (#[trigger] out[id])@ == of_note(
                log@.take(k + 1),
                id,
            ) by {
                assert(before[id]@ == of_note(log@.take(k as int), id));
            }
        }
        k += 1;
    }
    assert(log@.take(k as int) =~= log@);
    out
}

/// The log sorted by notes, for all kinds of changes.
struct Logs {
    bends: Vec<Vec<PitchBend>>,
    volumes: Vec<Vec<VolumeChange>>,
    pans: Vec<Vec<PanChange>>,
    envelope_volumes: Vec<Vec<EnvelopeLevel>>,
    envelope_pans: Vec<Vec<EnvelopeLevel>>,
}

impl Logs {
    spec fn of(self, s: SimView) -> bool {
        let n = s.notes.len();
        &&& self.bends.len() == n
        &&& self.volumes.len() == n
        &&& self.pans.len() == n
        &&& self.envelope_volumes.len() == n
        &&& self.envelope_pans.len() == n
        &&& forall|id: int|
            0 <= id < n ==> (#[trigger] self.bends[id])@ == of_note(s.bends, id)
        &&& forall|id: int|
            0 <= id < n ==> (#[trigger] self.volumes[id])@ == of_note(s.volumes, id)
        &&& forall|id: int| 0 <= id < n ==> (#[trigger] self.pans[id])@ == of_note(s.pans, id)
        &&& forall|id: int|
            0 <= id < n ==> (#[trigger] self.envelope_volumes[id])@ == of_note(
                s.envelope_volumes,
                id,
            )
        &&& forall|id: int|
            0 <= id < n ==> (#[trigger] self.envelope_pans[id])@ == of_note(s.envelope_pans, id)
    }
}

fn sample_events(sim: &Sim, logs: &Logs, sample: u32) -> (r: Vec<NoteEvent>)
    requires
        logs.of(sim@),
        forall|i: int| 0 <= i < sim@.notes.len() ==> (#[trigger] sim@.notes[i]).start.wf(),
    ensures
        event_views(r@) == events_of(sim@, sample),
{
    let ids: Vec<usize> = sort_ids(&sim.notes, sample);
    let ghost num = ids@.map_values(|x: usize| x as int);
    let mut ns: Vec<Note> = Vec::new();
    let mut i: usize = 0;
    while i < ids.len()
        invariant
            i <= ids.len(),
            num == ids@.map_values(|x: usize| x as int),
            ns@ == pick(sim@.notes, num).take(i as int),
            forall|j: int| 0 <= j < ids.len() ==> #[trigger] ids[j] < sim.notes.len(),
        decreases ids.len() - i,
    {
        ns.push(sim.notes[ids[i]]);
        assert(num[i as int] == ids[i as int]);
        assert(ns@ =~= pick(sim@.notes, num).take(i + 1));
        i += 1;
    }
    assert(ns@ =~= pick(sim@.notes, num));
    assert forall|j: int| 0 <= j < ns.len() implies (#[trigger] ns[j]).start.wf() by {
        assert(ns[j] == sim@.notes[num[j]]);
        assert(num[j] == ids[j]);
    }
    let voices: Vec<usize> = assign_voices(&ns);
    let nexts: Vec<Option<Moment>> = following_starts(&ns, &voices);
    let mut out: Vec<NoteEvent> = Vec::new();
    let mut k: usize = 0;
    assert(event_views(out@) =~= events_of(sim@, sample).take(0));
    while k < ids.len()
        invariant
            k <= ids.len(),
            num == ids@.map_values(|x: usize| x as int),
            num == sorted_ids(sim@.notes, sample, sim@.notes.len() as int),
            ns@ == pick(sim@.notes, num),
            ns.len() == ids.len(),
            voices.len() == ids.len(),
            nexts.len() == ids.len(),
            forall|j: int| 0 <= j < ids.len() ==> #[trigger] ids[j] < sim.notes.len(),
            forall|j: int| 0 <= j < ns.len() ==> #[trigger] voices[j] == voice_of(ns@, j),
            forall|j: int| 0 <= j < ns.len() ==> #[trigger] nexts[j] == next_start(ns@, j),
            logs.of(sim@),
            event_views(out@) == events_of(sim@, sample).take(k as int),
        decreases ids.len() - k,
    {
        let id: usize = ids[k];
        let e = NoteEvent {
            note: ns[k],
            voice: voices[k],
            next_start: nexts[k],
            bends: vstd::slice::slice_to_vec(logs.bends[id].as_slice()),
            volumes: vstd::slice::slice_to_vec(logs.volumes[id].as_slice()),
            pans: vstd::slice::slice_to_vec(logs.pans[id].as_slice()),
            envelope_volumes: vstd::slice::slice_to_vec(logs.envelope_volumes[id].as_slice()),
            envelope_pans: vstd::slice::slice_to_vec(logs.envelope_pans[id].as_slice()),
        };
        proof {
            assert(num[k as int] == id);
            assert(events_of(sim@, sample)[k as int] == e@);
            assert(events_of(sim@, sample).take(k + 1) =~= events_of(sim@, sample).take(
                k as int,
            ).push(e@));
            assert(event_views(out@.push(e)) =~= event_views(out@).push(e@));
        }
        out.push(e);
        k += 1;
    }
    assert(events_of(sim@, sample).take(k as int) =~= events_of(sim@, sample));
    out
}

fn put(m: &mut BTreeMap<u32, Vec<NoteEvent>>, sample: u32, events: Vec<NoteEvent>)
    ensures
        final(m)@ == old(m)@.insert(sample, events),
{
    broadcast use vstd::std_specs::btree::group_btree_axioms;
    broadcast use vstd::laws_cmp::group_laws_cmp;

    m.insert(sample, events);
}

/// Whether the module can be simulated.
pub fn check_module(module: &Module) -> (r: bool)
    ensures
        r == can_simulate(module@),
{
    let mut i: usize = 0;
    while i < module.samples.len()
        invariant
            i <= module.samples.len(),
            forall|j: int| 0 <= j < i ==> (#[trigger] module@.samples[j]).wf(),
        decreases module.samples.len() - i,
    {
        let s: &Sample = &module.samples[i];
        assert(module@.samples[i as int] == s@);
        let volume_ok: bool = match &s.volume_envelope {
            Some(e) => match e.sustain_point {
                Some(p) => p < e.points.len(),
                None => true,
            },
            None => true,
        };
        let panning_ok: bool = match &s.panning_envelope {
            Some(e) => match e.sustain_point {
                Some(p) => p < e.points.len(),
                None => true,
            },
            None => true,
        };
        if !volume_ok || !panning_ok {
            assert(!module@.samples[i as int].wf());
            return false;
        }
        i += 1;
    }
    let rows: Vec<SongRow<'_>> = iter_song_rows(module);
    let ghost views = song_rows(module@);
    let mut k: usize = 0;
    while k < rows.len()
        invariant
            k <= rows.len(),
            views == song_row_views(rows@),
            views == song_rows(module@),
            forall|j: int| 0 <= j < k ==> (#[trigger] views[j]).row.len() <= module.num_channels,
        decreases rows.len() - k,
    {
        assert(views[k as int] == rows[k as int]@);
        if rows[k].row.len() > module.num_channels {
            assert(song_rows(module@)[k as int].row.len() > module@.num_channels);
            return false;
        }
        k += 1;
    }
    true
}

/// Simulates the playback of a module.
pub fn compute_song_events(module: &Module) -> (r: SongEvents)
    requires
        can_simulate(module@),
    ensures
        r.total_rows == song_rows(module@).len(),
        r.tempo_changes@ == tempo_track(initial_tempo(module@), song_rows(module@)).changes,
        r.segments@ == segments_of(song_rows(module@)),
        forall|sample: u32| #[trigger]
            r.notes_by_sample@.contains_key(sample) <==> has_sound(module@.samples, sample),
        forall|sample: u32| #[trigger]
            r.notes_by_sample@.contains_key(sample) ==> event_views(
                r.notes_by_sample@[sample]@,
            ) == events_of(simulated(module@), sample),
{
    let ghost m = module@;
    let rows: Vec<SongRow<'_>> = iter_song_rows(module);
    let initial = Tempo {
        tracker_bpm: module.initial_tempo_bpm,
        speed: module.initial_speed_ticks,
    };
    let (tempos, tempo_changes) = song_tempo(initial, &rows);
    let segments: Vec<Segment> = song_segments(&rows);
    proof {
        let views = song_row_views(rows@);
        assert forall|k: int| 0 <= k < rows.len() implies (#[trigger] rows[k])@.row.len()
            <= module.num_channels by {
            assert(views[k] == rows[k]@);
            assert(song_rows(m)[k].row.len() <= m.num_channels);
        }
        assert forall|i: int| 0 <= i < module.samples.len() implies (
        #[trigger] module.samples[i])@.wf() by {
            assert(m.samples[i] == module.samples[i]@);
        }
    }
    let sim: Sim = play_song(module, &rows, &tempos);
    proof {
        lemma_simulated(m);
    }
    let n: usize = sim.notes.len();
    let logs = Logs {
        bends: by_note(&sim.bends, n),
        volumes: by_note(&sim.volumes, n),
        pans: by_note(&sim.pans, n),
        envelope_volumes: by_note(&sim.envelope_volumes, n),
        envelope_pans: by_note(&sim.envelope_pans, n),
    };
    let mut by_sample: BTreeMap<u32, Vec<NoteEvent>> = BTreeMap::new();
    let mut i: usize = 0;
    while i < module.samples.len()
        invariant
            m == module@,
            i <= module.samples.len(),
            sim@ == simulated(m),
            logs.of(sim@),
            forall|j: int| 0 <= j < sim@.notes.len() ==> (#[trigger] sim@.notes[j]).start.wf(),
            forall|sample: u32| #[trigger]
                by_sample@.contains_key(sample) <==> has_sound(m.samples.take(i as int), sample),
            forall|sample: u32| #[trigger]
                by_sample@.contains_key(sample) ==> event_views(by_sample@[sample]@) == events_of(
                    sim@,
                    sample,
                ),
        decreases module.samples.len() - i,
    {
        let s: &Sample = &module.samples[i];
        let ghost before = m.samples.take(i as int);
        let ghost after = m.samples.take(i + 1);
        proof {
            assert(m.samples[i as int] == s@);
            assert(after =~= before.push(s@));
            assert forall|sample: u32| #[trigger] has_sound(after, sample) <==> has_sound(
                before,
                sample,
            ) || (s@.index == sample && !s@.is_empty()) by {
                if has_sound(after, sample) {
                    let j = choose|j: int|
                        0 <= j < after.len() && (#[trigger] after[j]).index == sample
                            && !after[j].is_empty();
                    if j < before.len() {
                        assert(before[j] == after[j]);
                    }
                }
                if has_sound(before, sample) {
                    let j = choose|j: int|
                        0 <= j < before.len() && (#[trigger] before[j]).index == sample
                            && !before[j].is_empty();
                    assert(after[j] == before[j]);
                }
                if s@.index == sample && !s@.is_empty() {
                    assert(after[i as int] == s@);
                }
            }
        }
        if !s.is_empty() {
            let events: Vec<NoteEvent> = sample_events(&sim, &logs, s.index);
            put(&mut by_sample, s.index, events);
        }
        i += 1;
    }
    assert(m.samples.take(i as int) =~= m.samples);
    SongEvents { notes_by_sample: by_sample, tempo_changes, total_rows: rows.len(), segments }
}

impl SongEvents {
    /// What the song holds for a sample: its note events, none where it has no sound.
    pub open spec fn notes_for(self, sample: u32) -> Seq<NoteEventView> {
        if self.notes_by_sample@.contains_key(sample) {
            event_views(self.notes_by_sample@[sample]@)
        } else {
            Seq::empty()
        }
    }

    /// The note events of a sample that has sound.
    pub fn notes_of(&self, sample: u32) -> (r: Option<&Vec<NoteEvent>>)
        ensures
            match r {
                Some(v) => self.notes_by_sample@.contains_key(sample) && *v
                    == self.notes_by_sample@[sample],
                None => !self.notes_by_sample@.contains_key(sample),
            },
    {
        broadcast use vstd::std_specs::btree::group_btree_axioms;
        broadcast use vstd::laws_cmp::group_laws_cmp;

        self.notes_by_sample.get(&sample)
    }
}

} // verus!
