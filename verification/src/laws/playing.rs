//! What the cells of a song make its channels play.
use crate::export::notes::{can_simulate, simulated};
use crate::export::simulate::{
    bend_run, effects, grows, idle, last_row_time, law_end_keeps_triggers, lemma_cell_grows,
    lemma_effects_grow, lemma_retriggered_grows, lemma_row_grows, lemma_sim_wf, lemma_trigger_grows,
    note_delay, phase, playable, released, remembered, slide_delta, BendStep, retriggered,
    row_start, same_trigger, sample_at, set_directly, sim_rows, slid, step_cell, step_row, swapped,
    tick_effects, tone_prepared, triggered, volume_slid, Active, Channel, Note, RowTime, SimView,
};
use crate::formats::base::{param_of, Cell, ModuleView, SampleView};
use crate::formats::playback::{song_rows, SongRowView};
use vstd::prelude::*;

verus! {

/// The parameter of a cell's effect, 0 where there is none.
pub open spec fn parameter(cell: Cell) -> int {
    match cell.effect_param {
        Some(x) => x as int,
        None => 0,
    }
}

/// The loudness of a cell that plays a sample: its own volume, or else the sample's.
pub open spec fn loudness(cell: Cell, s: SampleView) -> int {
    match cell.volume {
        Some(v) => v as int,
        None => s.volume as int,
    }
}

/// The note is one that this cell starts, with this sample.
///
/// It is as loud as the cell says, or else as the sample is, and struck accordingly: of 127, what
/// the volume is of 64, and never with 0. It plays out by itself unless the sample has a loop. It
/// has the cell's pitch, or sounds again by Retrigger. It starts at the front of the sample but for
/// Sample Offset, which skips 256 frames for each step, though never all. It starts with the row,
/// but for Note Delay, which names the tick, and Retrigger, which names every how many ticks.
pub open spec fn plays(n: Note, cell: Cell, s: SampleView) -> bool {
    let v = loudness(cell, s);
    let x = parameter(cell);
    &&& 1 <= n.velocity <= 127
    &&& v < 0x8000_0000 ==> n.trigger_volume == v
    &&& 1 <= v <= 64 ==> -32 <= 64 * n.velocity - 127 * v <= 32
    &&& v == 0 ==> n.velocity == 1
    &&& v >= 64 ==> n.velocity == 127
    &&& n.natural is Some <==> s.loop_length == 0
    &&& n.natural matches Some(l) ==> l.rate_hz == s.sample_rate_hz && (s.pcm16.len() <= u64::MAX
        ==> l.frames == s.pcm16.len() / 2)
    &&& cell.midi_note matches Some(p) ==> n.pitch == p
    &&& cell.midi_note is None ==> cell.effect == Some(14u32) && x / 16 % 16 == 9
    &&& cell.sample_index matches Some(k) ==> n.sample == k
    &&& cell.effect != Some(9u32) ==> n.sample_offset_frames == 0
    &&& cell.effect == Some(9u32) && x > 0 && 0 < s.pcm16.len() / 2 < 0x1_0000_0000 ==> (
    if 256 * x < s.pcm16.len() / 2 {
        n.sample_offset_frames == 256 * x
    } else {
        n.sample_offset_frames == s.pcm16.len() / 2 - 1
    })
    &&& n.start.tick > 0 ==> cell.effect == Some(14u32) && (x / 16 % 16 == 13 && n.start.tick == x
        % 16 || x / 16 % 16 == 9 && x % 16 > 0 && n.start.tick as int % (x % 16) == 0)
}

/// The note is one that this cell starts, with the last sample of its number.
pub open spec fn comes_from(n: Note, cell: Cell, samples: Seq<SampleView>) -> bool {
    exists|k: int|
        0 <= k < samples.len() && (#[trigger] samples[k]).index == n.sample && plays(
            n,
            cell,
            samples[k],
        ) && forall|j: int| k < j < samples.len() ==> (#[trigger] samples[j]).index != n.sample
}

/// What the cell of a channel may add to the log: notes that it starts, on its channel.
spec fn adds(a: SimView, b: SimView, ch: int, cell: Cell, samples: Seq<SampleView>) -> bool {
    forall|i: int|
        a.notes.len() <= i < b.notes.len() ==> (#[trigger] b.notes[i]).channel == ch && comes_from(
            b.notes[i],
            cell,
            samples,
        )
}

proof fn lemma_same_note(a: Note, b: Note, cell: Cell, samples: Seq<SampleView>)
    requires
        same_trigger(a, b),
        comes_from(a, cell, samples),
    ensures
        comes_from(b, cell, samples),
{
    let k = choose|k: int|
        0 <= k < samples.len() && (#[trigger] samples[k]).index == a.sample && plays(
            a,
            cell,
            samples[k],
        ) && forall|j: int| k < j < samples.len() ==> (#[trigger] samples[j]).index != a.sample;
    assert(plays(b, cell, samples[k]));
}

proof fn lemma_adds_trans(
    a: SimView,
    b: SimView,
    c: SimView,
    t: RowTime,
    ch: int,
    cell: Cell,
    samples: Seq<SampleView>,
)
    requires
        adds(a, b, ch, cell, samples),
        adds(b, c, ch, cell, samples),
        grows(b, c, t, samples),
    ensures
        adds(a, c, ch, cell, samples),
{
    assert forall|i: int| a.notes.len() <= i < c.notes.len() implies (
    #[trigger] c.notes[i]).channel == ch && comes_from(c.notes[i], cell, samples) by {
        if i < b.notes.len() {
            assert(same_trigger(b.notes[i], c.notes[i]));
            lemma_same_note(b.notes[i], c.notes[i], cell, samples);
        }
    }
}

proof fn lemma_sample_at(samples: Seq<SampleView>, index: u32)
    ensures
        match sample_at(samples, index) {
            Some(k) => 0 <= k < samples.len() && samples[k].index == index && (forall|j: int|
                k < j < samples.len() ==> (#[trigger] samples[j]).index != index),
            None => forall|j: int| 0 <= j < samples.len()
                ==> (#[trigger] samples[j]).index != index,
        },
    decreases samples.len(),
{
    if samples.len() > 0 {
        let d = samples.drop_last();
        lemma_sample_at(d, index);
        assert(samples.last() == samples[samples.len() - 1]);
        assert forall|j: int| 0 <= j < d.len() implies #[trigger] samples[j] == d[j] by {}
    }
}

proof fn lemma_trigger_adds(
    s: SimView,
    t: RowTime,
    tick: u32,
    ch: int,
    cell: Cell,
    k: int,
    pitch: i32,
    samples: Seq<SampleView>,
)
    requires
        s.wf(),
        0 <= ch < s.channels.len(),
        ch <= usize::MAX,
        playable(samples, s.channels[ch].sample) == Some(k),
        cell.midi_note matches Some(p) ==> pitch == p,
        cell.midi_note is None ==> cell.effect == Some(14u32) && parameter(cell) / 16 % 16 == 9,
        cell.sample_index is Some ==> s.channels[ch].sample == cell.sample_index,
        tick > 0 ==> cell.effect == Some(14u32) && (parameter(cell) / 16 % 16 == 13 && tick
            == parameter(cell) % 16 || parameter(cell) / 16 % 16 == 9 && parameter(cell) % 16 > 0
            && tick as int % (parameter(cell) % 16) == 0),
    ensures
        adds(
            s,
            triggered(s, t, tick, ch, cell, s.channels[ch].sample->0, samples[k], pitch),
            ch,
            cell,
            samples,
        ),
{
    let index = s.channels[ch].sample->0;
    lemma_sample_at(samples, index);
    let b = triggered(s, t, tick, ch, cell, index, samples[k], pitch);
    let n = b.notes[s.notes.len() as int];
    assert(samples[k].index == n.sample);
    assert(plays(n, cell, samples[k]));
    assert(comes_from(n, cell, samples));
}

proof fn lemma_slid_adds_none(
    s: SimView,
    t: RowTime,
    ch: int,
    id: usize,
    delta: int,
    was: bool,
    n: nat,
)
    requires
        id < s.notes.len(),
    ensures
        slid(s, t, ch, id, delta, was, n).notes.len() == s.notes.len(),
    decreases n,
{
    if n > 0 {
        lemma_slid_adds_none(s, t, ch, id, delta, was, (n - 1) as nat);
    }
}

proof fn lemma_volume_slid_adds_none(
    s: SimView,
    t: RowTime,
    ch: int,
    id: usize,
    cell: Cell,
    was: bool,
)
    requires
        id < s.notes.len(),
    ensures
        volume_slid(s, t, ch, id, cell, was).notes.len() == s.notes.len(),
{
    let c = s.channels[ch];
    let param = remembered(param_of(cell), c.volslide);
    let s1 = s.with_channel(ch, Channel { volslide: param, ..c });
    lemma_slid_adds_none(s1, t, ch, id, slide_delta(param), was, t.later_ticks());
}

proof fn lemma_other_effects_add_none(
    s: SimView,
    t: RowTime,
    ch: int,
    id: usize,
    cell: Cell,
    samples: Seq<SampleView>,
    was: Active,
)
    requires
        id < s.notes.len(),
        cell.effect != Some(14u32),
    ensures
        tick_effects(s, t, ch, id, cell, samples, was).notes.len() == s.notes.len(),
{
    lemma_volume_slid_adds_none(s, t, ch, id, cell, was.sliding);
    let c = s.channels[ch];
    if cell.effect == Some(5u32) && c.tone_target is Some {
        let note = c.tone_target->0;
        let s1 = s.with_channel(
            ch,
            Channel { active: Active { tone: true, ..c.active }, ..c },
        ).bent(id, bend_run(t, |i: int| BendStep::Toward { note, step: c.tone_step }, was.tone));
        lemma_volume_slid_adds_none(s1, t, ch, id, cell, was.sliding);
    }
    if cell.effect == Some(6u32) {
        let (speed, depth) = (c.vibrato_speed, c.vibrato_depth);
        let c1 = Channel { vibrato_speed: speed, vibrato_depth: depth, ..c };
        let s1 = if speed != 0 || depth != 0 {
            s.with_channel(
                ch,
                Channel {
                    vibrato_pos: phase(c.vibrato_pos, speed, t.later_ticks() as int),
                    active: Active { vibrating: true, ..c1.active },
                    ..c1
                },
            ).bent(
                id,
                bend_run(
                    t,
                    |i: int| BendStep::Vibrato { pos: phase(c.vibrato_pos, speed, i + 1), depth },
                    was.vibrating,
                ),
            )
        } else {
            s.with_channel(ch, c1)
        };
        lemma_volume_slid_adds_none(s1, t, ch, id, cell, was.sliding);
    }
}

proof fn lemma_retriggered_adds(
    s: SimView,
    t: RowTime,
    ch: int,
    cell: Cell,
    k: int,
    pitch: i32,
    n: nat,
    samples: Seq<SampleView>,
)
    requires
        s.wf(),
        0 <= ch < s.channels.len(),
        ch <= usize::MAX,
        n <= t.later_ticks(),
        playable(samples, s.channels[ch].sample) == Some(k),
        cell.midi_note matches Some(p) ==> pitch == p,
        cell.effect == Some(14u32),
        parameter(cell) / 16 % 16 == 9,
        parameter(cell) % 16 > 0,
        cell.sample_index is Some ==> s.channels[ch].sample == cell.sample_index,
    ensures
        ({
            let b = retriggered(
                s,
                t,
                ch,
                cell,
                s.channels[ch].sample->0,
                samples[k],
                pitch,
                (parameter(cell) % 16) as u32,
                n,
            );
            &&& adds(s, b, ch, cell, samples)
            &&& b.channels[ch].sample == s.channels[ch].sample
        }),
    decreases n,
{
    if n > 0 {
        let index = s.channels[ch].sample->0;
        let every = (parameter(cell) % 16) as u32;
        let p = retriggered(s, t, ch, cell, index, samples[k], pitch, every, (n - 1) as nat);
        lemma_retriggered_adds(s, t, ch, cell, k, pitch, (n - 1) as nat, samples);
        lemma_retriggered_grows(
            s,
            t,
            ch,
            cell,
            index,
            samples[k],
            pitch,
            every,
            (n - 1) as nat,
            samples,
        );
        if n % every as nat == 0 {
            assert(n as u32 as int % (parameter(cell) % 16) == 0);
            lemma_trigger_adds(p, t, n as u32, ch, cell, k, pitch, samples);
            lemma_trigger_grows(p, t, n as u32, ch, cell, index, samples[k], pitch, samples);
            lemma_adds_trans(
                s,
                p,
                triggered(p, t, n as u32, ch, cell, index, samples[k], pitch),
                t,
                ch,
                cell,
                samples,
            );
        }
    }
}

proof fn lemma_effects_add(
    s: SimView,
    t: RowTime,
    ch: int,
    cell: Cell,
    samples: Seq<SampleView>,
    was: Active,
)
    requires
        s.wf(),
        0 <= ch < s.channels.len(),
        ch <= usize::MAX,
        cell.sample_index is Some ==> s.channels[ch].sample == cell.sample_index,
        cell.midi_note is Some && cell.effect != Some(3u32) && playable(
            samples,
            s.channels[ch].sample,
        ) is Some ==> (s.channels[ch].held matches Some(id) && s.notes[id as int].pitch
            == cell.midi_note->0),
    ensures
        adds(s, effects(s, t, ch, cell, samples, was), ch, cell, samples),
{
    match s.channels[ch].held {
        None => {},
        Some(id) => {
            let s1 = if cell.midi_note is Some && cell.effect != Some(3u32) {
                s
            } else {
                set_directly(s, t, ch, id, cell)
            };
            assert(s1.notes.len() == s.notes.len());
            match s1.channels[ch].held {
                None => {},
                Some(id1) => {
                    if cell.effect != Some(14u32) {
                        lemma_other_effects_add_none(s1, t, ch, id1, cell, samples, was);
                    } else {
                        assert(s1 == s);
                        let x = parameter(cell);
                        assert(x == param_of(cell));
                        if x / 16 % 16 == 9 && x % 16 > 0 {
                            match playable(samples, s.channels[ch].sample) {
                                None => {},
                                Some(k) => lemma_retriggered_adds(
                                    s,
                                    t,
                                    ch,
                                    cell,
                                    k,
                                    s.notes[id as int].pitch,
                                    t.later_ticks(),
                                    samples,
                                ),
                            }
                        }
                    }
                },
            }
        },
    }
}

proof fn lemma_cell_adds(s: SimView, t: RowTime, ch: int, cell: Cell, samples: Seq<SampleView>)
    requires
        s.wf(),
        0 <= ch < s.channels.len(),
        ch <= usize::MAX,
        step_cell(s, t, ch, cell, samples).notes.len() <= usize::MAX,
    ensures
        adds(s, step_cell(s, t, ch, cell, samples), ch, cell, samples),
{
    let was = s.channels[ch].active;
    let c = row_start(s.channels[ch], cell);
    let s1 = s.with_channel(ch, c);
    let after = step_cell(s, t, ch, cell, samples);
    assert(s1.wf()) by {
        assert(s.channels[ch].wf(s.notes.len()));
        assert forall|k: int| 0 <= k < s1.channels.len() implies (#[trigger] s1.channels[k]).wf(
            s1.notes.len(),
        ) by {
            assert(s.channels[k].wf(s.notes.len()));
        }
    }
    if cell.effect == Some(3u32) {
        let s2 = s.with_channel(ch, tone_prepared(c, cell));
        assert(s2.wf()) by {
            assert(s.channels[ch].wf(s.notes.len()));
            assert forall|k: int| 0 <= k < s2.channels.len() implies (#[trigger] s2.channels[k]).wf(
                s2.notes.len(),
            ) by {
                assert(s.channels[k].wf(s.notes.len()));
            }
        }
        lemma_effects_add(s2, t, ch, cell, samples, was);
    } else if note_delay(cell) is Some {
        match (cell.midi_note, playable(samples, c.sample)) {
            (Some(pitch), Some(i)) => {
                if note_delay(cell)->0 < t.tempo.speed {
                    lemma_trigger_adds(
                        s1,
                        t,
                        note_delay(cell)->0,
                        ch,
                        cell,
                        i,
                        pitch,
                        samples,
                    );
                }
            },
            _ => {},
        }
    } else if cell.midi_note is Some {
        match playable(samples, c.sample) {
            Some(i) => {
                let s2 = triggered(
                    s1,
                    t,
                    0,
                    ch,
                    cell,
                    c.sample->0,
                    samples[i],
                    cell.midi_note->0,
                );
                lemma_trigger_adds(s1, t, 0, ch, cell, i, cell.midi_note->0, samples);
                lemma_trigger_grows(
                    s1,
                    t,
                    0,
                    ch,
                    cell,
                    c.sample->0,
                    samples[i],
                    cell.midi_note->0,
                    samples,
                );
                lemma_effects_grow(s2, t, ch, cell, samples, idle());
                assert(s2.notes.len() == s.notes.len() + 1 <= after.notes.len());
                assert(s2.channels[ch].held == Some(s.notes.len() as usize));
                assert(s2.notes[s.notes.len() as int].pitch == cell.midi_note->0);
                lemma_effects_add(s2, t, ch, cell, samples, idle());
                lemma_adds_trans(s1, s2, after, t, ch, cell, samples);
            },
            None => lemma_effects_add(s1, t, ch, cell, samples, was),
        }
    } else if cell.note_off {
        let s2 = released(s1, t, ch, samples);
        assert(s2.channels == s1.channels && s2.notes.len() == s1.notes.len());
        assert(s2.wf());
        lemma_effects_add(s2, t, ch, cell, samples, was);
    } else if cell.sample_index is Some {
        let s2 = swapped(s1, t, ch, samples, cell.sample_index->0);
        assert(s2.notes.len() == s1.notes.len());
        assert(s2.channels[ch].sample == s1.channels[ch].sample);
        assert(s2.wf()) by {
            assert(s1.channels[ch].wf(s1.notes.len()));
            assert forall|k: int| 0 <= k < s2.channels.len() implies (#[trigger] s2.channels[k]).wf(
                s2.notes.len(),
            ) by {
                assert(s1.channels[k].wf(s1.notes.len()));
            }
        }
        lemma_effects_add(s2, t, ch, cell, samples, was);
    } else {
        lemma_effects_add(s1, t, ch, cell, samples, was);
    }
}

/// What a row may add to the log: notes that its cells start.
spec fn row_adds(a: SimView, b: SimView, cells: Seq<Cell>, samples: Seq<SampleView>) -> bool {
    forall|i: int|
        a.notes.len() <= i < b.notes.len() ==> (#[trigger] b.notes[i]).channel < cells.len()
            && comes_from(b.notes[i], cells[b.notes[i].channel as int], samples)
}

proof fn lemma_row_adds(s: SimView, t: RowTime, cells: Seq<Cell>, samples: Seq<SampleView>)
    requires
        s.wf(),
        cells.len() <= s.channels.len(),
        s.channels.len() <= usize::MAX,
        step_row(s, t, cells, samples).notes.len() <= usize::MAX,
    ensures
        row_adds(s, step_row(s, t, cells, samples), cells, samples),
    decreases cells.len(),
{
    if cells.len() > 0 {
        let d = cells.drop_last();
        let p = step_row(s, t, d, samples);
        let b = step_row(s, t, cells, samples);
        lemma_row_grows(s, t, d, samples);
        lemma_cell_grows(p, t, cells.len() - 1, cells.last(), samples);
        lemma_row_adds(s, t, d, samples);
        lemma_cell_adds(p, t, cells.len() - 1, cells.last(), samples);
        assert forall|i: int| s.notes.len() <= i < b.notes.len() implies (
        #[trigger] b.notes[i]).channel < cells.len() && comes_from(
            b.notes[i],
            cells[b.notes[i].channel as int],
            samples,
        ) by {
            if i < p.notes.len() {
                assert(same_trigger(p.notes[i], b.notes[i]));
                assert(d[p.notes[i].channel as int] == cells[p.notes[i].channel as int]);
                lemma_same_note(
                    p.notes[i],
                    b.notes[i],
                    cells[p.notes[i].channel as int],
                    samples,
                );
            }
        }
    }
}

proof fn lemma_rows_add(m: ModuleView, rows: Seq<SongRowView>, i: int)
    requires
        rows.len() <= usize::MAX,
        forall|k: int|
            0 <= k < rows.len() ==> (#[trigger] rows[k]).row.len() <= m.num_channels,
        0 <= i < sim_rows(m, rows).notes.len() <= usize::MAX,
    ensures
        ({
            let n = sim_rows(m, rows).notes[i];
            &&& n.start.row < rows.len()
            &&& n.channel < rows[n.start.row as int].row.len()
            &&& comes_from(n, rows[n.start.row as int].row[n.channel as int], m.samples)
        }),
    decreases rows.len(),
{
    if rows.len() > 0 {
        let d = rows.drop_last();
        let p = sim_rows(m, d);
        let t = last_row_time(m, rows);
        assert forall|k: int| 0 <= k < d.len() implies (#[trigger] d[k]).row.len()
            <= m.num_channels by {
            assert(d[k] == rows[k]);
        }
        lemma_sim_wf(m, d);
        assert(rows[rows.len() - 1].row.len() <= m.num_channels);
        lemma_row_grows(p, t, rows.last().row, m.samples);
        lemma_row_adds(p, t, rows.last().row, m.samples);
        let n = sim_rows(m, rows).notes[i];
        if i < p.notes.len() {
            lemma_rows_add(m, d, i);
            assert(same_trigger(p.notes[i], n));
            let at = n.start.row as int;
            assert(d[at] == rows[at]);
            lemma_same_note(p.notes[i], n, rows[at].row[n.channel as int], m.samples);
        }
    }
}

/// Every note of a song is started by the cell that stands on its row and channel, with the
/// loudness, velocity, pitch, sample, offset and tick that the cell gives it: see `plays`.
pub proof fn law_notes_come_from_their_cells(m: ModuleView, i: int)
    requires
        can_simulate(m),
        song_rows(m).len() <= usize::MAX,
        0 <= i < simulated(m).notes.len() <= usize::MAX,
    ensures
        ({
            let n = simulated(m).notes[i];
            &&& n.start.row < song_rows(m).len()
            &&& n.channel < song_rows(m)[n.start.row as int].row.len()
            &&& comes_from(
                n,
                song_rows(m)[n.start.row as int].row[n.channel as int],
                m.samples,
            )
        }),
{
    let rows = song_rows(m);
    let s = sim_rows(m, rows);
    lemma_sim_wf(m, rows);
    law_end_keeps_triggers(s, rows.len() as usize, m.num_channels as int);
    lemma_rows_add(m, rows, i);
    let n = simulated(m).notes[i];
    assert(same_trigger(s.notes[i], n));
    lemma_same_note(
        s.notes[i],
        n,
        rows[n.start.row as int].row[n.channel as int],
        m.samples,
    );
}

} // verus!
