//! The volumes of a song stay tracker volumes.
use crate::export::simulate::{
    bend_run, effects, extended, fine_portamento, fine_volume, idle, last_row_time, note_cut,
    playable, portamento, released, remembered, retriggered, row_start, sample_at, set_directly,
    sim_rows, slid, slide_delta, step_cell, step_row, swapped, tick_effects, tone_portamento,
    tone_prepared, tremolo, triggered, vibrato, volume_slid, Active, BendStep, Channel, RowTime,
    SimView, TONE_PORTAMENTO, VIBRATO_VOLSLIDE,
};
use crate::formats::base::{param_of, Cell, ModuleView, SampleView};
use crate::formats::playback::SongRowView;
use vstd::prelude::*;

verus! {

/// Every channel's volume and every volume change lies within 0..=64.
pub open spec fn levels_fit(s: SimView) -> bool {
    &&& forall|c: int|
        0 <= c < s.channels.len() ==> 0 <= (#[trigger] s.channels[c]).volume <= 64
    &&& forall|i: int|
        0 <= i < s.volumes.len() ==> 0 <= (#[trigger] s.volumes[i]).1.tracker_volume <= 64
}

/// The cell gives no volume beyond 64.
pub open spec fn cell_fits(cell: Cell) -> bool {
    cell.volume matches Some(v) ==> v <= 64
}

/// No sample has a default volume beyond 64.
pub open spec fn samples_fit(samples: Seq<SampleView>) -> bool {
    forall|i: int| 0 <= i < samples.len() ==> (#[trigger] samples[i]).volume <= 64
}

/// What a step keeps.
spec fn kept(a: SimView, b: SimView) -> bool {
    levels_fit(b) && b.channels.len() == a.channels.len()
}

proof fn lemma_found(samples: Seq<SampleView>, index: u32)
    ensures
        sample_at(samples, index) matches Some(i) ==> 0 <= i < samples.len(),
    decreases samples.len(),
{
    if samples.len() > 0 {
        lemma_found(samples.drop_last(), index);
    }
}

proof fn lemma_slid(s: SimView, t: RowTime, ch: int, id: usize, delta: int, was: bool, n: nat)
    requires
        levels_fit(s),
        0 <= ch < s.channels.len(),
    ensures
        kept(s, slid(s, t, ch, id, delta, was, n)),
    decreases n,
{
    if n > 0 {
        lemma_slid(s, t, ch, id, delta, was, (n - 1) as nat);
    }
}

proof fn lemma_volume_slid(s: SimView, t: RowTime, ch: int, id: usize, cell: Cell, was: bool)
    requires
        levels_fit(s),
        0 <= ch < s.channels.len(),
    ensures
        kept(s, volume_slid(s, t, ch, id, cell, was)),
{
    let c = s.channels[ch];
    let param = remembered(param_of(cell), c.volslide);
    let s1 = s.with_channel(ch, Channel { volslide: param, ..c });
    lemma_slid(s1, t, ch, id, slide_delta(param), was, t.later_ticks());
}

proof fn lemma_tone_portamento(
    s: SimView,
    t: RowTime,
    ch: int,
    id: usize,
    cell: Cell,
    was: Active,
)
    requires
        levels_fit(s),
        0 <= ch < s.channels.len(),
    ensures
        kept(s, tone_portamento(s, t, ch, id, cell, was)),
{
    let c = s.channels[ch];
    if c.tone_target is Some {
        let note = c.tone_target->0;
        let s1 = s.with_channel(
            ch,
            Channel { active: Active { tone: true, ..c.active }, ..c },
        ).bent(id, bend_run(t, |i: int| BendStep::Toward { note, step: c.tone_step }, was.tone));
        lemma_volume_slid(s1, t, ch, id, cell, was.sliding);
    }
}

proof fn lemma_vibrato(s: SimView, t: RowTime, ch: int, id: usize, cell: Cell, was: Active)
    requires
        levels_fit(s),
        0 <= ch < s.channels.len(),
    ensures
        kept(s, vibrato(s, t, ch, id, cell, was)),
{
    let plain = Cell { effect: None, ..cell };
    if cell.effect == Some(VIBRATO_VOLSLIDE) {
        lemma_volume_slid(vibrato(s, t, ch, id, plain, was), t, ch, id, cell, was.sliding);
    }
}

proof fn lemma_tremolo(s: SimView, t: RowTime, ch: int, id: usize, cell: Cell, was: bool)
    requires
        levels_fit(s),
        0 <= ch < s.channels.len(),
    ensures
        kept(s, tremolo(s, t, ch, id, cell, was)),
{
    let after = tremolo(s, t, ch, id, cell, was);
    assert forall|i: int| 0 <= i < after.volumes.len() implies 0 <= (
    #[trigger] after.volumes[i]).1.tracker_volume <= 64 by {
        if i < s.volumes.len() {
            assert(after.volumes[i] == s.volumes[i]);
        }
    }
}

proof fn lemma_retriggered(
    s: SimView,
    t: RowTime,
    ch: int,
    cell: Cell,
    index: u32,
    sample: SampleView,
    pitch: i32,
    every: u32,
    n: nat,
)
    requires
        levels_fit(s),
        0 <= ch < s.channels.len(),
        cell_fits(cell),
        sample.volume <= 64,
    ensures
        kept(s, retriggered(s, t, ch, cell, index, sample, pitch, every, n)),
    decreases n,
{
    if n > 0 {
        lemma_retriggered(s, t, ch, cell, index, sample, pitch, every, (n - 1) as nat);
    }
}

proof fn lemma_extended(
    s: SimView,
    t: RowTime,
    ch: int,
    id: usize,
    cell: Cell,
    samples: Seq<SampleView>,
)
    requires
        levels_fit(s),
        0 <= ch < s.channels.len(),
        cell_fits(cell),
        samples_fit(samples),
    ensures
        kept(s, extended(s, t, ch, id, cell, samples)),
{
    let param = param_of(cell) % 16;
    assert(kept(s, fine_portamento(s, t, ch, id, true, param)));
    assert(kept(s, fine_portamento(s, t, ch, id, false, param)));
    assert(kept(s, fine_volume(s, t, ch, id, true, param)));
    assert(kept(s, fine_volume(s, t, ch, id, false, param)));
    assert(kept(s, note_cut(s, t, ch, id, param)));
    let current = s.channels[ch].sample;
    if current is Some {
        lemma_found(samples, current->0);
    }
    match playable(samples, current) {
        Some(i) => lemma_retriggered(
            s,
            t,
            ch,
            cell,
            current->0,
            samples[i],
            s.notes[id as int].pitch,
            param,
            t.later_ticks(),
        ),
        None => {},
    }
}

proof fn lemma_effects(
    s: SimView,
    t: RowTime,
    ch: int,
    cell: Cell,
    samples: Seq<SampleView>,
    was: Active,
)
    requires
        levels_fit(s),
        0 <= ch < s.channels.len(),
        cell_fits(cell),
        samples_fit(samples),
    ensures
        kept(s, effects(s, t, ch, cell, samples, was)),
{
    if s.channels[ch].held is Some {
        let id = s.channels[ch].held->0;
        let set = set_directly(s, t, ch, id, cell);
        assert(kept(s, set));
        let s1 = if cell.midi_note is Some && cell.effect != Some(TONE_PORTAMENTO) {
            s
        } else {
            set
        };
        if s1.channels[ch].held is Some {
            let id1 = s1.channels[ch].held->0;
            lemma_volume_slid(s1, t, ch, id1, cell, was.sliding);
            assert(kept(s1, portamento(s1, t, ch, id1, cell, was.bending)));
            lemma_tone_portamento(s1, t, ch, id1, cell, was);
            lemma_vibrato(s1, t, ch, id1, cell, was);
            lemma_tremolo(s1, t, ch, id1, cell, was.tremoloing);
            lemma_extended(s1, t, ch, id1, cell, samples);
            assert(kept(s1, tick_effects(s1, t, ch, id1, cell, samples, was)));
        }
    }
}

proof fn lemma_cell(s: SimView, t: RowTime, ch: int, cell: Cell, samples: Seq<SampleView>)
    requires
        levels_fit(s),
        0 <= ch < s.channels.len(),
        cell_fits(cell),
        samples_fit(samples),
    ensures
        kept(s, step_cell(s, t, ch, cell, samples)),
{
    let was = s.channels[ch].active;
    let c = row_start(s.channels[ch], cell);
    let s1 = s.with_channel(ch, c);
    assert(kept(s, s1));
    lemma_effects(s.with_channel(ch, tone_prepared(c, cell)), t, ch, cell, samples, was);
    lemma_effects(s1, t, ch, cell, samples, was);
    assert(kept(s, released(s1, t, ch, samples)));
    lemma_effects(released(s1, t, ch, samples), t, ch, cell, samples, was);
    if cell.sample_index is Some {
        lemma_found(samples, cell.sample_index->0);
        assert(kept(s, swapped(s1, t, ch, samples, cell.sample_index->0)));
        lemma_effects(
            swapped(s1, t, ch, samples, cell.sample_index->0),
            t,
            ch,
            cell,
            samples,
            was,
        );
    }
    if c.sample is Some {
        lemma_found(samples, c.sample->0);
    }
    match playable(samples, c.sample) {
        Some(i) => {
            assert(samples[i].volume <= 64);
            if cell.midi_note is Some {
                let pitch = cell.midi_note->0;
                let s2 = triggered(s1, t, 0, ch, cell, c.sample->0, samples[i], pitch);
                assert(kept(s, s2));
                lemma_effects(s2, t, ch, cell, samples, idle());
            }
        },
        None => {},
    }
}

proof fn lemma_row(s: SimView, t: RowTime, cells: Seq<Cell>, samples: Seq<SampleView>)
    requires
        levels_fit(s),
        cells.len() <= s.channels.len(),
        forall|i: int| 0 <= i < cells.len() ==> cell_fits(#[trigger] cells[i]),
        samples_fit(samples),
    ensures
        kept(s, step_row(s, t, cells, samples)),
    decreases cells.len(),
{
    if cells.len() > 0 {
        let d = cells.drop_last();
        assert forall|i: int| 0 <= i < d.len() implies cell_fits(#[trigger] d[i]) by {
            assert(d[i] == cells[i]);
        }
        lemma_row(s, t, d, samples);
        lemma_cell(step_row(s, t, d, samples), t, cells.len() - 1, cells.last(), samples);
    }
}

/// Where no sample and no cell of the song gives a volume beyond 64, no slide, tremolo or cut
/// leads to one outside 0..=64, however long it goes on.
pub proof fn law_volumes_stay_in_range(m: ModuleView, rows: Seq<SongRowView>)
    requires
        forall|k: int|
            0 <= k < rows.len() ==> (#[trigger] rows[k]).row.len() <= m.num_channels,
        forall|k: int, i: int|
            0 <= k < rows.len() && 0 <= i < rows[k].row.len() ==> cell_fits(
                #[trigger] rows[k].row[i],
            ),
        samples_fit(m.samples),
    ensures
        levels_fit(sim_rows(m, rows)),
        sim_rows(m, rows).channels.len() == m.num_channels,
    decreases rows.len(),
{
    if rows.len() > 0 {
        let d = rows.drop_last();
        assert forall|k: int| 0 <= k < d.len() implies (#[trigger] d[k]).row.len()
            <= m.num_channels by {
            assert(d[k] == rows[k]);
        }
        assert forall|k: int, i: int| 0 <= k < d.len() && 0 <= i < d[k].row.len() implies cell_fits(
            #[trigger] d[k].row[i],
        ) by {
            assert(d[k] == rows[k]);
            assert(cell_fits(rows[k].row[i]));
        }
        law_volumes_stay_in_range(m, d);
        let last = rows[rows.len() - 1];
        assert forall|i: int| 0 <= i < last.row.len() implies cell_fits(#[trigger] last.row[i]) by {
            assert(cell_fits(rows[rows.len() - 1].row[i]));
        }
        lemma_row(sim_rows(m, d), last_row_time(m, rows), last.row, m.samples);
    }
}

} // verus!
