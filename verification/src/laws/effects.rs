//! What the effects of a cell do to the note that sounds on its channel.
use crate::export::simulate::{
    close_rest, released, sample_at, sine, slid, step_cell, tremolo_offset, triggered, BendStep,
    Channel, EnvelopeLevel, PanChange, PitchBend, RowTime, SimView, VolumeChange,
};
use crate::export::time::Moment;
use crate::formats::base::{Cell, EnvelopeView, SampleView};
use vstd::prelude::*;

verus! {

/// A note sounds on the channel.
pub open spec fn sounds(s: SimView, ch: int, id: usize) -> bool {
    &&& s.wf()
    &&& 0 <= ch < s.channels.len()
    &&& s.channels[ch].held == Some(id)
    &&& id < s.notes.len()
}

/// A cell with nothing but an effect.
pub open spec fn effect_cell(effect: u32, param: u32) -> Cell {
    Cell {
        sample_index: None,
        midi_note: None,
        volume: None,
        effect: Some(effect),
        effect_param: Some(param),
        note_off: false,
    }
}

/// A tick of the row.
pub open spec fn tick_of(t: RowTime, tick: int) -> Moment {
    Moment { row: t.row, tick: tick as u32, speed: t.tempo.speed }
}

/// Set Volume sets the volume when the row starts, at most to 64; 0 ends the note then.
pub proof fn law_set_volume_sets_the_volume(
    s: SimView,
    t: RowTime,
    ch: int,
    id: usize,
    x: u32,
    samples: Seq<SampleView>,
)
    requires
        sounds(s, ch, id),
    ensures
        ({
            let r = step_cell(s, t, ch, effect_cell(12, x), samples);
            let v = if x > 64 {
                64
            } else {
                x as int
            };
            &&& x == 0 ==> r.channels[ch].held is None && r.notes[id as int].close == tick_of(t, 0)
                && r.volumes == s.volumes
            &&& x > 0 ==> {
                &&& r.channels[ch].held == Some(id)
                &&& r.channels[ch].volume == v
                &&& r.volumes.len() == s.volumes.len() + 1
                &&& r.volumes.last() == (
                    id,
                    VolumeChange {
                        at: tick_of(t, 0),
                        tracker_volume: v as i32,
                        glide: false,
                    },
                )
                &&& r.notes[id as int].close == s.notes[id as int].close
            }
            &&& r.bends == s.bends && r.pans == s.pans && r.notes.len() == s.notes.len()
        }),
{
}

/// Set Panning pans the note when the row starts.
pub proof fn law_set_panning_pans(
    s: SimView,
    t: RowTime,
    ch: int,
    id: usize,
    x: u32,
    samples: Seq<SampleView>,
)
    requires
        sounds(s, ch, id),
    ensures
        ({
            let r = step_cell(s, t, ch, effect_cell(8, x), samples);
            &&& r.pans == s.pans.push((id, PanChange { at: tick_of(t, 0), param: x }))
            &&& r.volumes == s.volumes && r.bends == s.bends && r.notes == s.notes
        }),
{
}

proof fn lemma_slid_volume(
    s: SimView,
    t: RowTime,
    ch: int,
    id: usize,
    delta: int,
    was: bool,
    n: nat,
)
    requires
        0 <= ch < s.channels.len(),
        id < s.notes.len(),
        0 <= s.channels[ch].volume <= 64,
    ensures
        ({
            let r = slid(s, t, ch, id, delta, was, n);
            let v = s.channels[ch].volume + n * delta;
            &&& r.channels.len() == s.channels.len()
            &&& r.notes.len() == s.notes.len()
            &&& r.channels[ch].volume == if v < 0 {
                0
            } else if v > 64 {
                64
            } else {
                v
            }
            &&& r.channels[ch].held == s.channels[ch].held
            &&& r.bends == s.bends
        }),
    decreases n,
{
    if n > 0 {
        lemma_slid_volume(s, t, ch, id, delta, was, (n - 1) as nat);
        let m = n - 1;
        let v = s.channels[ch].volume;
        assert(n * delta == m * delta + delta) by (nonlinear_arith)
            requires
                m == n - 1,
        ;
        assert(delta >= 0 ==> m * delta >= 0) by (nonlinear_arith)
            requires
                m >= 0,
        ;
        assert(delta <= 0 ==> m * delta <= 0) by (nonlinear_arith)
            requires
                m >= 0,
        ;
    } else {
        assert(0 * delta == 0);
    }
}

/// A Volume Slide moves the volume on every tick of the row but the first: up by the high digit
/// of its parameter, or else down by the low one; and no further than 64 and 0.
pub proof fn law_volume_slides_move_the_volume(
    s: SimView,
    t: RowTime,
    ch: int,
    id: usize,
    up: u32,
    down: u32,
    samples: Seq<SampleView>,
)
    requires
        sounds(s, ch, id),
        0 <= s.channels[ch].volume <= 64,
        t.tempo.speed > 0,
        up < 16,
        down < 16,
        up > 0 || down > 0,
    ensures
        ({
            let r = step_cell(s, t, ch, effect_cell(10, (16 * up + down) as u32), samples);
            let v = s.channels[ch].volume;
            let ticks = t.tempo.speed - 1;
            &&& up > 0 ==> r.channels[ch].volume == if v + ticks * up > 64 {
                64
            } else {
                v + ticks * up
            }
            &&& up == 0 ==> r.channels[ch].volume == if v - ticks * down < 0 {
                0
            } else {
                v - ticks * down
            }
            &&& r.channels[ch].held == Some(id)
            &&& r.bends == s.bends
        }),
{
    let x = (16 * up + down) as u32;
    assert(x / 16 % 16 == up && x % 16 == down);
    let cell = effect_cell(10, x);
    let was = s.channels[ch].active;
    let c = crate::export::simulate::row_start(s.channels[ch], cell);
    let s1 = s.with_channel(ch, c);
    let s2 = s1.with_channel(ch, Channel { volslide: x, ..c });
    let delta = if up > 0 {
        up as int
    } else {
        -(down as int)
    };
    let n = (t.tempo.speed - 1) as nat;
    lemma_slid_volume(s2, t, ch, id, delta, was.sliding, n);
    assert(s1.channels[ch] == c);
    assert(n * delta == if up > 0 {
        n * up
    } else {
        -(n * down)
    }) by (nonlinear_arith)
        requires
            delta == if up > 0 {
                up as int
            } else {
                -(down as int)
            },
    ;
    assert(up > 0 ==> n * up >= 0) by (nonlinear_arith);
    assert(n * down >= 0) by (nonlinear_arith);
}

/// An effect without a parameter goes on with the one it had last: Volume Slide, Portamento Up
/// and Portamento Down, each with its own.
pub proof fn law_effects_remember(
    s: SimView,
    t: RowTime,
    ch: int,
    id: usize,
    samples: Seq<SampleView>,
)
    requires
        sounds(s, ch, id),
    ensures
        step_cell(s, t, ch, effect_cell(10, 0), samples) == step_cell(
            s,
            t,
            ch,
            effect_cell(10, s.channels[ch].volslide),
            samples,
        ),
        step_cell(s, t, ch, effect_cell(1, 0), samples) == step_cell(
            s,
            t,
            ch,
            effect_cell(1, s.channels[ch].up_speed),
            samples,
        ),
        step_cell(s, t, ch, effect_cell(2, 0), samples) == step_cell(
            s,
            t,
            ch,
            effect_cell(2, s.channels[ch].down_speed),
            samples,
        ),
{
}

/// The bend points of note `id` that a row adds: one for every tick but the first.
pub open spec fn bends_every_tick(
    s: SimView,
    r: SimView,
    t: RowTime,
    id: usize,
    step: spec_fn(int) -> BendStep,
) -> bool {
    &&& r.bends.len() == s.bends.len() + t.tempo.speed - 1
    &&& forall|k: int|
        0 <= k < s.bends.len() ==> #[trigger] r.bends[k] == s.bends[k]
    &&& forall|k: int|
        s.bends.len() <= k < r.bends.len() ==> {
            let tick = k - s.bends.len() + 1;
            &&& (#[trigger] r.bends[k]).0 == id
            &&& r.bends[k].1.at == tick_of(t, tick)
            &&& r.bends[k].1.step == step(tick)
        }
}

/// Portamento Up makes the period smaller by its parameter on every tick of the row but the
/// first, which raises the pitch, and Portamento Down makes it larger.
pub proof fn law_portamento_moves_the_period(
    s: SimView,
    t: RowTime,
    ch: int,
    id: usize,
    x: u32,
    samples: Seq<SampleView>,
)
    requires
        sounds(s, ch, id),
        t.tempo.speed > 0,
        x > 0,
    ensures
        bends_every_tick(
            s,
            step_cell(s, t, ch, effect_cell(1, x), samples),
            t,
            id,
            |k: int| BendStep::Slide { delta: -(x as int) as i64 },
        ),
        bends_every_tick(
            s,
            step_cell(s, t, ch, effect_cell(2, x), samples),
            t,
            id,
            |k: int| BendStep::Slide { delta: x as i64 },
        ),
        step_cell(s, t, ch, effect_cell(1, x), samples).notes == s.notes,
        step_cell(s, t, ch, effect_cell(2, x), samples).volumes == s.volumes,
{
}

/// Tone Portamento starts no note: the note that sounds goes on, and its period moves toward that
/// of the cell's note by four times the parameter on every tick but the first.
pub proof fn law_tone_portamento_goes_to_its_note(
    s: SimView,
    t: RowTime,
    ch: int,
    id: usize,
    note: i32,
    x: u32,
    samples: Seq<SampleView>,
)
    requires
        sounds(s, ch, id),
        t.tempo.speed > 0,
        x > 0,
    ensures
        ({
            let cell = Cell { midi_note: Some(note), ..effect_cell(3, x) };
            let r = step_cell(s, t, ch, cell, samples);
            &&& r.notes == s.notes
            &&& r.channels[ch].held == Some(id)
            &&& bends_every_tick(
                s,
                r,
                t,
                id,
                |k: int| BendStep::Toward { note, step: (4 * x) as u64 },
            )
        }),
{
}

/// Vibrato swings the pitch on every tick of the row but the first: on each, the phase moves on by
/// four times the high digit, in 256ths of a turn, and the low digit is how far it swings.
pub proof fn law_vibrato_swings_the_pitch(
    s: SimView,
    t: RowTime,
    ch: int,
    id: usize,
    speed: u32,
    depth: u32,
    samples: Seq<SampleView>,
)
    requires
        sounds(s, ch, id),
        t.tempo.speed > 0,
        0 < speed < 16,
        0 < depth < 16,
    ensures
        bends_every_tick(
            s,
            step_cell(s, t, ch, effect_cell(4, (16 * speed + depth) as u32), samples),
            t,
            id,
            |k: int|
                BendStep::Vibrato {
                    pos: ((s.channels[ch].vibrato_pos + 4 * speed * k) % 256) as u32,
                    depth,
                },
        ),
        step_cell(s, t, ch, effect_cell(4, (16 * speed + depth) as u32), samples).volumes
            == s.volumes,
{
    let x = (16 * speed + depth) as u32;
    assert(x / 16 % 16 == speed && x % 16 == depth);
    let r = step_cell(s, t, ch, effect_cell(4, x), samples);
    assert forall|k: int| s.bends.len() <= k < r.bends.len() implies (
    #[trigger] r.bends[k]).1.step == (BendStep::Vibrato {
        pos: ((s.channels[ch].vibrato_pos + 4 * speed * (k - s.bends.len() + 1)) % 256) as u32,
        depth,
    }) by {
        let n = k - s.bends.len() + 1;
        assert(n * (4 * speed) == 4 * speed * n) by (nonlinear_arith);
    }
}

/// An Arpeggio sounds the note and two above it in turn: counted back from the end of the row, the
/// last tick has the one of the high digit, the one before that of the low digit, the one before
/// the note itself, and so on.
pub proof fn law_arpeggios_take_turns(
    s: SimView,
    t: RowTime,
    ch: int,
    id: usize,
    high: u32,
    low: u32,
    samples: Seq<SampleView>,
)
    requires
        sounds(s, ch, id),
        0 < t.tempo.speed <= 16,
        high < 16,
        low < 16,
        high > 0 || low > 0,
    ensures
        bends_every_tick(
            s,
            step_cell(s, t, ch, effect_cell(0, (16 * high + low) as u32), samples),
            t,
            id,
            |k: int|
                BendStep::Arpeggio {
                    semitones: if (t.tempo.speed - k) % 3 == 1 {
                        high
                    } else if (t.tempo.speed - k) % 3 == 2 {
                        low
                    } else {
                        0
                    },
                },
        ),
{
    let x = (16 * high + low) as u32;
    assert(x / 16 % 16 == high && x % 16 == low);
}

/// The swing of a Tremolo: nothing at the start and the middle of a turn, up in the first half of
/// it and down in the second by the same, and at most, a quarter into the turn, almost four
/// volumes for each step of the depth.
pub proof fn law_tremolo_swings_evenly(pos: u32, depth: u32)
    requires
        pos < 128,
        depth < 16,
    ensures
        tremolo_offset(0, depth) == 0,
        tremolo_offset(pos, 0) == 0,
        tremolo_offset((pos + 128) as u32, depth) == -tremolo_offset(pos, depth),
        0 <= tremolo_offset(pos, depth) <= tremolo_offset(64, depth),
        -32 <= 64 * tremolo_offset(64, depth) - 255 * depth <= 32,
{
    let i = pos as int / 4;
    let s = sine(i);
    assert(sine(i + 32) == -s) by {
        assert(i == 0 || i == 1 || i == 2 || i == 3 || i == 4 || i == 5 || i == 6 || i == 7
            || i == 8
            || i == 9 || i == 10 || i == 11 || i == 12 || i == 13 || i == 14 || i == 15 || i == 16
            || 16 < i < 32);
    }
    assert(0 <= s <= 1073741824 && sine(0) == 0 && sine(16) == 1073741824);
    assert(255 * depth * s <= 255 * depth * 1073741824 && 255 * depth * s >= 0 && 255 * depth * -s
        == -(255 * depth * s)) by (nonlinear_arith)
        requires
            0 <= s <= 1073741824,
            0 <= depth,
    ;
    assert((pos + 128) / 4 == i + 32);
    assert(255 * depth * 0 == 0) by (nonlinear_arith);
    assert(255 * 0 * s == 0) by (nonlinear_arith);
}

/// Fine Portamento moves the period once, when the row starts, by four times its digit: E1x up,
/// E2x down.
pub proof fn law_fine_portamento_moves_once(
    s: SimView,
    t: RowTime,
    ch: int,
    id: usize,
    x: u32,
    samples: Seq<SampleView>,
)
    requires
        sounds(s, ch, id),
        0 < x < 16,
    ensures
        step_cell(s, t, ch, effect_cell(14, (0x10 + x) as u32), samples).bends == s.bends.push(
            (
                id,
                PitchBend {
                    at: tick_of(t, 0),
                    step: BendStep::Slide { delta: (-4 * x) as i64 },
                    glide: false,
                },
            ),
        ),
        step_cell(s, t, ch, effect_cell(14, (0x20 + x) as u32), samples).bends == s.bends.push(
            (
                id,
                PitchBend {
                    at: tick_of(t, 0),
                    step: BendStep::Slide { delta: (4 * x) as i64 },
                    glide: false,
                },
            ),
        ),
{
    let up = step_cell(s, t, ch, effect_cell(14, (0x10 + x) as u32), samples);
    let down = step_cell(s, t, ch, effect_cell(14, (0x20 + x) as u32), samples);
    assert((0x10 + x) / 16 % 16 == 1 && (0x10 + x) % 16 == x);
    assert((0x20 + x) / 16 % 16 == 2 && (0x20 + x) % 16 == x);
    assert(up.bends =~= s.bends.push(up.bends.last()));
    assert(down.bends =~= s.bends.push(down.bends.last()));
}

/// A Fine Volume Slide moves the volume once, when the row starts: EAx up, EBx down. A Note Cut,
/// ECx, silences the note from tick x on.
pub proof fn law_fine_slides_and_cuts(
    s: SimView,
    t: RowTime,
    ch: int,
    id: usize,
    x: u32,
    samples: Seq<SampleView>,
)
    requires
        sounds(s, ch, id),
        0 < x < 16,
        0 <= s.channels[ch].volume <= 64,
    ensures
        ({
            let up = step_cell(s, t, ch, effect_cell(14, (0xA0 + x) as u32), samples);
            let v = s.channels[ch].volume + x;
            let w = if v > 64 {
                64
            } else {
                v
            };
            &&& up.channels[ch].volume == w
            &&& up.volumes.last().1.tracker_volume == w
            &&& up.volumes.last().1.at == tick_of(t, 0)
            &&& up.volumes.last().0 == id
        }),
        ({
            let down = step_cell(s, t, ch, effect_cell(14, (0xB0 + x) as u32), samples);
            let v = s.channels[ch].volume - x;
            let w = if v < 0 {
                0
            } else {
                v
            };
            &&& down.channels[ch].volume == w
            &&& down.volumes.last().1.tracker_volume == w
            &&& down.volumes.last().1.at == tick_of(t, 0)
            &&& down.volumes.last().0 == id
        }),
        ({
            let cut = step_cell(s, t, ch, effect_cell(14, (0xC0 + x) as u32), samples);
            if x < t.tempo.speed {
                &&& cut.channels[ch].volume == 0
                &&& cut.channels[ch].held == Some(id)
                &&& cut.volumes.last() == (
                    id,
                    VolumeChange { at: tick_of(t, x as int), tracker_volume: 0, glide: false },
                )
            } else {
                cut.volumes == s.volumes && cut.channels[ch].volume == s.channels[ch].volume
            }
        }),
{
    assert((0xA0 + x) / 16 % 16 == 10 && (0xA0 + x) % 16 == x);
    assert((0xB0 + x) / 16 % 16 == 11 && (0xB0 + x) % 16 == x);
    assert((0xC0 + x) / 16 % 16 == 12 && (0xC0 + x) % 16 == x);
}

/// Key Off releases a note without ending it: from then on its envelopes run on. A second one does
/// nothing more.
pub proof fn law_key_off_releases(
    s: SimView,
    t: RowTime,
    ch: int,
    id: usize,
    samples: Seq<SampleView>,
)
    requires
        sounds(s, ch, id),
    ensures
        ({
            let cell = Cell {
                sample_index: None,
                midi_note: None,
                volume: None,
                effect: None,
                effect_param: None,
                note_off: true,
            };
            let r = step_cell(s, t, ch, cell, samples);
            &&& r.channels[ch].held == Some(id)
            &&& r.notes[id as int].close == s.notes[id as int].close
            &&& s.notes[id as int].release is None ==> r.notes[id as int].release == Some(
                tick_of(t, 0),
            )
            &&& s.notes[id as int].release is Some ==> r.notes == s.notes && r.envelope_volumes
                == s.envelope_volumes
            &&& r.volumes == s.volumes && r.bends == s.bends
        }),
{
}

/// A sample number by itself gives the note that sounds the volume of that sample, and the next
/// note its sound.
pub proof fn law_sample_numbers_reset_the_volume(
    s: SimView,
    t: RowTime,
    ch: int,
    id: usize,
    k: int,
    samples: Seq<SampleView>,
)
    requires
        sounds(s, ch, id),
        0 <= k < samples.len(),
        samples[k].volume <= 64,
        forall|j: int|
            0 <= j < samples.len() && j != k ==> (#[trigger] samples[j]).index != samples[k].index,
    ensures
        ({
            let cell = Cell {
                sample_index: Some(samples[k].index),
                midi_note: None,
                volume: None,
                effect: None,
                effect_param: None,
                note_off: false,
            };
            let r = step_cell(s, t, ch, cell, samples);
            &&& r.channels[ch].volume == samples[k].volume
            &&& r.channels[ch].sample == Some(samples[k].index)
            &&& r.channels[ch].held == Some(id)
            &&& r.notes.len() == s.notes.len()
            &&& r.volumes.last() == (
                id,
                VolumeChange {
                    at: tick_of(t, 0),
                    tracker_volume: samples[k].volume as i32,
                    glide: false,
                },
            )
        }),
{
    lemma_only(samples, k);
}

proof fn lemma_only(samples: Seq<SampleView>, k: int)
    requires
        0 <= k < samples.len(),
        forall|j: int|
            0 <= j < samples.len() && j != k ==> (#[trigger] samples[j]).index != samples[k].index,
    ensures
        sample_at(samples, samples[k].index) == Some(k),
    decreases samples.len(),
{
    let d = samples.drop_last();
    if k < d.len() {
        assert(samples.last() == samples[samples.len() - 1]);
        assert forall|j: int| 0 <= j < d.len() && j != k implies (#[trigger] d[j]).index
            != d[k].index by {
            assert(samples[j].index != samples[k].index);
        }
        lemma_only(d, k);
    }
}

/// A new note on a channel ends the one before it when it starts.
pub proof fn law_new_notes_end_old_ones(
    s: SimView,
    t: RowTime,
    ch: int,
    id: usize,
    pitch: i32,
    k: int,
    samples: Seq<SampleView>,
)
    requires
        sounds(s, ch, id),
        s.notes.len() < usize::MAX,
        0 <= k < samples.len(),
        samples[k].pcm16.len() > 0,
        forall|j: int|
            0 <= j < samples.len() && j != k ==> (#[trigger] samples[j]).index != samples[k].index,
    ensures
        ({
            let cell = Cell {
                sample_index: Some(samples[k].index),
                midi_note: Some(pitch),
                volume: None,
                effect: None,
                effect_param: None,
                note_off: false,
            };
            let r = step_cell(s, t, ch, cell, samples);
            &&& r.notes.len() == s.notes.len() + 1
            &&& r.channels[ch].held == Some(s.notes.len() as usize)
            &&& r.notes[id as int].close == tick_of(t, 0)
            &&& r.notes.last().start == tick_of(t, 0)
            &&& r.notes.last().pitch == pitch
            &&& r.notes.last().channel as int == ch as usize as int
            &&& r.notes.last().sample == samples[k].index
        }),
{
    lemma_only(samples, k);
    assert(samples[k].index == samples[k].index && !samples[k].is_empty());
}

/// When the song ends, the notes that still sound end with it, and no other note is touched.
pub proof fn law_the_end_ends_all_notes(s: SimView, rows: usize, n: int, ch: int)
    requires
        s.wf(),
        0 <= ch < n <= s.channels.len(),
    ensures
        s.channels[ch].held matches Some(id) ==> close_rest(s, rows, n).notes[id as int].close == (
        Moment { row: rows, tick: 0, speed: 1 }),
        close_rest(s, rows, n).notes.len() == s.notes.len(),
    decreases n,
{
    assert(s.channels[n - 1].wf(s.notes.len()));
    assert(s.channels[ch].wf(s.notes.len()));
    if ch < n - 1 {
        law_the_end_ends_all_notes(s, rows, n - 1, ch);
    } else {
        lemma_rest_len(s, rows, n - 1);
    }
}

proof fn lemma_rest_len(s: SimView, rows: usize, n: int)
    requires
        s.wf(),
        n <= s.channels.len(),
    ensures
        close_rest(s, rows, n).notes.len() == s.notes.len(),
    decreases n,
{
    if n > 0 {
        lemma_rest_len(s, rows, n - 1);
    }
}

/// The points of an envelope behind a place of a log are those of a note: as many as `n`, each
/// with its level, at its tick counted from `zero`, and glided to but for the first of an attack.
pub open spec fn logs_points(
    log: Seq<(usize, EnvelopeLevel)>,
    at: int,
    id: int,
    env: EnvelopeView,
    first: int,
    n: int,
    zero: int,
    from: Moment,
) -> bool {
    &&& log.len() == at + n
    &&& forall|k: int|
        0 <= k < n ==> {
            let (note, level) = #[trigger] log[at + k];
            &&& note == id
            &&& level.value == env.points[first + k].value
            &&& level.ticks == env.points[first + k].tick - zero
            &&& level.from == from
            &&& level.glide <==> first + k > 0
        }
}

/// A new note starts the envelopes of its sample: volume and panning each run through their
/// points up to the one that is held, or all of them where none is.
pub proof fn law_new_notes_start_their_envelopes(
    s: SimView,
    t: RowTime,
    tick: u32,
    ch: int,
    cell: Cell,
    sample: SampleView,
    pitch: i32,
)
    requires
        0 <= ch < s.channels.len(),
        s.notes.len() <= usize::MAX,
    ensures
        ({
            let r = triggered(s, t, tick, ch, cell, sample.index, sample, pitch);
            let from = tick_of(t, tick as int);
            let held = |e: EnvelopeView|
                match e.sustain_point {
                    Some(p) => p + 1,
                    None => e.points.len() as int,
                };
            let v = s.envelope_volumes.len() as int;
            let p = s.envelope_pans.len() as int;
            let id = s.notes.len() as int;
            &&& s.envelope_volumes.is_prefix_of(r.envelope_volumes)
            &&& s.envelope_pans.is_prefix_of(r.envelope_pans)
            &&& sample.volume_envelope matches Some(e) ==> logs_points(
                r.envelope_volumes,
                v,
                id,
                e,
                0,
                held(e),
                0,
                from,
            )
            &&& sample.panning_envelope matches Some(e) ==> logs_points(
                r.envelope_pans,
                p,
                id,
                e,
                0,
                held(e),
                0,
                from,
            )
            &&& sample.volume_envelope is None ==> r.envelope_volumes == s.envelope_volumes
            &&& sample.panning_envelope is None ==> r.envelope_pans == s.envelope_pans
        }),
{
}

/// A release lets the envelopes run on from the point that was held, at the times that their
/// points have behind it.
pub proof fn law_releases_run_the_envelopes_on(
    s: SimView,
    t: RowTime,
    ch: int,
    id: usize,
    k: int,
    samples: Seq<SampleView>,
)
    requires
        sounds(s, ch, id),
        s.notes[id as int].release is None,
        0 <= k < samples.len(),
        s.channels[ch].sample == Some(samples[k].index),
        forall|j: int|
            0 <= j < samples.len() && j != k ==> (#[trigger] samples[j]).index != samples[k].index,
    ensures
        ({
            let r = released(s, t, ch, samples);
            let from = tick_of(t, 0);
            let v = s.envelope_volumes.len() as int;
            let p = s.envelope_pans.len() as int;
            &&& s.envelope_volumes.is_prefix_of(r.envelope_volumes)
            &&& s.envelope_pans.is_prefix_of(r.envelope_pans)
            &&& samples[k].volume_envelope matches Some(e) ==> (e.sustain_point matches Some(h)
                ==> h
                < e.points.len() ==> logs_points(
                r.envelope_volumes,
                v,
                id as int,
                e,
                h + 1,
                e.points.len() - h - 1,
                e.points[h as int].tick as int,
                from,
            ))
            &&& samples[k].panning_envelope matches Some(e) ==> (e.sustain_point matches Some(h)
                ==> h < e.points.len() ==> logs_points(
                r.envelope_pans,
                p,
                id as int,
                e,
                h + 1,
                e.points.len() - h - 1,
                e.points[h as int].tick as int,
                from,
            ))
        }),
{
    lemma_only(samples, k);
}

/// A new note swings from the beginning, and the channel keeps what its effects have remembered.
/// Without a loop it plays out after the frames of its sample, at the sample's rate and the tempo
/// at that time; with one it does not. What other channels play goes on.
pub proof fn law_new_notes_begin_afresh(
    s: SimView,
    t: RowTime,
    tick: u32,
    ch: int,
    cell: Cell,
    sample: SampleView,
    pitch: i32,
)
    requires
        0 <= ch < s.channels.len(),
        s.wf(),
        s.notes.len() <= usize::MAX,
        sample.pcm16.len() / 2 <= u64::MAX,
    ensures
        ({
            let r = triggered(s, t, tick, ch, cell, sample.index, sample, pitch);
            let (c, d) = (s.channels[ch], r.channels[ch]);
            let note = r.notes.last();
            &&& r.notes.len() == s.notes.len() + 1
            &&& d.held == Some(s.notes.len() as usize)
            &&& d.vibrato_pos == 0 && d.tremolo_pos == 0
            &&& d.vibrato_speed == c.vibrato_speed && d.vibrato_depth == c.vibrato_depth
            &&& d.tremolo_speed == c.tremolo_speed && d.tremolo_depth == c.tremolo_depth
            &&& d.up_speed == c.up_speed && d.down_speed == c.down_speed
            &&& d.volslide == c.volslide && d.tone_step == c.tone_step
            &&& d.sample == c.sample && d.active == c.active
            &&& sample.loop_length > 0 ==> note.natural is None
            &&& sample.loop_length == 0 ==> (note.natural matches Some(len) && len.frames
                == sample.pcm16.len() / 2 && len.rate_hz == sample.sample_rate_hz
                && len.tracker_bpm == t.tempo.tracker_bpm)
            &&& note.sample == sample.index && note.pitch == pitch
            &&& note.channel == ch as usize
            &&& note.release is None
            &&& forall|o: int|
                0 <= o < s.channels.len() && o != ch ==> #[trigger] r.channels[o] == s.channels[o]
        }),
{
    assert(s.channels[ch].wf(s.notes.len()));
}

} // verus!
