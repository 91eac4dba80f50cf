//! What the registers of an SCC say, and what is played of it.
use crate::export::clock::law_nearest_is_near;
use crate::export::pace::Pace;
use crate::export::vgm_wavetable::{
    channel_track, group_end, key_of, keys, lemma_group_end, merged_from, note_at,
    registers, span_note, spans_of, track_of_spans, unplayed, written_soon, PlayedView, Registers,
    SpanView,
};
use crate::formats::vgm::{Chip, RegisterWrite};
use vstd::prelude::*;

verus! {

/// What a write to an SCC does to a channel: port 0 holds the waveforms, 32 signed bytes for
/// each of the first four channels, the fifth sharing the fourth's; port 1 the frequencies, a low
/// byte and four high bits; port 2 the volumes, of four bits. Nothing else touches the channel.
pub proof fn law_scc_registers_are_written(r: Registers, ch: int, w: RegisterWrite)
    requires
        0 <= ch < 5,
        r.waveform.len() == 32,
        r.freq < 4096,
    ensures
        ({
            let s = r.write(ch, w);
            let block = if ch == 4 {
                3
            } else {
                ch
            };
            let scc = w.chip == Chip::Scc;
            let wave = scc && w.port == 0 && 32 * block <= w.reg as int % 128 < 32 * block + 32;
            let low = scc && w.port == 1 && w.reg == 2 * ch;
            let high = scc && w.port == 1 && w.reg == 2 * ch + 1;
            let volume = scc && w.port == 2 && w.reg == ch;
            &&& s.waveform.len() == 32
            &&& forall|i: int|
                0 <= i < 32 ==> #[trigger] s.waveform[i] == if wave && w.reg as int % 128 == 32
                    * block + i {
                    if w.value < 128 {
                        w.value as int
                    } else {
                        w.value - 256
                    }
                } else {
                    r.waveform[i] as int
                }
            &&& s.freq as int % 256 == if low {
                w.value as int
            } else {
                r.freq as int % 256
            }
            &&& s.freq as int / 256 == if high {
                w.value as int % 16
            } else {
                r.freq as int / 256
            }
            &&& s.volume == if volume {
                w.value as int % 16
            } else {
                r.volume as int
            }
        }),
{
    let reg = w.reg as int;
    assert(reg % 128 % 32 == reg % 32);
    let block = reg % 128 / 32;
    assert(block == 0 || block == 1 || block == 2 || block == 3);
    assert(reg % 128 == 32 * block + reg % 32);
}

/// A channel is at rest with no waveform, no frequency and full volume.
pub proof fn law_scc_channels_begin_at_rest(writes: Seq<RegisterWrite>, ch: int, i: int)
    requires
        0 <= i < 32,
    ensures
        registers(writes, ch, 0).waveform.len() == 32,
        registers(writes, ch, 0).waveform[i] == 0,
        registers(writes, ch, 0).freq == 0,
        registers(writes, ch, 0).volume == 15,
{
}

/// The bits of the key register, one for each channel, the first in the lowest bit; of several
/// writes at a time the last one counts.
pub proof fn law_scc_keys_are_bits(writes: Seq<RegisterWrite>, i: int, j: int, mask: u8)
    requires
        0 <= i < j <= writes.len(),
    ensures
        key_of(mask, 0) <==> mask as int % 2 >= 1,
        key_of(mask, 1) <==> mask as int % 4 >= 2,
        key_of(mask, 2) <==> mask as int % 8 >= 4,
        key_of(mask, 3) <==> mask as int % 16 >= 8,
        key_of(mask, 4) <==> mask as int % 32 >= 16,
        ({
            let w = writes[j - 1];
            let key = w.chip == Chip::Scc && w.port == 3 && w.reg == 0;
            keys(writes, i, j) == if key {
                Some(w.value)
            } else {
                keys(writes, i, j - 1)
            }
        }),
        keys(writes, i, i) is None,
{
}

/// A note of a channel has the pitch nearest to what the chip was set to when it began, the
/// waveform that was set then, and of 127 what the volume then was of 15.
pub open spec fn begun_by(
    s: SpanView,
    writes: Seq<RegisterWrite>,
    k: int,
    ch: int,
    tones: Seq<i64>,
) -> bool {
    let r = registers(writes, ch, k);
    let tone = tones[r.freq as int];
    &&& r.freq > 8
    &&& s.waveform == r.waveform
    &&& 0 <= s.pitch <= 127
    &&& 0 <= tone <= 127_000_000 ==> -500_000 <= 1_000_000 * s.pitch - tone <= 500_000
    &&& tone < 0 ==> s.pitch == 0
    &&& tone > 127_000_000 ==> s.pitch == 127
    &&& r.volume > 0 ==> 15 * s.velocity <= 127 * r.volume < 15 * s.velocity + 15
    &&& r.volume == 0 ==> s.velocity == 1
    &&& s.bends.len() > 0 && s.bends[0].1 == r.freq
    &&& s.volumes.len() > 0 && s.volumes[0] == (s.bends[0].0, r.volume)
}

spec fn begun(s: SpanView, writes: Seq<RegisterWrite>, ch: int, tones: Seq<i64>) -> bool {
    exists|k: int| #[trigger] begun_by(s, writes, k, ch, tones)
}

spec fn all_begun(p: PlayedView, writes: Seq<RegisterWrite>, ch: int, tones: Seq<i64>) -> bool {
    &&& p.open matches Some(o) ==> begun(o, writes, ch, tones) && o.bends[0].0 == o.start
    &&& forall|i: int|
        0 <= i < p.spans.len() ==> begun(#[trigger] p.spans[i], writes, ch, tones)
            && p.spans[i].bends[0].0 == p.spans[i].start && p.spans[i].start < p.spans[i].end
}

proof fn lemma_opened_begun(
    p: PlayedView,
    writes: Seq<RegisterWrite>,
    k: int,
    at: u64,
    ch: int,
    tones: Seq<i64>,
)
    requires
        all_begun(p, writes, ch, tones),
    ensures
        all_begun(p.opened(registers(writes, ch, k), at, tones), writes, ch, tones),
{
    let r = registers(writes, ch, k);
    let q = p.opened(r, at, tones);
    law_nearest_is_near(tones[r.freq as int] as int, 1_000_000);
    lemma_small_volume(writes, ch, k);
    if r.freq > 8 {
        let o = q.open->0;
        let v = r.volume as int;
        assert(15 * (v * 127 / 15) <= v * 127 < 15 * (v * 127 / 15) + 15);
        assert(v > 0 ==> v * 127 / 15 >= 1);
        assert(begun_by(o, writes, k, ch, tones));
    }
}

proof fn lemma_small_volume(writes: Seq<RegisterWrite>, ch: int, k: int)
    ensures
        registers(writes, ch, k).volume < 16,
    decreases k,
{
    if k > 0 {
        lemma_small_volume(writes, ch, k - 1);
    }
}

proof fn lemma_closed_begun(
    p: PlayedView,
    writes: Seq<RegisterWrite>,
    at: u64,
    ch: int,
    tones: Seq<i64>,
)
    requires
        all_begun(p, writes, ch, tones),
    ensures
        all_begun(p.closed_at(at), writes, ch, tones),
{
    match p.open {
        None => {},
        Some(o) => {
            let k = choose|k: int| #[trigger] begun_by(o, writes, k, ch, tones);
            assert(begun_by(SpanView { end: at, ..o }, writes, k, ch, tones));
        },
    }
}

proof fn lemma_bent_begun(
    p: PlayedView,
    writes: Seq<RegisterWrite>,
    r: Registers,
    at: u64,
    bend: bool,
    change: bool,
    ch: int,
    tones: Seq<i64>,
)
    requires
        all_begun(p, writes, ch, tones),
    ensures
        all_begun(p.bent(r, at, bend, change), writes, ch, tones),
{
    match p.open {
        None => {},
        Some(o) => {
            let k = choose|k: int| #[trigger] begun_by(o, writes, k, ch, tones);
            let q = p.bent(r, at, bend, change).open->0;
            assert(q.bends[0] == o.bends[0]);
            assert(q.volumes[0] == o.volumes[0]);
            assert(begun_by(q, writes, k, ch, tones));
        },
    }
}

proof fn lemma_group_begun(
    p: PlayedView,
    writes: Seq<RegisterWrite>,
    i: int,
    j: int,
    ch: int,
    tones: Seq<i64>,
    soon: bool,
)
    requires
        all_begun(p, writes, ch, tones),
    ensures
        all_begun(
            p.after_group(
                registers(writes, ch, i),
                registers(writes, ch, j),
                keys(writes, i, j),
                ch,
                writes[i].at_sample,
                tones,
                soon,
            ),
            writes,
            ch,
            tones,
        ),
{
    let at = writes[i].at_sample;
    let before = registers(writes, ch, i);
    let r = registers(writes, ch, j);
    let mask = keys(writes, i, j);
    let up = PlayedView { key: true, ..p };
    let down = PlayedView { key: false, ..p };
    lemma_opened_begun(up, writes, j, at, ch, tones);
    lemma_closed_begun(down, writes, at, ch, tones);
    let keyed = p.keyed(r, mask, ch, at, tones);
    assert(all_begun(keyed, writes, ch, tones));
    let frozen = keyed.frozen(r, soon);
    lemma_opened_begun(keyed, writes, j, at, ch, tones);
    let recovered = keyed.recovered(r, at, tones, frozen);
    assert(all_begun(recovered, writes, ch, tones));
    let bend = !frozen && r.freq != recovered.settled;
    let settled = PlayedView {
        settled: if bend {
            r.freq
        } else {
            recovered.settled
        },
        ..recovered
    };
    assert(all_begun(settled, writes, ch, tones));
    lemma_bent_begun(settled, writes, r, at, bend, r.volume != before.volume, ch, tones);
    lemma_closed_begun(settled, writes, at, ch, tones);
    lemma_opened_begun(settled.closed_at(at), writes, j, at, ch, tones);
    match settled.open {
        Some(o) => lemma_opened_begun(settled, writes, j, o.start, ch, tones),
        None => {},
    }
}

proof fn lemma_played_begun(
    p: PlayedView,
    writes: Seq<RegisterWrite>,
    i: int,
    ch: int,
    tones: Seq<i64>,
)
    requires
        0 <= i,
        all_begun(p, writes, ch, tones),
    ensures
        all_begun(p.played(writes, i, ch, tones), writes, ch, tones),
    decreases writes.len() - i,
{
    if i < writes.len() {
        let at = writes[i].at_sample;
        let j = group_end(writes, at, i + 1);
        lemma_group_end(writes, at, i + 1);
        let soon = written_soon(writes, j, ch, at + 200);
        lemma_group_begun(p, writes, i, j, ch, tones, soon);
        lemma_played_begun(
            p.after_group(
                registers(writes, ch, i),
                registers(writes, ch, j),
                keys(writes, i, j),
                ch,
                at,
                tones,
                soon,
            ),
            writes,
            j,
            ch,
            tones,
        );
    }
}

/// Every note that a channel of an SCC plays is the one that its registers were set to when it
/// began, and ends after it began: see `begun_by`.
pub proof fn law_scc_notes_are_what_was_written(
    writes: Seq<RegisterWrite>,
    total_samples: u64,
    ch: int,
    tones: Seq<i64>,
    i: int,
)
    requires
        0 <= i < spans_of(writes, total_samples, ch, tones).len(),
    ensures
        ({
            let s = spans_of(writes, total_samples, ch, tones)[i];
            &&& s.start < s.end
            &&& s.bends[0].0 == s.start
            &&& exists|k: int| #[trigger] begun_by(s, writes, k, ch, tones)
        }),
{
    let p = unplayed().played(writes, 0, ch, tones);
    assert(all_begun(unplayed(), writes, ch, tones));
    lemma_played_begun(unplayed(), writes, 0, ch, tones);
    lemma_closed_begun(p, writes, total_samples, ch, tones);
    assert(begun(spans_of(writes, total_samples, ch, tones)[i], writes, ch, tones));
}

/// A channel that is silent begins a note when its key goes down, and one that plays ends it
/// when the key goes up; while neither the key nor the registers change, nothing does.
pub proof fn law_scc_keys_begin_and_end_notes(
    p: PlayedView,
    r: Registers,
    mask: u8,
    ch: int,
    at: u64,
    tones: Seq<i64>,
)
    requires
        r.freq > 8,
        r.freq == p.settled,
    ensures
        ({
            let q = p.after_group(r, r, Some(mask), ch, at, tones, false);
            &&& !p.key && p.open is None && key_of(mask, ch) ==> q.key && q.spans == p.spans && (
            q.open matches Some(o) && o.start == at && o.pitch == note_at(tones, r.freq))
            &&& p.key && !key_of(mask, ch) ==> !q.key && q.open is None && (p.open matches Some(
                o,
            ) && o.start < at ==> q.spans == p.spans.push(SpanView { end: at, ..p.open->0 }))
            &&& p.key == key_of(mask, ch) && p.open is Some ==> q == p
            &&& p.after_group(r, r, None, ch, at, tones, false) == p
        }),
{
}

/// A time of a song is of its beats what it is of its samples, to the nearest millionth.
pub proof fn law_times_are_beats(pace: Pace, samples: int)
    requires
        pace.wf(),
        0 <= samples,
    ensures
        ({
            let t = pace.micros(samples);
            t < i64::MAX ==> -(pace.samples as int) <= 2 * (pace.samples * t - 1_000_000 * (samples
                * pace.beats)) <= pace.samples
        }),
{
    let num = 1_000_000 * ((2 * samples) * pace.beats);
    let den = 2 * pace.samples;
    law_nearest_is_near(num, den);
    let n = crate::export::clock::nearest(num, den);
    assert(0 <= samples * pace.beats) by (nonlinear_arith)
        requires
            0 <= samples,
    ;
    assert((2 * samples) * pace.beats == 2 * (samples * pace.beats)) by (nonlinear_arith);
    assert(n >= 0) by {
        assert(2 * den * n >= 2 * num - den);
        assert(n >= 0) by (nonlinear_arith)
            requires
                2 * den * n >= -den,
                den > 0,
        ;
    }
    assert(2 * den * n == 4 * (pace.samples * n)) by (nonlinear_arith)
        requires
            den == 2 * pace.samples,
    ;
}

/// The track of a channel has a note for every span, with its pitch and velocity, from its start
/// on; it lasts half of the span, or all but 882 samples where that is longer.
pub proof fn law_scc_tracks_play_their_spans(
    spans: Seq<SpanView>,
    pace: Pace,
    tones: Seq<i64>,
    i: int,
)
    requires
        0 <= i < spans.len(),
        spans[i].start <= spans[i].end,
    ensures
        ({
            let t = track_of_spans(spans, pace, tones);
            let n = spans[i].end - spans[i].start;
            &&& t.notes.len() == spans.len()
            &&& t.notes[i].start == pace.micros(spans[i].start as int)
            &&& t.notes[i].pitch == spans[i].pitch
            &&& t.notes[i].velocity == spans[i].velocity
            &&& n > 2 * 882 ==> t.notes[i].duration == pace.micros(n - 882)
            &&& n <= 2 * 882 ==> t.notes[i].duration == pace.micros_of_halves(n)
        }),
    decreases spans.len(),
{
    lemma_notes(spans, pace, tones, i);
}

proof fn lemma_notes(spans: Seq<SpanView>, pace: Pace, tones: Seq<i64>, i: int)
    requires
        0 <= i < spans.len(),
    ensures
        track_of_spans(spans, pace, tones).notes.len() == spans.len(),
        track_of_spans(spans, pace, tones).notes[i] == span_note(spans[i], pace),
    decreases spans.len(),
{
    if i < spans.len() - 1 {
        lemma_notes(spans.drop_last(), pace, tones, i);
    } else if spans.len() > 1 {
        lemma_notes(spans.drop_last(), pace, tones, 0);
    } else {
        assert(spans.drop_last().len() == 0);
        assert(track_of_spans(spans.drop_last(), pace, tones).notes.len() == 0);
    }
}

/// The last span's bends and gains stand behind those of the spans before: how far each
/// frequency is from the note, and of full gain what each volume is of 15.
pub proof fn law_scc_tracks_bend_and_swell(
    spans: Seq<SpanView>,
    pace: Pace,
    tones: Seq<i64>,
    k: int,
)
    requires
        spans.len() > 0,
    ensures
        ({
            let s = spans.last();
            let before = track_of_spans(spans.drop_last(), pace, tones);
            let t = track_of_spans(spans, pace, tones);
            let b = before.pitch_bends.len();
            let g = before.gains.len();
            &&& before.pitch_bends.is_prefix_of(t.pitch_bends)
            &&& before.gains.is_prefix_of(t.gains)
            &&& t.pitch_bends.len() == b + s.bends.len()
            &&& t.gains.len() == g + s.volumes.len()
            &&& 0 <= k < s.bends.len() ==> {
                let p = t.pitch_bends[b + k];
                &&& p.time == pace.micros(s.bends[k].0 as int)
                &&& p.glide <==> k > 0
                &&& i64::MIN <= tones[s.bends[k].1 as int] - 1_000_000 * s.pitch <= i64::MAX
                    ==> p.value == tones[s.bends[k].1 as int] - 1_000_000 * s.pitch
            }
            &&& 0 <= k < s.volumes.len() ==> {
                let p = t.gains[g + k];
                let v = s.volumes[k].1 as int;
                &&& p.time == pace.micros(s.volumes[k].0 as int)
                &&& p.glide <==> k > 0
                &&& 2_000_000 * v - 15 <= 30 * p.value <= 2_000_000 * v + 15
            }
            &&& before.frames.len() > 0 && before.frames.last().1 == s.waveform ==> t.frames
                == before.frames
            &&& before.frames.len() == 0 || before.frames.last().1 != s.waveform ==> t.frames
                == before.frames.push((pace.micros(s.start as int), s.waveform))
        }),
{
    let s = spans.last();
    if 0 <= k < s.volumes.len() {
        let v = s.volumes[k].1 as int;
        law_nearest_is_near(1_000_000 * v, 15);
    }
}

/// What a channel's track plays are its notes, those that are shorter than 661 samples having
/// been joined to a neighbour.
pub proof fn law_scc_tracks_are_of_their_channel(
    writes: Seq<RegisterWrite>,
    total_samples: u64,
    ch: int,
    tones: Seq<i64>,
    pace: Pace,
    i: int,
)
    requires
        forall|k: int|
            0 <= k < spans_of(writes, total_samples, ch, tones).len() ==> (
            #[trigger] spans_of(writes, total_samples, ch, tones)[k]).end - spans_of(
                writes,
                total_samples,
                ch,
                tones,
            )[k].start >= 661,
        0 <= i < spans_of(writes, total_samples, ch, tones).len(),
    ensures
        ({
            let s = spans_of(writes, total_samples, ch, tones);
            let t = channel_track(writes, total_samples, ch, tones, pace);
            &&& t.notes.len() == s.len()
            &&& t.notes[i].start == pace.micros(s[i].start as int)
            &&& t.notes[i].pitch == s[i].pitch
            &&& t.notes[i].velocity == s[i].velocity
        }),
{
    let s = spans_of(writes, total_samples, ch, tones);
    lemma_nothing_to_join(s, 0);
    lemma_notes(s, pace, tones, i);
}

proof fn lemma_nothing_to_join(spans: Seq<SpanView>, i: int)
    requires
        0 <= i,
        forall|k: int|
            0 <= k < spans.len() ==> (#[trigger] spans[k]).end - spans[k].start >= 661,
    ensures
        merged_from(spans, i) == spans,
    decreases spans.len() - i,
{
    if i < spans.len() {
        lemma_nothing_to_join(spans, i + 1);
    }
}

/// Of two notes, one that is shorter than 661 samples is joined to the other.
pub proof fn law_short_notes_are_joined(a: SpanView, b: SpanView)
    ensures
        a.end - a.start >= 661 && b.end - b.start < 661 ==> merged_from(seq![a, b], 0) == seq![
            SpanView { end: b.end, ..a },
        ],
        a.end - a.start < 661 ==> merged_from(seq![a, b], 0) == seq![
            SpanView { start: a.start, ..b },
        ],
{
    reveal_with_fuel(merged_from, 3);
    if a.end - a.start >= 661 && b.end - b.start < 661 {
        assert(seq![a, b].update(0, SpanView { end: b.end, ..a }).remove(1) =~= seq![
            SpanView { end: b.end, ..a },
        ]);
    }
    if a.end - a.start < 661 {
        assert(seq![a, b].update(1, SpanView { start: a.start, ..b }).remove(0) =~= seq![
            SpanView { start: a.start, ..b },
        ]);
    }
}

/// What changes within 200 samples of where a note began is taken for its beginning: the note is
/// begun anew where it was.
pub proof fn law_beginnings_settle(p: PlayedView, r: Registers, at: u64, tones: Seq<i64>)
    requires
        r.freq > 8,
        p.open is Some,
        p.open->0.start <= at < p.open->0.start + 200,
    ensures
        ({
            let q = p.restarted(r, at, tones);
            &&& q.spans == p.spans
            &&& q.open matches Some(o) && o.start == p.open->0.start && o.pitch == note_at(
                tones,
                r.freq,
            ) && o.waveform == r.waveform
        }),
{
}

/// A frequency that is written in two halves waits for the other: one that is about to be written
/// within 200 samples changes nothing yet.
pub proof fn law_half_frequencies_wait(writes: Seq<RegisterWrite>, k: int, ch: int, limit: int)
    requires
        0 <= k < writes.len(),
        writes[k].at_sample <= limit,
    ensures
        writes[k].chip == Chip::Scc && writes[k].port == 1 && (writes[k].reg == 2 * ch
            || writes[k].reg == 2 * ch + 1) ==> written_soon(writes, k, ch, limit),
        !(writes[k].chip == Chip::Scc && writes[k].port == 1 && (writes[k].reg == 2 * ch
            || writes[k].reg == 2 * ch + 1)) ==> written_soon(writes, k, ch, limit)
            == written_soon(writes, k + 1, ch, limit),
{
}

} // verus!
