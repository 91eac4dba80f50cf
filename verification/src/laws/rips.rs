//! What a set made of a chip rip holds, and what is rendered for it.
use crate::chips::{all_but, in_mask, law_all_but};
use crate::export::clock::{law_nearest_is_near, nearest};
use crate::export::pace::{bars_from, estimated, song_pace_of, Pace};
use crate::export::vgm_als::{
    clip_name, frame_marks, frames_before, ramped, second_micros, split_point, table_samples,
    AudioSegmentView,
};
use crate::export::vgm_render::{
    common_stems, fm_stems, ready_bytes, resized, stems_of, voices, StemPlanView, Voices,
};
use crate::export::vgm_set::{color_at, cut_stem, operator_name, wavetable_file, wavetable_name};
use crate::export::automation::Mark;
use crate::export::sampler::SampleFileView;
use crate::formats::vgm::{Clocks, VgmFileView};
use crate::laws::fasttracker2::long;
use crate::text::decimal;
use vstd::prelude::*;

verus! {

/// Every step of a wave of 32 becomes 32 frames of the wavetable, at 256 times its size.
pub proof fn law_waves_are_held(frames: Seq<(i64, Seq<i8>)>, k: int, step: int, i: int)
    requires
        forall|j: int| 0 <= j < frames.len() ==> (#[trigger] frames[j]).1.len() == 32,
        0 <= k < frames.len(),
        0 <= step < 32,
        0 <= i < 32,
    ensures
        table_samples(frames).len() == 1024 * frames.len(),
        table_samples(frames)[1024 * k + 32 * step + i] == 256 * frames[k].1[step],
    decreases frames.len(),
{
    let before = frames.drop_last();
    assert forall|j: int| 0 <= j < before.len() implies (#[trigger] before[j]).1.len() == 32 by {
        assert(before[j] == frames[j]);
    }
    assert(frames[frames.len() - 1].1.len() == 32);
    if k < before.len() {
        law_waves_are_held(before, k, step, i);
    } else {
        if before.len() > 0 {
            law_waves_are_held(before, 0, 0, 0);
        } else {
            assert(table_samples(before).len() == 0);
        }
        assert((32 * step + i) / 32 == step);
    }
}

/// The position of a wavetable goes from nothing at its first wave to full at its last, in even
/// steps, each at the time of its wave.
pub proof fn law_positions_are_even(frames: Seq<(i64, Seq<i8>)>, k: int)
    requires
        1 < frames.len(),
        0 <= k < frames.len(),
    ensures
        ({
            let m = frame_marks(frames);
            let last = frames.len() - 1;
            &&& m.len() == frames.len()
            &&& m[k].0 == frames[k].0
            &&& m[0].1 == 0
            &&& m[last].1 == 1_000_000
            &&& 1_000_000 * frames.len() <= i64::MAX
                ==> -last <= 2 * (last * m[k].1 - 1_000_000 * k)
                <= last
        }),
{
    let last = frames.len() - 1;
    law_nearest_is_near(1_000_000 * k, last);
    let n = nearest(1_000_000 * k, last);
    assert(2 * last * n == 2 * (last * n)) by (nonlinear_arith);
    assert((2 * 0 + last) / (2 * last) == 0) by (nonlinear_arith)
        requires
            last > 0,
    ;
    assert((2 * (1_000_000 * last) + last) / (2 * last) == 1_000_000) by (nonlinear_arith)
        requires
            last > 0,
    ;
    assert(0 <= n <= 1_000_000) by (nonlinear_arith)
        requires
            2 * (1_000_000 * k) - last <= 2 * (last * n) <= 2 * (1_000_000 * k) + last,
            0 <= k <= last,
            last > 0,
    ;
}

/// A new value is ramped to from the one before, over the given time or from that one's own time
/// where it is nearer; a value that stays is only marked.
pub proof fn law_values_are_ramped_to(marks: Seq<Mark>, m: Mark, ramp: i64)
    requires
        marks.len() > 0,
        0 <= ramp,
        i64::MIN <= m.0 - ramp,
    ensures
        ({
            let last = marks.last();
            let before = ramped(marks, ramp);
            let after = ramped(marks.push(m), ramp);
            &&& m.1 == last.1 ==> after == before.push(m)
            &&& m.1 != last.1 && m.0 - ramp >= last.0 ==> after == before.push(
                ((m.0 - ramp) as i64, last.1),
            ).push(m)
            &&& m.1 != last.1 && m.0 - ramp < last.0 ==> after == before.push(
                (last.0, last.1),
            ).push(m)
        }),
{
    let all = marks.push(m);
    assert(all.drop_last() =~= marks);
    assert(all[all.len() - 2] == marks.last());
}

/// A clip's length in seconds, to the millionth, is its frames at 44100 to the second.
pub proof fn law_clips_last_as_long_as_their_frames(frames: u32)
    ensures
        -44_100 <= 2 * (44_100 * second_micros(frames) - 1_000_000 * frames) <= 44_100,
{
    law_nearest_is_near(1_000_000 * frames as int, 44_100);
    let n = nearest(1_000_000 * frames as int, 44_100);
    assert(0 <= n <= 1_000_000 * frames);
}

/// The clips of a stem follow each other without a gap.
pub proof fn law_clips_follow_each_other(segments: Seq<AudioSegmentView>, k: int)
    requires
        0 <= k < segments.len(),
    ensures
        frames_before(segments, 0) == 0,
        frames_before(segments, k + 1) - frames_before(segments, k) == segments[k].frames,
{
}

/// A stem is cut where its loop begins, if that is inside of it: the part before is its intro,
/// and the two together are all of it.
pub proof fn law_stems_are_cut_at_their_loop(
    index: int,
    name: Seq<char>,
    loop_start: Option<u64>,
    frames: usize,
    files: Seq<SampleFileView>,
)
    requires
        frames <= u32::MAX,
    ensures
        ({
            let s = cut_stem(index, name, split_point(loop_start, frames), frames, files);
            let cut = loop_start matches Some(l) && 0 < l < frames;
            &&& s.name == name
            &&& cut ==> {
                &&& s.segments.len() == 2
                &&& s.segments[0].frames == loop_start->0
                &&& s.segments[0].suffix == "intro"@
                &&& s.segments[1].frames == frames - loop_start->0
                &&& s.segments[1].suffix == "loop"@
                &&& s.segments[0].file == files[0] && s.segments[1].file == files[1]
            }
            &&& !cut ==> {
                &&& s.segments.len() == 1
                &&& s.segments[0].frames == frames
                &&& s.segments[0].suffix == ""@
                &&& s.segments[0].file == files[0]
            }
        }),
{
}

/// The colors of tracks go round in turn.
pub proof fn law_colors_go_round(i: int)
    requires
        0 <= i,
    ensures
        0 <= color_at(i) < 70,
        color_at(0) == 1,
        color_at(i + 1) == if color_at(i) == 69 {
            0
        } else {
            color_at(i) + 1
        },
{
}

/// The names that the tracks and files of a rip are given.
pub proof fn law_tracks_of_rips_are_named(i: int, label: Seq<char>)
    ensures
        wavetable_name(i) == "SCC-"@ + decimal(i + 1) + " (Wavetable)"@,
        wavetable_file(i) == "wt_scc"@ + decimal(i + 1) + ".wav"@,
        operator_name(label, i) == label + "-"@ + decimal(i + 1) + " (Operator)"@,
        clip_name(label, ""@) == label,
        clip_name(label, "loop"@) == label + " (loop)"@,
{
    reveal_strlit("");
    reveal_strlit("loop");
    reveal_strlit(" (");
    reveal_strlit(")");
    reveal_strlit(" (loop)");
    assert(label + " ("@ + "loop"@ + ")"@ =~= label + " (loop)"@);
}

/// A stem is heard alone: of its chip, only this channel is not muted.
pub open spec fn hears(stem: StemPlanView, name: Seq<char>, v: Voices, ch: u32) -> bool {
    &&& stem.name == name
    &&& stem.solo.device == v.device
    &&& stem.solo.instance == v.instance
    &&& !in_mask(stem.solo.mask, ch)
    &&& forall|c: u32|
        c < 32 && c != ch ==> (#[trigger] in_mask(stem.solo.mask, c)) == in_mask(v.all, c)
}

proof fn lemma_hears(v: Voices, name: Seq<char>, ch: u32)
    requires
        ch < 32,
    ensures
        hears(v.stem(name, ch), name, v, ch),
{
    let m = all_but(v.all, 1u32 << ch);
    assert forall|c: u32| c < 32 && c != ch implies (#[trigger] in_mask(m, c)) == in_mask(
        v.all,
        c,
    ) by {
        law_all_but(v.all, 1u32 << ch, c);
        assert(((1u32 << ch) >> c) & 1 == 0) by (bit_vector)
            requires
                c < 32,
                ch < 32,
                c != ch,
        ;
    }
    law_all_but(v.all, 1u32 << ch, ch);
    assert(((1u32 << ch) >> ch) & 1 == 1) by (bit_vector)
        requires
            ch < 32,
    ;
}

/// The stems of the chips that a Konami cartridge or an FM extension has: each is of the channel
/// that it is named after.
pub proof fn law_common_stems_are_their_channels(i: int)
    ensures
        ({
            let s = common_stems();
            let ay = voices(0x12, 0, 0x7);
            let scc = voices(0x19, 0, 0x1f);
            &&& s.len() == 50
            &&& hears(s[0], "AY-"@ + "A"@, ay, 0)
            &&& hears(s[1], "AY-"@ + "B"@, ay, 1)
            &&& hears(s[2], "AY-"@ + "C"@, ay, 2)
            &&& 0 <= i < 5 ==> hears(s[3 + i], "SCC-"@ + decimal(i + 1), scc, i as u32)
        }),
        fm_stems_hear(common_stems(), 8, voices(0x01, 0, 0x3fff), "YM-"@, i),
        fm_stems_hear(common_stems(), 22, voices(0x0A, 0, 0x3fff), "OPL-"@, i),
        fm_stems_hear(common_stems(), 36, voices(0x09, 0, 0x3fff), "OPL2-"@, i),
{
    let s = common_stems();
    let ay = voices(0x12, 0, 0x7);
    let scc = voices(0x19, 0, 0x1f);
    lemma_hears(ay, "AY-"@ + "A"@, 0);
    lemma_hears(ay, "AY-"@ + "B"@, 1);
    lemma_hears(ay, "AY-"@ + "C"@, 2);
    if 0 <= i < 5 {
        lemma_hears(scc, "SCC-"@ + decimal(i + 1), i as u32);
    }
    lemma_fm_stems(0x01, "YM-"@, i);
    lemma_fm_stems(0x0A, "OPL-"@, i);
    lemma_fm_stems(0x09, "OPL2-"@, i);
    let a = ay.named("AY-"@, seq!["A"@, "B"@, "C"@]);
    let b = scc.numbered("SCC-"@, 5);
    let c = fm_stems(0x01, "YM-"@);
    let d = fm_stems(0x0A, "OPL-"@);
    let e = fm_stems(0x09, "OPL2-"@);
    assert(s == a + b + c + d + e);
    assert(a.len() == 3 && b.len() == 5 && c.len() == 14 && d.len() == 14 && e.len() == 14);
    assert(s[0] == a[0] && s[1] == a[1] && s[2] == a[2]);
    if 0 <= i < 5 {
        assert(s[3 + i] == b[i]);
    }
    assert forall|j: int| 0 <= j < 14 implies s[8 + j] == c[j] && s[22 + j] == d[j] && s[36 + j]
        == e[j] by {}
    assert(s[17] == c[9] && s[18] == c[10] && s[19] == c[11] && s[20] == c[12]
        && s[21] == c[13]);
    assert(s[31] == d[9] && s[32] == d[10] && s[33] == d[11] && s[34] == d[12]
        && s[35] == d[13]);
    assert(s[45] == e[9] && s[46] == e[10] && s[47] == e[11] && s[48] == e[12]
        && s[49] == e[13]);
    if 0 <= i < 9 {
        assert(s[8 + i] == c[i] && s[22 + i] == d[i] && s[36 + i] == e[i]);
    }
}

/// The stems of an FM chip: its nine channels, then the drums.
pub open spec fn fm_stems_hear(
    s: Seq<StemPlanView>,
    at: int,
    v: Voices,
    prefix: Seq<char>,
    i: int,
) -> bool {
    &&& 0 <= i < 9 ==> hears(s[at + i], prefix + decimal(i + 1), v, i as u32)
    &&& hears(s[at + 9], prefix + "BD"@, v, 9)
    &&& hears(s[at + 10], prefix + "HH"@, v, 13)
    &&& hears(s[at + 11], prefix + "SD"@, v, 10)
    &&& hears(s[at + 12], prefix + "TOM"@, v, 11)
    &&& hears(s[at + 13], prefix + "CYM"@, v, 12)
}

proof fn lemma_fm_stems(device: u32, prefix: Seq<char>, i: int)
    ensures
        fm_stems(device, prefix).len() == 14,
        fm_stems_hear(fm_stems(device, prefix), 0, voices(device, 0, 0x3fff), prefix, i),
{
    let v = voices(device, 0, 0x3fff);
    let s = fm_stems(device, prefix);
    let a = v.numbered(prefix, 9);
    let b = v.percussion(prefix);
    lemma_hears(v, prefix + "BD"@, 9);
    lemma_hears(v, prefix + "HH"@, 13);
    lemma_hears(v, prefix + "SD"@, 10);
    lemma_hears(v, prefix + "TOM"@, 11);
    lemma_hears(v, prefix + "CYM"@, 12);
    if 0 <= i < 9 {
        lemma_hears(v, prefix + decimal(i + 1), i as u32);
        assert(s[i] == a[i]);
    }
    assert(s[9] == b[0] && s[10] == b[1] && s[11] == b[2] && s[12] == b[3] && s[13] == b[4]);
}

/// A rip is rendered from its own bytes, with the clock of the SCC where the header has it.
pub proof fn law_rips_are_rendered_as_they_are(v: VgmFileView, i: int)
    ensures
        ({
            let r = ready_bytes(v);
            &&& r.len() == v.raw_data.len()
            &&& v.clocks.scc > 0 && v.raw_data.len() >= 0xA0 ==> long(r, 0x9C) == v.clocks.scc
            &&& 0 <= i < r.len() && !(0x9C <= i < 0xA0) ==> r[i] == v.raw_data[i]
            &&& v.clocks.scc == 0 ==> r == v.raw_data
        }),
{
    let c = v.clocks.scc as int;
    assert(c / 0x100_0000 < 256);
    assert(c / 256 / 256 == c / 0x1_0000 && c / 0x1_0000 / 256 == c / 0x100_0000);
    assert(c == c % 256 + 256 * (c / 256 % 256) + 0x1_0000 * (c / 0x1_0000 % 256) + 0x100_0000 * (c
        / 0x100_0000));
}

/// The pace of a rip: its length is made of bars of four beats, doubled from one until a minute
/// has at least 80 beats, but at most 256 bars.
pub proof fn law_rips_have_a_steady_pace(samples: u64)
    requires
        samples > 0,
    ensures
        ({
            let p = estimated(samples);
            &&& p.samples == samples
            &&& p.beats == 4 || p.beats == 8 || p.beats == 16 || p.beats == 32 || p.beats == 64
                || p.beats == 128 || p.beats == 256 || p.beats == 512 || p.beats == 1024
            &&& p.beats > 4 ==> 80 * samples > 2_646_000 * (p.beats / 2)
            &&& p.beats < 1024 ==> 80 * samples <= 2_646_000 * p.beats
        }),
{
    reveal_with_fuel(bars_from, 10);
}

/// What a rendering is cut or filled up to: its own samples, and silence behind them.
pub proof fn law_renderings_are_filled_with_silence(samples: Seq<i32>, n: nat, i: int)
    requires
        0 <= i < n,
    ensures
        resized(samples, n).len() == n,
        i < samples.len() ==> resized(samples, n)[i] == samples[i],
        i >= samples.len() ==> resized(samples, n)[i] == 0,
{
}

/// None of the chips beyond those of the common stems is used, but for one that is left out here.
pub open spec fn others_are_unused(c: Clocks, but: int) -> bool {
    &&& but == 0 || c.ym2612 == 0
    &&& but == 1 || c.ym2151 == 0
    &&& but == 2 || c.ym2203 == 0
    &&& but == 3 || c.ym2608 == 0
    &&& but == 4 || c.ym2610 == 0
    &&& but == 5 || c.segapcm == 0
    &&& but == 6 || c.rf5c68 == 0
    &&& but == 7 || c.rf5c164 == 0
    &&& but == 8 || c.gb_dmg == 0
    &&& but == 9 || c.nes_apu == 0
}

proof fn lemma_extra_stems(v: VgmFileView, extra: Seq<StemPlanView>, i: int)
    requires
        stems_of(v) =~= common_stems() + extra,
        0 <= i < extra.len(),
    ensures
        stems_of(v).len() == 50 + extra.len(),
        stems_of(v)[50 + i] == extra[i],
{
    law_common_stems_are_their_channels(0);
}

/// The stems of the other chips that are used stand behind the common ones, each of the channel
/// that it is named after, of the device of its chip.
pub proof fn law_numbered_stems_are_their_channels(v: VgmFileView, i: int)
    ensures
        ({
            let s = stems_of(v);
            let c = v.clocks;
            &&& others_are_unused(c, -1) ==> s == common_stems()
            &&& others_are_unused(c, 1) && c.ym2151 > 0 && 0 <= i < 8 ==> s.len() == 58 && hears(
                s[50 + i],
                "YM2151-"@ + decimal(i + 1),
                voices(0x03, 0, 0xff),
                i as u32,
            )
            &&& others_are_unused(c, 2) && c.ym2203 > 0 && 0 <= i < 3 ==> s.len() == 53 && hears(
                s[50 + i],
                "YM2203-"@ + decimal(i + 1),
                voices(0x06, 0, 0x7),
                i as u32,
            )
            &&& others_are_unused(c, 5) && c.segapcm > 0 && 0 <= i < 16 ==> s.len() == 66 && hears(
                s[50 + i],
                "SegaPCM-"@ + decimal(i + 1),
                voices(0x04, 0, 0xffff),
                i as u32,
            )
            &&& others_are_unused(c, 6) && c.rf5c68 > 0 && 0 <= i < 8 ==> s.len() == 58 && hears(
                s[50 + i],
                "RF5C68-"@ + decimal(i + 1),
                voices(0x05, 0, 0xff),
                i as u32,
            )
            &&& others_are_unused(c, 7) && c.rf5c164 > 0 && 0 <= i < 8 ==> s.len() == 58 && hears(
                s[50 + i],
                "RF5C164-"@ + decimal(i + 1),
                voices(0x05, 1, 0xff),
                i as u32,
            )
        }),
{
    let s = stems_of(v);
    let c = v.clocks;
    law_common_stems_are_their_channels(0);
    if others_are_unused(c, -1) {
        assert(s =~= common_stems());
    }
    if 0 <= i < 16 {
        lemma_hears(voices(0x03, 0, 0xff), "YM2151-"@ + decimal(i + 1), i as u32);
        lemma_hears(voices(0x06, 0, 0x7), "YM2203-"@ + decimal(i + 1), i as u32);
        lemma_hears(voices(0x04, 0, 0xffff), "SegaPCM-"@ + decimal(i + 1), i as u32);
        lemma_hears(voices(0x05, 0, 0xff), "RF5C68-"@ + decimal(i + 1), i as u32);
        lemma_hears(voices(0x05, 1, 0xff), "RF5C164-"@ + decimal(i + 1), i as u32);
        if others_are_unused(c, 1) && c.ym2151 > 0 && i < 8 {
            lemma_extra_stems(v, voices(0x03, 0, 0xff).numbered("YM2151-"@, 8), i);
        }
        if others_are_unused(c, 2) && c.ym2203 > 0 && i < 3 {
            lemma_extra_stems(v, voices(0x06, 0, 0x7).numbered("YM2203-"@, 3), i);
        }
        if others_are_unused(c, 5) && c.segapcm > 0 {
            lemma_extra_stems(v, voices(0x04, 0, 0xffff).numbered("SegaPCM-"@, 16), i);
        }
        if others_are_unused(c, 6) && c.rf5c68 > 0 && i < 8 {
            lemma_extra_stems(v, voices(0x05, 0, 0xff).numbered("RF5C68-"@, 8), i);
        }
        if others_are_unused(c, 7) && c.rf5c164 > 0 && i < 8 {
            lemma_extra_stems(v, voices(0x05, 1, 0xff).numbered("RF5C164-"@, 8), i);
        }
    }
}

/// The names of the channels of the chips whose channels have names, in the chips' own order.
pub proof fn law_named_stems_are_their_channels(v: VgmFileView)
    ensures
        ({
            let s = stems_of(v);
            let c = v.clocks;
            let md = voices(0x02, 0, 0x7f);
            let gb = voices(0x13, 0, 0xf);
            let nes = voices(0x14, 0, 0x1f);
            &&& others_are_unused(c, 0) && c.ym2612 > 0 ==> {
                &&& s.len() == 57
                &&& hears(s[50], "YM2612-"@ + "FM-1"@, md, 0)
                &&& hears(s[55], "YM2612-"@ + "FM-6"@, md, 5)
                &&& hears(s[56], "YM2612-"@ + "DAC"@, md, 6)
            }
            &&& others_are_unused(c, 8) && c.gb_dmg > 0 ==> {
                &&& s.len() == 54
                &&& hears(s[50], "GB-"@ + "Square-1"@, gb, 0)
                &&& hears(s[51], "GB-"@ + "Square-2"@, gb, 1)
                &&& hears(s[52], "GB-"@ + "Wave"@, gb, 2)
                &&& hears(s[53], "GB-"@ + "Noise"@, gb, 3)
            }
            &&& others_are_unused(c, 9) && c.nes_apu > 0 ==> {
                &&& s.len() == 55
                &&& hears(s[50], "NES-"@ + "Square-1"@, nes, 0)
                &&& hears(s[51], "NES-"@ + "Square-2"@, nes, 1)
                &&& hears(s[52], "NES-"@ + "Triangle"@, nes, 2)
                &&& hears(s[53], "NES-"@ + "Noise"@, nes, 3)
                &&& hears(s[54], "NES-"@ + "DPCM"@, nes, 4)
            }
        }),
{
    let s = stems_of(v);
    let c = v.clocks;
    let md = voices(0x02, 0, 0x7f);
    let gb = voices(0x13, 0, 0xf);
    let nes = voices(0x14, 0, 0x1f);
    law_common_stems_are_their_channels(0);
    lemma_hears(md, "YM2612-"@ + "FM-1"@, 0);
    lemma_hears(md, "YM2612-"@ + "FM-6"@, 5);
    lemma_hears(md, "YM2612-"@ + "DAC"@, 6);
    lemma_hears(gb, "GB-"@ + "Square-1"@, 0);
    lemma_hears(gb, "GB-"@ + "Square-2"@, 1);
    lemma_hears(gb, "GB-"@ + "Wave"@, 2);
    lemma_hears(gb, "GB-"@ + "Noise"@, 3);
    lemma_hears(nes, "NES-"@ + "Square-1"@, 0);
    lemma_hears(nes, "NES-"@ + "Square-2"@, 1);
    lemma_hears(nes, "NES-"@ + "Triangle"@, 2);
    lemma_hears(nes, "NES-"@ + "Noise"@, 3);
    lemma_hears(nes, "NES-"@ + "DPCM"@, 4);
    if others_are_unused(c, 0) && c.ym2612 > 0 {
        let e = md.named(
            "YM2612-"@,
            seq!["FM-1"@, "FM-2"@, "FM-3"@, "FM-4"@, "FM-5"@, "FM-6"@, "DAC"@],
        );
        lemma_extra_stems(v, e, 0);
        lemma_extra_stems(v, e, 5);
        lemma_extra_stems(v, e, 6);
    }
    if others_are_unused(c, 8) && c.gb_dmg > 0 {
        let e = gb.named("GB-"@, seq!["Square-1"@, "Square-2"@, "Wave"@, "Noise"@]);
        lemma_extra_stems(v, e, 0);
        lemma_extra_stems(v, e, 1);
        lemma_extra_stems(v, e, 2);
        lemma_extra_stems(v, e, 3);
    }
    if others_are_unused(c, 9) && c.nes_apu > 0 {
        let e = nes.named(
            "NES-"@,
            seq!["Square-1"@, "Square-2"@, "Triangle"@, "Noise"@, "DPCM"@],
        );
        lemma_extra_stems(v, e, 0);
        lemma_extra_stems(v, e, 1);
        lemma_extra_stems(v, e, 2);
        lemma_extra_stems(v, e, 3);
        lemma_extra_stems(v, e, 4);
    }
}

/// The pace of a recording that loops is the pace of its loop: the beats go evenly into the frames
/// behind the split. One that does not loop keeps the pace of its template.
pub proof fn law_loops_set_the_pace(split: usize, frames: usize, template: Pace)
    requires
        split < frames,
        frames <= u64::MAX,
    ensures
        song_pace_of(Some(split), frames, template).samples == frames - split,
        song_pace_of(None, frames, template) == template,
{
}

} // verus!
