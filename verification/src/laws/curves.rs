//! What is drawn of a note: its times, its fader, its panorama and its bends.
use crate::export::automation::{stepped, Point};
use crate::export::clock::{law_nearest_is_near, nearest, parts, units_at, units_length};
use crate::export::curves::{
    envelope_parts, fader_gain, hardware_pan, joint_pan, joint_volume, live_note, note_bend_points,
    note_pan_points, note_volume_points, pan_parts, value_at, AmigaPanning, LiveNoteView,
};
use crate::export::notes::NoteEventView;
use crate::export::time::Moment;
use vstd::prelude::*;

verus! {

/// A time, in millionths of a beat, is that of a moment: a row is a quarter of a beat, and its
/// ticks divide it evenly.
pub open spec fn is_time_of(t: int, m: Moment) -> bool {
    let ticks = if m.tick == 0 || m.speed == 0 {
        1
    } else {
        m.speed as int
    };
    -ticks <= 2 * (ticks * (t - 250_000 * m.row) - 250_000 * m.tick) <= ticks
}

proof fn lemma_time(m: Moment)
    ensures
        is_time_of(units_at(m, 50_000), m),
        m.tick == 0 ==> units_at(m, 50_000) == 250_000 * m.row,
{
    let p = parts(m);
    let num = 250_000 * m.tick as int;
    law_nearest_is_near(num, p);
    let n = nearest(num, p);
    assert(2 * p * n == 2 * (p * n)) by (nonlinear_arith);
    assert(5 * 50_000 * m.tick == num);
    if m.tick == 0 {
        assert(nearest(0, 1) == 0);
    }
}

/// A note in beats is the note in rows: its pitch, its velocity and what it changes to are as
/// they were, and it begins at its moment, as each of its changes is at its own.
pub proof fn law_live_notes_are_the_notes(e: NoteEventView, bends: Seq<i64>, k: int)
    requires
        bends.len() == e.bends.len(),
    ensures
        ({
            let n = live_note(e, bends);
            let fits = |t: i64| i64::MIN < t < i64::MAX;
            &&& n.pitch == e.note.pitch
            &&& n.velocity == e.note.velocity
            &&& n.trigger_volume == e.note.trigger_volume
            &&& n.channel == e.note.channel
            &&& n.row == e.note.start.row
            &&& n.sample_offset_frames == e.note.sample_offset_frames
            &&& fits(n.start) ==> is_time_of(n.start as int, e.note.start)
            &&& n.volumes.len() == e.volumes.len()
            &&& 0 <= k < e.volumes.len() ==> {
                &&& n.volumes[k].value == e.volumes[k].tracker_volume
                &&& n.volumes[k].glide == e.volumes[k].glide
                &&& fits(n.volumes[k].time) ==> is_time_of(
                    n.volumes[k].time as int,
                    e.volumes[k].at,
                )
            }
            &&& n.bends.len() == e.bends.len()
            &&& 0 <= k < e.bends.len() ==> {
                &&& n.bends[k].value == bends[k]
                &&& n.bends[k].glide == e.bends[k].glide
                &&& fits(n.bends[k].time) ==> is_time_of(n.bends[k].time as int, e.bends[k].at)
            }
            &&& n.pans.len() == e.pans.len()
            &&& 0 <= k < e.pans.len() ==> {
                let p = e.pans[k].param as int;
                &&& p == 0 ==> n.pans[k].value == -508
                &&& 0 < p < 255 ==> n.pans[k].value == 4 * (p - 128)
                &&& p >= 255 ==> n.pans[k].value == 508
                &&& !n.pans[k].glide
                &&& fits(n.pans[k].time) ==> is_time_of(n.pans[k].time as int, e.pans[k].at)
            }
            &&& n.envelope_volumes.len() == e.envelope_volumes.len()
            &&& 0 <= k < e.envelope_volumes.len() ==> n.envelope_volumes[k].value
                == e.envelope_volumes[k].value && n.envelope_volumes[k].glide
                == e.envelope_volumes[k].glide
            &&& n.envelope_pans.len() == e.envelope_pans.len()
            &&& 0 <= k < e.envelope_pans.len() ==> {
                let v = e.envelope_pans[k].value as int;
                &&& v <= 64 ==> n.envelope_pans[k].value == v - 32
                &&& v > 64 ==> n.envelope_pans[k].value == 32
                &&& n.envelope_pans[k].glide == e.envelope_pans[k].glide
            }
        }),
{
    lemma_time(e.note.start);
    if 0 <= k < e.volumes.len() {
        lemma_time(e.volumes[k].at);
    }
    if 0 <= k < e.bends.len() {
        lemma_time(e.bends[k].at);
    }
    if 0 <= k < e.pans.len() {
        lemma_time(e.pans[k].at);
    }
}

/// A note that begins before its channel lets go of it, and that nothing follows on its voice,
/// ends when it is let go of, or when its sample has played out, whichever is first.
pub proof fn law_notes_end_when_they_are_let_go(e: NoteEventView, bends: Seq<i64>)
    requires
        e.next_start is None,
        !e.note.close.le(e.note.start),
        bends.len() == e.bends.len(),
    ensures
        ({
            let n = live_note(e, bends);
            let fits = i64::MIN < n.end < i64::MAX;
            &&& e.note.natural is None && fits ==> is_time_of(n.end as int, e.note.close)
            &&& e.note.natural matches Some(len) ==> len.rate_hz > 0 && len.frames > 0
                && len.tracker_bpm > 0 && e.note.start.speed > 0 && i64::MIN < n.length < i64::MAX
                ==> {
                let d = e.note.start.speed * len.rate_hz;
                let x = 100_000 * (len.frames * len.tracker_bpm);
                2 * (d * n.length) <= 2 * x + d
            }
        }),
{
    lemma_time(e.note.close);
    match e.note.natural {
        None => {},
        Some(len) => {
            if len.rate_hz > 0 && len.frames > 0 && len.tracker_bpm > 0 && e.note.start.speed > 0 {
                assert(len.frames * len.tracker_bpm > 0) by (nonlinear_arith)
                    requires
                        len.frames > 0,
                        len.tracker_bpm > 0,
                ;
                let d = e.note.start.speed * len.rate_hz;
                assert(d > 0) by (nonlinear_arith)
                    requires
                        d == e.note.start.speed * len.rate_hz,
                        len.rate_hz > 0,
                        e.note.start.speed > 0,
                ;
                let x = 2 * 50_000int * len.frames * len.tracker_bpm;
                assert(x == 100_000 * (len.frames * len.tracker_bpm)) by (nonlinear_arith)
                    requires
                        x == 2 * 50_000int * len.frames * len.tracker_bpm,
                ;
                law_nearest_is_near(x, d);
                let t = nearest(x, d);
                assert(units_length(e.note, None, 50_000) <= t);
                assert(2 * d * t == 2 * (d * t)) by (nonlinear_arith);
                let l = units_length(e.note, None, 50_000);
                assert(d * l <= d * t) by (nonlinear_arith)
                    requires
                        l <= t,
                        d > 0,
                ;
            }
        },
    }
}

/// The fader of a tracker volume, in 4096ths, stands at that share of twelve decibels down,
/// between its ends of 70 decibels down and six up.
pub proof fn law_faders_stand_at_the_share_of_the_volume(level: int)
    ensures
        ({
            let g = fader_gain(level);
            &&& 6 <= level <= 32_535 ==> -4_096_000_000_000 <= 2 * (4_096_000_000_000 * g
                - 251_188_643_150_958 * level) <= 4_096_000_000_000
            &&& level <= 5 ==> g == 316
            &&& level >= 32_536 ==> g == 1_995_262
        }),
{
    law_nearest_is_near(251_188_643_150_958 * level, 4_096_000_000_000);
}

/// The channels of an Amiga stand left, right, right, left, as far out as is asked for.
pub proof fn law_amiga_channels_stand_apart(channel: usize)
    ensures
        hardware_pan(channel, AmigaPanning::Off) == 0,
        channel as int % 4 == 0 || channel as int % 4 == 3 ==> {
            &&& hardware_pan(channel, AmigaPanning::Light) == -127
            &&& hardware_pan(channel, AmigaPanning::Medium) == -254
            &&& hardware_pan(channel, AmigaPanning::Full) == -508
        },
        channel as int % 4 == 1 || channel as int % 4 == 2 ==> {
            &&& hardware_pan(channel, AmigaPanning::Light) == 127
            &&& hardware_pan(channel, AmigaPanning::Medium) == 254
            &&& hardware_pan(channel, AmigaPanning::Full) == 508
        },
{
}

/// Panning goes from left to right as its parameter rises, and so does that of an envelope.
pub proof fn law_panning_rises(a: u32, b: u32)
    requires
        a <= b,
    ensures
        pan_parts(a) <= pan_parts(b),
        pan_parts(0) == -508 && pan_parts(128) == 0 && pan_parts(255) == 508,
        envelope_parts(a) <= envelope_parts(b),
        envelope_parts(0) == -32 && envelope_parts(32) == 0 && envelope_parts(64) == 32,
{
}

/// The volumes of a channel and of an envelope are multiplied: a full envelope leaves the
/// channel's, an empty one nothing, and half an envelope half of it.
pub proof fn law_envelopes_take_their_share(channel: int)
    ensures
        joint_volume(channel, 4096) == channel,
        joint_volume(channel, 0) == 0,
        joint_volume(2 * channel, 2048) == channel,
{
    assert((2 * (channel * 4096) + 4096) / 8192int == channel) by (nonlinear_arith);
    assert((2 * (channel * 0) + 4096) / 8192int == 0) by (nonlinear_arith);
    assert((2 * ((2 * channel) * 2048) + 4096) / 8192int == channel) by (nonlinear_arith);
}

/// An envelope moves the panorama within the room that the channel leaves: not at all in its
/// middle, and to the very right or left at its ends from where there is room that way.
pub proof fn law_envelopes_move_the_panorama(channel: int)
    requires
        -32_512 <= channel <= 32_512,
    ensures
        channel >= 0 ==> joint_pan(channel, 2048) == 1_000_000,
        channel <= 0 ==> joint_pan(channel, -2048) == -1_000_000,
        -32_512 <= 2 * (32_512 * joint_pan(channel, 0) - 1_000_000 * channel) <= 32_512,
{
    if channel >= 0 {
        assert(2048 * channel + 2048 * (32_512 - channel) == 66_584_576);
    }
    if channel <= 0 {
        assert(2048 * channel + -2048 * (32_512 - (-channel)) == -66_584_576);
    }
    let num = 1_000_000 * (2048 * channel);
    law_nearest_is_near(num, 66_584_576);
    assert(0 * (32_512 - channel) == 0 && 0 * (32_512 - (-channel)) == 0);
}

/// The volume of a note without an envelope: the fader stands at its trigger volume when it
/// begins, at each of its volumes when that is set, and again at the trigger volume when it ends.
pub proof fn law_volumes_are_drawn(n: LiveNoteView, k: int)
    requires
        n.envelope_volumes.len() == 0,
    ensures
        ({
            let p = note_volume_points(n);
            &&& p.len() == n.volumes.len() + 2
            &&& p[0].time == n.start
            &&& p[0].value == fader_gain(64 * n.trigger_volume)
            &&& !p[0].glide
            &&& p.last().time == n.end
            &&& p.last().value == fader_gain(64 * n.trigger_volume)
            &&& !p.last().glide
            &&& 0 <= k < n.volumes.len() ==> {
                &&& p[k + 1].time == n.volumes[k].time
                &&& p[k + 1].value == fader_gain(64 * n.volumes[k].value)
                &&& p[k + 1].glide == n.volumes[k].glide
            }
        }),
{
}

/// The panorama of a note without an envelope: where neither the hardware nor the note sets it
/// there is none; else it stands where the hardware, or without that the sample, has it when the
/// note begins and ends, and at each of the note's when that is set.
pub proof fn law_pans_are_drawn(n: LiveNoteView, panning: AmigaPanning, pan: i32, k: int)
    requires
        n.envelope_pans.len() == 0,
        -127 <= pan <= 127,
        forall|i: int|
            0 <= i < n.pans.len() ==> -508 <= (#[trigger] n.pans[i]).value <= 508,
    ensures
        ({
            let p = note_pan_points(n, panning, pan);
            let base = if panning == AmigaPanning::Off {
                4 * pan
            } else {
                hardware_pan(n.channel, panning)
            };
            &&& n.pans.len() == 0 && panning == AmigaPanning::Off ==> p.len() == 0
            &&& n.pans.len() > 0 || panning != AmigaPanning::Off ==> {
                &&& p.len() == n.pans.len() + 2
                &&& p[0].time == n.start && p.last().time == n.end
                &&& -508 <= 2 * (508 * p[0].value - 1_000_000 * base) <= 508
                &&& p.last().value == p[0].value
                &&& 0 <= k < n.pans.len() ==> {
                    &&& p[k + 1].time == n.pans[k].time
                    &&& -508 <= 2 * (508 * p[k + 1].value - 1_000_000 * n.pans[k].value) <= 508
                }
            }
        }),
{
    let base = if panning == AmigaPanning::Off {
        4 * pan
    } else {
        hardware_pan(n.channel, panning)
    };
    assert(-508 <= base <= 508);
    law_envelopes_move_the_panorama(64 * base);
    if 0 <= k < n.pans.len() {
        law_envelopes_move_the_panorama(64 * n.pans[k].value);
    }
}

/// The bends of a note, between none where it begins and none where it ends.
pub proof fn law_bends_are_drawn(n: LiveNoteView, k: int)
    ensures
        ({
            let p = note_bend_points(n);
            &&& n.bends.len() == 0 ==> p.len() == 0
            &&& n.bends.len() > 0 ==> {
                &&& p.len() == n.bends.len() + 2
                &&& p[0] == (Point { time: n.start, value: 0, glide: false })
                &&& p.last() == (Point { time: n.end, value: 0, glide: false })
                &&& 0 <= k < n.bends.len() ==> p[k + 1] == n.bends[k]
            }
        }),
{
}

/// A curve of two points stands at the first up to it, at the second from there on, and between
/// them at the first or, where the second is glided to, on the line between them.
pub proof fn law_curves_go_from_point_to_point(a: Point, b: Point, t: i64)
    requires
        a.time < b.time,
    ensures
        ({
            let v = value_at(seq![a, b], t);
            let w = b.time - a.time;
            &&& t <= a.time ==> v == 64 * a.value
            &&& t >= b.time ==> v == 64 * b.value
            &&& a.time <= t < b.time && !b.glide ==> v == 64 * a.value
            &&& a.time < t < b.time && b.glide ==> -w <= 2 * (w * v - 64 * (a.value * w + (b.value
                - a.value) * (t - a.time))) <= w
        }),
{
    let s = seq![a, b];
    reveal_with_fuel(crate::export::curves::reached, 3);
    let w = b.time - a.time;
    let num = 64 * (a.value * w + (b.value - a.value) * (t - a.time));
    law_nearest_is_near(num, w);
    let n = nearest(num, w);
    assert(2 * w * n == 2 * (w * n)) by (nonlinear_arith);
    if t == a.time {
        assert(num == (64 * a.value) * w) by (nonlinear_arith)
            requires
                num == 64 * (a.value * w + (b.value - a.value) * (t - a.time)),
                t == a.time,
        ;
        let x = 64 * a.value;
        assert((2 * (x * w) + w) / (2 * w) == x) by (nonlinear_arith)
            requires
                w > 0,
        ;
    }
}

/// A curve is drawn by its points in turn: one that is jumped to from another value is led up to
/// by that value, a thousandth of a beat before, and every other stands alone.
pub proof fn law_points_are_marked(points: Seq<Point>, p: Point)
    requires
        points.len() > 0,
    ensures
        ({
            let before = stepped(points);
            let after = stepped(points.push(p));
            let last = points.last();
            &&& last.value == p.value || p.glide ==> after == before.push((p.time, p.value))
            &&& last.value != p.value && !p.glide && p.time >= i64::MIN + 1000 ==> after
                == before.push(((p.time - 1000) as i64, last.value)).push((p.time, p.value))
        }),
{
    let all = points.push(p);
    assert(all.drop_last() =~= points);
    assert(all[all.len() - 2] == points.last());
}

} // verus!
