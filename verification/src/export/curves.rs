//! The pitch, volume and panorama curves of a track.
//!
//! An instrument's envelope is a layer of its own: it multiplies the channel's volume, and is
//! blended with the channel's panning, instead of competing with the points of the channel's
//! effects.
use crate::export::automation::{
    clamp64, clamped, in_time_order, sort_points, stepped, step_points_with_glide, Mark, Point,
};
use crate::export::clock::{
    end_units, length_units, level_units, moment_units, nearest, round_signed, units_at, units_end,
    units_length, units_level, MICRO_Q,
};
use crate::export::notes::{NoteEvent, NoteEventView};
use crate::export::simulate::{EnvelopeLevel, PanChange, PitchBend, VolumeChange};
use vstd::prelude::*;

verus! {

/// How far the panorama of a note defaults to the routing of the classic four-channel
/// hardware: channels 0 and 3 left, 1 and 2 right, repeating every four channels. The hardware
/// itself is `Full`; the others are softer.
#[derive(Debug, Clone, Copy, PartialEq, Eq, Structural)]
pub enum AmigaPanning {
    Off,
    Light,
    Medium,
    Full,
}

impl Default for AmigaPanning {
    fn default() -> (r: Self)
        ensures
            r == AmigaPanning::Off,
    {
        AmigaPanning::Off
    }
}

impl AmigaPanning {
    /// The part of full separation, in quarters.
    pub open spec fn quarters(self) -> int {
        match self {
            AmigaPanning::Off => 0,
            AmigaPanning::Light => 1,
            AmigaPanning::Medium => 2,
            AmigaPanning::Full => 4,
        }
    }

    fn intensity(self) -> (r: i64)
        ensures
            r == self.quarters(),
    {
        match self {
            AmigaPanning::Off => 0,
            AmigaPanning::Light => 1,
            AmigaPanning::Medium => 2,
            AmigaPanning::Full => 4,
        }
    }
}

/// The pan that the hardware gives a channel.
pub open spec fn hardware_pan(channel: usize, panning: AmigaPanning) -> int {
    let m = channel as int % 4;
    if m == 0 || m == 3 {
        -127 * panning.quarters()
    } else {
        127 * panning.quarters()
    }
}

fn amiga_pan(channel: usize, panning: AmigaPanning) -> (r: i64)
    ensures
        r == hardware_pan(channel, panning),
        -508 <= r <= 508,
{
    let m: usize = channel % 4;
    if m == 0 || m == 3 {
        -127 * panning.intensity()
    } else {
        127 * panning.intensity()
    }
}

/// A note of a track, with its times in millionths of a beat.
#[derive(Debug)]
pub struct LiveNote {
    pub start: i64,
    pub end: i64,
    pub length: i64,
    /// The row that it starts on.
    pub row: usize,
    pub pitch: i32,
    pub velocity: i32,
    pub trigger_volume: i32,
    pub channel: usize,
    pub sample_offset_frames: u32,
    /// In millionths of a semitone.
    pub bends: Vec<Point>,
    /// Tracker volumes.
    pub volumes: Vec<Point>,
    /// In 508ths.
    pub pans: Vec<Point>,
    /// 0-64.
    pub envelope_volumes: Vec<Point>,
    /// In 32nds, from -32 to 32.
    pub envelope_pans: Vec<Point>,
}

/// What a `LiveNote` holds.
pub struct LiveNoteView {
    pub start: i64,
    pub end: i64,
    pub length: i64,
    pub row: usize,
    pub pitch: i32,
    pub velocity: i32,
    pub trigger_volume: i32,
    pub channel: usize,
    pub sample_offset_frames: u32,
    pub bends: Seq<Point>,
    pub volumes: Seq<Point>,
    pub pans: Seq<Point>,
    pub envelope_volumes: Seq<Point>,
    pub envelope_pans: Seq<Point>,
}

impl View for LiveNote {
    type V = LiveNoteView;

    open spec fn view(&self) -> LiveNoteView {
        LiveNoteView {
            start: self.start,
            end: self.end,
            length: self.length,
            row: self.row,
            pitch: self.pitch,
            velocity: self.velocity,
            trigger_volume: self.trigger_volume,
            channel: self.channel,
            sample_offset_frames: self.sample_offset_frames,
            bends: self.bends@,
            volumes: self.volumes@,
            pans: self.pans@,
            envelope_volumes: self.envelope_volumes@,
            envelope_pans: self.envelope_pans@,
        }
    }
}

/// What the notes hold.
pub open spec fn live_views(notes: Seq<LiveNote>) -> Seq<LiveNoteView> {
    notes.map_values(|n: LiveNote| n@)
}

/// A Set Panning parameter in 508ths: `(param - 128) / 127`, kept within -1 and 1.
pub open spec fn pan_parts(param: u32) -> int {
    if param >= 255 {
        508
    } else if param == 0 {
        -508
    } else {
        4 * (param - 128)
    }
}

/// The value of a panning envelope in 32nds.
pub open spec fn envelope_parts(value: u32) -> int {
    if value >= 64 {
        32
    } else {
        value - 32
    }
}

/// The note event with its times worked out. `bends` holds the pitch of each bend in
/// millionths of a semitone from the note's own pitch.
pub open spec fn live_note(e: NoteEventView, bends: Seq<i64>) -> LiveNoteView {
    let q = MICRO_Q as int;
    LiveNoteView {
        start: clamped(units_at(e.note.start, q)),
        end: clamped(units_end(e.note, e.next_start, q)),
        length: clamped(units_length(e.note, e.next_start, q)),
        row: e.note.start.row,
        pitch: e.note.pitch,
        velocity: e.note.velocity,
        trigger_volume: e.note.trigger_volume,
        channel: e.note.channel,
        sample_offset_frames: e.note.sample_offset_frames,
        bends: Seq::new(
            e.bends.len(),
            |i: int|
                Point {
                    time: clamped(units_at(e.bends[i].at, q)),
                    value: bends[i],
                    glide: e.bends[i].glide,
                },
        ),
        volumes: e.volumes.map_values(
            |v: VolumeChange|
                Point {
                    time: clamped(units_at(v.at, q)),
                    value: v.tracker_volume as i64,
                    glide: v.glide,
                },
        ),
        pans: e.pans.map_values(
            |p: PanChange|
                Point {
                    time: clamped(units_at(p.at, q)),
                    value: pan_parts(p.param) as i64,
                    glide: false,
                },
        ),
        envelope_volumes: e.envelope_volumes.map_values(
            |l: EnvelopeLevel|
                Point {
                    time: clamped(units_level(l, q)),
                    value: l.value as i64,
                    glide: l.glide,
                },
        ),
        envelope_pans: e.envelope_pans.map_values(
            |l: EnvelopeLevel|
                Point {
                    time: clamped(units_level(l, q)),
                    value: envelope_parts(l.value) as i64,
                    glide: l.glide,
                },
        ),
    }
}

fn pan_points_of(pans: &Vec<PanChange>) -> (r: Vec<Point>)
    ensures
        r@ == pans@.map_values(
            |p: PanChange|
                Point {
                    time: clamped(units_at(p.at, MICRO_Q as int)),
                    value: pan_parts(p.param) as i64,
                    glide: false,
                },
        ),
{
    let ghost f = |p: PanChange|
        Point {
            time: clamped(units_at(p.at, MICRO_Q as int)),
            value: pan_parts(p.param) as i64,
            glide: false,
        };
    let mut out: Vec<Point> = Vec::new();
    let mut i: usize = 0;
    while i < pans.len()
        invariant
            i <= pans.len(),
            f == (|p: PanChange|
                Point {
                    time: clamped(units_at(p.at, MICRO_Q as int)),
                    value: pan_parts(p.param) as i64,
                    glide: false,
                }),
            out@ == pans@.map_values(f).take(i as int),
        decreases pans.len() - i,
    {
        let p: PanChange = pans[i];
        let value: i64 = if p.param >= 255 {
            508
        } else if p.param == 0 {
            -508
        } else {
            4 * (p.param as i64 - 128)
        };
        out.push(Point { time: clamp64(moment_units(&p.at, MICRO_Q)), value, glide: false });
        i += 1;
        assert(out@ =~= pans@.map_values(f).take(i as int));
    }
    assert(out@ =~= pans@.map_values(f));
    out
}

fn volume_points_of(volumes: &Vec<VolumeChange>) -> (r: Vec<Point>)
    ensures
        r@ == volumes@.map_values(
            |v: VolumeChange|
                Point {
                    time: clamped(units_at(v.at, MICRO_Q as int)),
                    value: v.tracker_volume as i64,
                    glide: v.glide,
                },
        ),
{
    let ghost f = |v: VolumeChange|
        Point {
            time: clamped(units_at(v.at, MICRO_Q as int)),
            value: v.tracker_volume as i64,
            glide: v.glide,
        };
    let mut out: Vec<Point> = Vec::new();
    let mut i: usize = 0;
    while i < volumes.len()
        invariant
            i <= volumes.len(),
            f == (|v: VolumeChange|
                Point {
                    time: clamped(units_at(v.at, MICRO_Q as int)),
                    value: v.tracker_volume as i64,
                    glide: v.glide,
                }),
            out@ == volumes@.map_values(f).take(i as int),
        decreases volumes.len() - i,
    {
        let v: VolumeChange = volumes[i];
        out.push(
            Point {
                time: clamp64(moment_units(&v.at, MICRO_Q)),
                value: v.tracker_volume as i64,
                glide: v.glide,
            },
        );
        i += 1;
        assert(out@ =~= volumes@.map_values(f).take(i as int));
    }
    assert(out@ =~= volumes@.map_values(f));
    out
}

/// The points of an envelope, of the volume or of the panning.
pub open spec fn level_points(levels: Seq<EnvelopeLevel>, panning: bool) -> Seq<Point> {
    levels.map_values(
        |l: EnvelopeLevel|
            Point {
                time: clamped(units_level(l, MICRO_Q as int)),
                value: if panning {
                    envelope_parts(l.value) as i64
                } else {
                    l.value as i64
                },
                glide: l.glide,
            },
    )
}

fn level_points_of(levels: &Vec<EnvelopeLevel>, panning: bool) -> (r: Vec<Point>)
    ensures
        r@ == level_points(levels@, panning),
{
    let mut out: Vec<Point> = Vec::new();
    let mut i: usize = 0;
    while i < levels.len()
        invariant
            i <= levels.len(),
            out@ == level_points(levels@, panning).take(i as int),
        decreases levels.len() - i,
    {
        let l: EnvelopeLevel = levels[i];
        let value: i64 = if !panning {
            l.value as i64
        } else if l.value >= 64 {
            32
        } else {
            l.value as i64 - 32
        };
        out.push(Point { time: clamp64(level_units(&l, MICRO_Q)), value, glide: l.glide });
        i += 1;
        assert(out@ =~= level_points(levels@, panning).take(i as int));
    }
    assert(out@ =~= level_points(levels@, panning));
    out
}

/// The note event with its times worked out.
pub fn to_live(e: &NoteEvent, bends: &Vec<i64>) -> (r: LiveNote)
    requires
        bends.len() == e.bends.len(),
    ensures
        r@ == live_note(e@, bends@),
{
    let ghost whole = live_note(e@, bends@);
    let mut bend_points: Vec<Point> = Vec::new();
    let mut i: usize = 0;
    while i < e.bends.len()
        invariant
            i <= e.bends.len(),
            bends.len() == e.bends.len(),
            whole == live_note(e@, bends@),
            bend_points@ == whole.bends.take(i as int),
        decreases e.bends.len() - i,
    {
        let b: PitchBend = e.bends[i];
        bend_points.push(
            Point {
                time: clamp64(moment_units(&b.at, MICRO_Q)),
                value: bends[i],
                glide: b.glide,
            },
        );
        i += 1;
        assert(bend_points@ =~= whole.bends.take(i as int));
    }
    assert(bend_points@ =~= whole.bends);
    let r = LiveNote {
        start: clamp64(moment_units(&e.note.start, MICRO_Q)),
        end: clamp64(end_units(&e.note, &e.next_start, MICRO_Q)),
        length: clamp64(length_units(&e.note, &e.next_start, MICRO_Q)),
        row: e.note.start.row,
        pitch: e.note.pitch,
        velocity: e.note.velocity,
        trigger_volume: e.note.trigger_volume,
        channel: e.note.channel,
        sample_offset_frames: e.note.sample_offset_frames,
        bends: bend_points,
        volumes: volume_points_of(&e.volumes),
        pans: pan_points_of(&e.pans),
        envelope_volumes: level_points_of(&e.envelope_volumes, false),
        envelope_pans: level_points_of(&e.envelope_pans, true),
    };
    proof {
        assert(r.envelope_volumes@ =~= whole.envelope_volumes);
        assert(r.envelope_pans@ =~= whole.envelope_pans);
    }
    r
}

/// The linear gain of the track's fader for a tracker volume of `level / 64`, in millionths:
/// 12 dB below that volume relative to 64, kept within the fader's range of -70 dB to 6 dB.
/// (The factor is `10^(-12 / 20)`.)
pub open spec fn fader_gain(level: int) -> i64 {
    let gain = nearest(251_188_643_150_958 * level, 4_096_000_000_000);
    if gain < 316 {
        316
    } else if gain > 1_995_262 {
        1_995_262
    } else {
        gain as i64
    }
}

/// The gain of the track's fader for a volume in 64ths of a tracker volume.
pub fn volume_to_gain(level: i64) -> (r: i64)
    ensures
        r == fader_gain(level as int),
{
    if level <= 0 {
        assert(nearest(251_188_643_150_958 * level, 4_096_000_000_000) < 316) by {
            assert(2 * (251_188_643_150_958 * level) + 4_096_000_000_000 <= 4_096_000_000_000);
        }
        return 316;
    }
    let num: i128 = 251_188_643_150_958 * level as i128;
    let gain: i128 = (2 * num + 4_096_000_000_000) / 8_192_000_000_000;
    if gain < 316 {
        316
    } else if gain > 1_995_262 {
        1_995_262
    } else {
        gain as i64
    }
}

/// A louder volume never gives less gain.
pub proof fn law_gain_is_monotonic(a: int, b: int)
    requires
        a <= b,
    ensures
        fader_gain(a) <= fader_gain(b),
{
    crate::export::clock::law_nearest_is_monotonic(
        251_188_643_150_958 * a,
        4_096_000_000_000,
        251_188_643_150_958 * b,
        4_096_000_000_000,
    );
}

/// Volumes that differ have gains that differ, but for those that are too quiet for the fader and
/// those that are too loud for it: rounding makes no two of them the same.
pub proof fn law_gains_tell_volumes_apart(a: int, b: int)
    ensures
        fader_gain(a) == fader_gain(b) <==> a == b || (a <= 5 && b <= 5) || (a >= 32_536 && b
            >= 32_536),
{
    lemma_gain_of(a);
    lemma_gain_of(b);
    if a < b {
        lemma_gain_rises(a, b);
    } else if b < a {
        lemma_gain_rises(b, a);
    }
}

proof fn lemma_gain_of(x: int)
    ensures
        x <= 5 ==> nearest(251_188_643_150_958 * x, 4_096_000_000_000) < 316,
        x >= 6 ==> nearest(251_188_643_150_958 * x, 4_096_000_000_000) > 316,
        x <= 32_535 ==> nearest(251_188_643_150_958 * x, 4_096_000_000_000) < 1_995_262,
        x >= 32_536 ==> nearest(251_188_643_150_958 * x, 4_096_000_000_000) > 1_995_262,
{
    let n: int = 251_188_643_150_958;
    let d: int = 4_096_000_000_000;
    assert(nearest(251_188_643_150_958int * 5, 4_096_000_000_000) == 307)
        by (nonlinear_arith);
    assert(nearest(251_188_643_150_958int * 6, 4_096_000_000_000) == 368)
        by (nonlinear_arith);
    assert(nearest(251_188_643_150_958int * 32_535, 4_096_000_000_000) == 1_995_220)
        by (nonlinear_arith);
    assert(nearest(251_188_643_150_958int * 32_536, 4_096_000_000_000) == 1_995_282)
        by (nonlinear_arith);
    if x <= 5 {
        crate::export::clock::law_nearest_is_monotonic(n * x, d, n * 5, d);
    } else {
        crate::export::clock::law_nearest_is_monotonic(n * 6, d, n * x, d);
    }
    if x <= 32_535 {
        crate::export::clock::law_nearest_is_monotonic(n * x, d, n * 32_535, d);
    } else {
        crate::export::clock::law_nearest_is_monotonic(n * 32_536, d, n * x, d);
    }
}

proof fn lemma_gain_rises(a: int, b: int)
    requires
        a < b,
    ensures
        nearest(251_188_643_150_958 * a, 4_096_000_000_000) < nearest(
            251_188_643_150_958 * b,
            4_096_000_000_000,
        ),
{
    let n: int = 251_188_643_150_958;
    let d: int = 4_096_000_000_000;
    let x = 2 * (n * a) + d;
    crate::export::clock::law_nearest_is_monotonic(n * a + d, d, n * b, d);
    assert(2 * (n * a + d) + d == x + 2 * d);
    assert((x + 2 * d) / (2 * d) == x / (2 * d) + 1) by (nonlinear_arith)
        requires
            d > 0,
    ;
}

/// How many of the first `k` points have been reached: all up to the last one that is not
/// later than `t`.
pub open spec fn reached(points: Seq<Point>, t: i64, k: int) -> int
    decreases k,
{
    if k <= 0 {
        0
    } else if points[k - 1].time <= t {
        k
    } else {
        reached(points, t, k - 1)
    }
}

/// The value of a layer at a time, in 64ths: that of the last point, on the way to the next
/// one if that one glides. Before the first point it is the first one's value.
pub open spec fn value_at(points: Seq<Point>, t: i64) -> int {
    let k = reached(points, t, points.len() as int);
    if k == 0 {
        64 * points[0].value
    } else if k < points.len() && points[k].glide && points[k].time > points[k - 1].time {
        let a = points[k - 1];
        let b = points[k];
        nearest(
            64 * (a.value * (b.time - a.time) + (b.value - a.value) * (t - a.time)),
            b.time - a.time,
        )
    } else {
        64 * points[k - 1].value
    }
}

/// Values of layers that stay small.
pub open spec fn small_values(points: Seq<Point>) -> bool {
    forall|i: int|
        0 <= i < points.len() ==> -0x8000_0000 <= (#[trigger] points[i]).value <= 0xffff_ffff
}

proof fn lemma_between(a: int, b: int, gone: int, span: int)
    by (nonlinear_arith)
    requires
        -0x8000_0000 <= a <= 0xffff_ffff,
        -0x8000_0000 <= b <= 0xffff_ffff,
        0 <= gone <= span,
    ensures
        -0x40_0000_0000 * span <= 64 * (a * span + (b - a) * gone) <= 0x40_0000_0000 * span,
{
    assert(a * span + (b - a) * gone == a * (span - gone) + b * gone);
    assert(a * (span - gone) <= 0xffff_ffff * (span - gone));
    assert(b * gone <= 0xffff_ffff * gone);
    assert(a * (span - gone) >= -0x8000_0000 * (span - gone));
    assert(b * gone >= -0x8000_0000 * gone);
}

fn layer_value(points: &Vec<Point>, t: i64) -> (r: i128)
    requires
        points.len() > 0,
        small_values(points@),
    ensures
        r == value_at(points@, t),
        -0x40_0000_0000 <= r <= 0x40_0000_0000,
{
    let mut k: usize = points.len();
    while k > 0 && points[k - 1].time > t
        invariant
            k <= points.len(),
            reached(points@, t, k as int) == reached(points@, t, points.len() as int),
            k < points.len() ==> points[k as int].time > t,
        decreases k,
    {
        k -= 1;
    }
    if k == 0 {
        return 64 * points[0].value as i128;
    }
    let a: Point = points[k - 1];
    if k < points.len() && points[k].glide && points[k].time > a.time {
        let b: Point = points[k];
        let span: i128 = b.time as i128 - a.time as i128;
        let gone: i128 = t as i128 - a.time as i128;
        proof {
            assert(reached(points@, t, points.len() as int) == k);
            assert(-0x2_0000_0000_0000_0000_0000_0000 <= a.value * span
                <= 0x2_0000_0000_0000_0000_0000_0000) by (nonlinear_arith)
                requires
                    -0x8000_0000 <= a.value <= 0xffff_ffff,
                    0 <= span <= 0x1_0000_0000_0000_0000,
            ;
            assert(-0x4_0000_0000_0000_0000_0000_0000 <= (b.value - a.value) * gone
                <= 0x4_0000_0000_0000_0000_0000_0000) by (nonlinear_arith)
                requires
                    -0x8000_0000 <= a.value <= 0xffff_ffff,
                    -0x8000_0000 <= b.value <= 0xffff_ffff,
                    0 <= gone <= 0x1_0000_0000_0000_0000,
            ;
        }
        let num: i128 = 64 * (a.value as i128 * span + (b.value as i128 - a.value as i128) * gone);
        proof {
            lemma_between(a.value as int, b.value as int, gone as int, span as int);
            crate::export::clock::law_nearest_is_near(num as int, span as int);
            let r = nearest(num as int, span as int);
            assert(-0x40_0000_0000 <= r <= 0x40_0000_0000) by (nonlinear_arith)
                requires
                    -0x40_0000_0000 * span <= num <= 0x40_0000_0000 * span,
                    2 * num - span <= 2 * span * r <= 2 * num + span,
                    0 < span,
            ;
        }
        return round_signed(num, span as u128);
    }
    proof {
        assert(reached(points@, t, points.len() as int) == k);
    }
    64 * a.value as i128
}

/// The volume of the two layers together, in 64ths of a tracker volume: the envelope's 64 is
/// its full level.
pub open spec fn joint_volume(channel: int, envelope: int) -> int {
    nearest(channel * envelope, 4096)
}

/// The pan of the two layers together, in millionths: the envelope moves the channel's pan by
/// its part of what is left to the nearer side.
pub open spec fn joint_pan(channel: int, envelope: int) -> int {
    let size = if channel < 0 {
        -channel
    } else {
        channel
    };
    nearest(1_000_000 * (2048 * channel + envelope * (32_512 - size)), 66_584_576)
}

/// The points of the two layers together: at every point of either, what they come to.
pub open spec fn merged(layer: Seq<Point>, envelope: Seq<Point>, panning: bool) -> Seq<Point> {
    let a = in_time_order(layer);
    let b = in_time_order(envelope);
    in_time_order(layer + envelope).map_values(
        |p: Point|
            Point {
                value: if panning {
                    clamped(joint_pan(value_at(a, p.time), value_at(b, p.time)))
                } else {
                    fader_gain(joint_volume(value_at(a, p.time), value_at(b, p.time)))
                },
                ..p
            },
    )
}

/// The points of a layer without an envelope.
pub open spec fn plain(layer: Seq<Point>, panning: bool) -> Seq<Point> {
    layer.map_values(
        |p: Point|
            Point {
                value: if panning {
                    clamped(joint_pan(64 * p.value, 0))
                } else {
                    fader_gain(64 * p.value)
                },
                ..p
            },
    )
}

/// The points of a layer, with the envelope if there is one.
pub open spec fn layered(layer: Seq<Point>, envelope: Seq<Point>, panning: bool) -> Seq<Point> {
    if envelope.len() == 0 {
        plain(layer, panning)
    } else {
        merged(layer, envelope, panning)
    }
}

fn joint(channel: i128, envelope: i128, panning: bool) -> (r: i64)
    requires
        -0x40_0000_0000 <= channel <= 0x40_0000_0000,
        -0x40_0000_0000 <= envelope <= 0x40_0000_0000,
    ensures
        r == if panning {
            clamped(joint_pan(channel as int, envelope as int))
        } else {
            fader_gain(joint_volume(channel as int, envelope as int))
        },
{
    if panning {
        let size: i128 = if channel < 0 {
            -channel
        } else {
            channel
        };
        proof {
            assert(-0x20_0000_0000_0000_0000_0000 <= envelope * (32_512 - size)
                <= 0x20_0000_0000_0000_0000_0000) by (nonlinear_arith)
                requires
                    -0x40_0000_0000 <= envelope <= 0x40_0000_0000,
                    0 <= size <= 0x40_0000_0000,
            ;
        }
        clamp64(
            round_signed(1_000_000 * (2048 * channel + envelope * (32_512 - size)), 66_584_576),
        )
    } else {
        proof {
            assert(-0x10_0000_0000_0000_0000_0000 <= channel * envelope
                <= 0x10_0000_0000_0000_0000_0000) by (nonlinear_arith)
                requires
                    -0x40_0000_0000 <= envelope <= 0x40_0000_0000,
                    -0x40_0000_0000 <= channel <= 0x40_0000_0000,
            ;
        }
        gain_of(round_signed(channel * envelope, 4096))
    }
}

fn gain_of(level: i128) -> (r: i64)
    ensures
        r == fader_gain(level as int),
{
    if level > 0x1000_0000 {
        proof {
            law_gain_is_monotonic(0x1000_0000, level as int);
        }
        1_995_262
    } else if level < 0 {
        proof {
            law_gain_is_monotonic(level as int, 0);
        }
        316
    } else {
        volume_to_gain(level as i64)
    }
}

fn merge_with_envelope(layer: &Vec<Point>, envelope: &Vec<Point>, panning: bool) -> (r: Vec<Point>)
    requires
        layer.len() > 0,
        small_values(layer@),
        small_values(envelope@),
    ensures
        r@ == layered(layer@, envelope@, panning),
{
    let mut out: Vec<Point> = Vec::new();
    if envelope.len() == 0 {
        let mut i: usize = 0;
        while i < layer.len()
            invariant
                i <= layer.len(),
                small_values(layer@),
                out@ == plain(layer@, panning).take(i as int),
            decreases layer.len() - i,
        {
            let p: Point = layer[i];
            let value: i64 = if panning {
                joint(64 * p.value as i128, 0, true)
            } else {
                gain_of(64 * p.value as i128)
            };
            out.push(Point { time: p.time, value, glide: p.glide });
            i += 1;
            assert(out@ =~= plain(layer@, panning).take(i as int));
        }
        assert(out@ =~= plain(layer@, panning));
        return out;
    }
    let a: Vec<Point> = sort_points(layer);
    let b: Vec<Point> = sort_points(envelope);
    let mut both: Vec<Point> = Vec::new();
    let mut k: usize = 0;
    while k < layer.len()
        invariant
            k <= layer.len(),
            both@ == layer@.take(k as int),
        decreases layer.len() - k,
    {
        both.push(layer[k]);
        k += 1;
        assert(both@ =~= layer@.take(k as int));
    }
    let mut j: usize = 0;
    assert(both@ =~= layer@ + envelope@.take(0));
    while j < envelope.len()
        invariant
            j <= envelope.len(),
            both@ == layer@ + envelope@.take(j as int),
        decreases envelope.len() - j,
    {
        both.push(envelope[j]);
        j += 1;
        assert(both@ =~= layer@ + envelope@.take(j as int));
    }
    assert(both@ =~= layer@ + envelope@);
    let times: Vec<Point> = sort_points(&both);
    proof {
        lemma_sorted_small(layer@);
        lemma_sorted_small(envelope@);
        crate::export::automation::law_points_in_time_order(layer@);
        crate::export::automation::law_points_in_time_order(envelope@);
    }
    let mut i: usize = 0;
    while i < times.len()
        invariant
            i <= times.len(),
            a.len() > 0,
            b.len() > 0,
            small_values(a@),
            small_values(b@),
            a@ == in_time_order(layer@),
            b@ == in_time_order(envelope@),
            times@ == in_time_order(layer@ + envelope@),
            out@ == merged(layer@, envelope@, panning).take(i as int),
        decreases times.len() - i,
    {
        let p: Point = times[i];
        let value: i64 = joint(layer_value(&a, p.time), layer_value(&b, p.time), panning);
        out.push(Point { time: p.time, value, glide: p.glide });
        i += 1;
        assert(out@ =~= merged(layer@, envelope@, panning).take(i as int));
    }
    assert(out@ =~= merged(layer@, envelope@, panning));
    out
}

proof fn lemma_sorted_small(points: Seq<Point>)
    requires
        small_values(points),
    ensures
        small_values(in_time_order(points)),
    decreases points.len(),
{
    if points.len() > 0 {
        let d = points.drop_last();
        assert forall|i: int| 0 <= i < d.len() implies -0x8000_0000 <= (#[trigger] d[i]).value
            <= 0xffff_ffff by {
            assert(points[i] == d[i]);
        }
        lemma_sorted_small(d);
        assert(points[points.len() - 1] == points.last());
        lemma_inserted_small(in_time_order(d), points.last());
    }
}

proof fn lemma_inserted_small(points: Seq<Point>, p: Point)
    requires
        small_values(points),
        -0x8000_0000 <= p.value <= 0xffff_ffff,
    ensures
        small_values(crate::export::automation::insert_point(points, p)),
    decreases points.len(),
{
    let r = crate::export::automation::insert_point(points, p);
    if points.len() > 0 && points.last().time > p.time {
        let d = points.drop_last();
        assert forall|i: int| 0 <= i < d.len() implies -0x8000_0000 <= (#[trigger] d[i]).value
            <= 0xffff_ffff by {
            assert(points[i] == d[i]);
        }
        lemma_inserted_small(d, p);
        let q = crate::export::automation::insert_point(d, p);
        assert(points[points.len() - 1] == points.last());
        assert forall|i: int| 0 <= i < r.len() implies -0x8000_0000 <= (#[trigger] r[i]).value
            <= 0xffff_ffff by {
            if i < q.len() {
                assert(r[i] == q[i]);
            }
        }
    } else {
        assert forall|i: int| 0 <= i < r.len() implies -0x8000_0000 <= (#[trigger] r[i]).value
            <= 0xffff_ffff by {
            if i < points.len() {
                assert(r[i] == points[i]);
            }
        }
    }
}

/// The note's values are such as the formats have.
pub open spec fn live_wf(n: LiveNoteView) -> bool {
    &&& small_values(n.volumes)
    &&& small_values(n.pans)
    &&& small_values(n.envelope_volumes)
    &&& small_values(n.envelope_pans)
}

/// What is worked out of a note event has such values.
pub proof fn lemma_live_wf(e: NoteEventView, bends: Seq<i64>)
    ensures
        live_wf(live_note(e, bends)),
{
    let n = live_note(e, bends);
    assert forall|i: int| 0 <= i < n.volumes.len() implies -0x8000_0000 <= (
    #[trigger] n.volumes[i]).value <= 0xffff_ffff by {}
    assert forall|i: int| 0 <= i < n.pans.len() implies -0x8000_0000 <= (#[trigger] n.pans[i]).value
        <= 0xffff_ffff by {}
    assert forall|i: int| 0 <= i < n.envelope_volumes.len() implies -0x8000_0000 <= (
    #[trigger] n.envelope_volumes[i]).value <= 0xffff_ffff by {}
    assert forall|i: int| 0 <= i < n.envelope_pans.len() implies -0x8000_0000 <= (
    #[trigger] n.envelope_pans[i]).value <= 0xffff_ffff by {}
}

/// A point that jumps to a value.
pub open spec fn jump(time: i64, value: int) -> Point {
    Point { time, value: value as i64, glide: false }
}

/// The volume points of a note. Every note is bracketed by its own trigger volume, not only
/// those with a volume effect: the velocity of a note has no audible effect of its own.
pub open spec fn note_volume_points(n: LiveNoteView) -> Seq<Point> {
    let layer = seq![jump(n.start, n.trigger_volume as int)] + n.volumes;
    layered(layer, n.envelope_volumes, false).push(
        jump(n.end, fader_gain(64 * n.trigger_volume) as int),
    )
}

/// The pan that a note has by itself: the sample's, or that of the hardware routing.
pub open spec fn pan_baseline(n: LiveNoteView, panning: AmigaPanning, sample_pan: i32) -> int {
    if panning == AmigaPanning::Off {
        4 * sample_pan
    } else {
        hardware_pan(n.channel, panning)
    }
}

/// The pan points of a note: none where nothing moves it from the track's own pan.
pub open spec fn note_pan_points(n: LiveNoteView, panning: AmigaPanning, sample_pan: i32) -> Seq<
    Point,
> {
    let base = pan_baseline(n, panning, sample_pan);
    if n.pans.len() == 0 && n.envelope_pans.len() == 0 && panning == AmigaPanning::Off {
        Seq::empty()
    } else {
        layered(seq![jump(n.start, base)] + n.pans, n.envelope_pans, true).push(
            jump(n.end, clamped(joint_pan(64 * base, 0)) as int),
        )
    }
}

/// The pitch points of a note: none where it has no bend.
pub open spec fn note_bend_points(n: LiveNoteView) -> Seq<Point> {
    if n.bends.len() == 0 {
        Seq::empty()
    } else {
        seq![jump(n.start, 0)] + n.bends + seq![jump(n.end, 0)]
    }
}

/// The volume points of several notes.
pub open spec fn volume_points(notes: Seq<LiveNoteView>) -> Seq<Point>
    decreases notes.len(),
{
    if notes.len() == 0 {
        Seq::empty()
    } else {
        volume_points(notes.drop_last()) + note_volume_points(notes.last())
    }
}

/// The pan points of several notes.
pub open spec fn pan_points(notes: Seq<LiveNoteView>, panning: AmigaPanning, sample_pan: i32) -> Seq<
    Point,
>
    decreases notes.len(),
{
    if notes.len() == 0 {
        Seq::empty()
    } else {
        pan_points(notes.drop_last(), panning, sample_pan) + note_pan_points(
            notes.last(),
            panning,
            sample_pan,
        )
    }
}

/// The pitch points of several notes.
pub open spec fn bend_points(notes: Seq<LiveNoteView>) -> Seq<Point>
    decreases notes.len(),
{
    if notes.len() == 0 {
        Seq::empty()
    } else {
        bend_points(notes.drop_last()) + note_bend_points(notes.last())
    }
}

fn add_all(points: &mut Vec<Point>, more: &Vec<Point>)
    ensures
        final(points)@ == old(points)@ + more@,
{
    let ghost start = points@;
    let mut i: usize = 0;
    assert(start + more@.take(0) =~= start);
    while i < more.len()
        invariant
            i <= more.len(),
            points@ == start + more@.take(i as int),
        decreases more.len() - i,
    {
        points.push(more[i]);
        i += 1;
        assert(points@ =~= start + more@.take(i as int));
    }
    assert(more@.take(i as int) =~= more@);
}

/// The marks of the volume curve of a track.
pub fn volume_marks(notes: &Vec<LiveNote>) -> (r: Vec<Mark>)
    requires
        forall|i: int| 0 <= i < notes.len() ==> live_wf((#[trigger] notes[i])@),
    ensures
        r@ == stepped(in_time_order(volume_points(live_views(notes@)))),
{
    let ghost views = live_views(notes@);
    let mut points: Vec<Point> = Vec::new();
    let mut i: usize = 0;
    assert(views.take(0) =~= Seq::<LiveNoteView>::empty());
    while i < notes.len()
        invariant
            i <= notes.len(),
            views == live_views(notes@),
            forall|i: int| 0 <= i < notes.len() ==> live_wf((#[trigger] notes[i])@),
            points@ == volume_points(views.take(i as int)),
        decreases notes.len() - i,
    {
        let n: &LiveNote = &notes[i];
        proof {
            assert(live_wf(notes[i as int]@));
            assert(views.take(i + 1).drop_last() =~= views.take(i as int));
            assert(views.take(i + 1).last() == n@);
        }
        let mut layer: Vec<Point> = Vec::new();
        layer.push(Point { time: n.start, value: n.trigger_volume as i64, glide: false });
        let ghost first = layer@;
        add_all(&mut layer, &n.volumes);
        proof {
            assert(layer@ =~= seq![jump(n.start, n.trigger_volume as int)] + n.volumes@);
            assert forall|k: int| 0 <= k < layer.len() implies -0x8000_0000 <= (
            #[trigger] layer[k]).value <= 0xffff_ffff by {
                if k > 0 {
                    assert(layer[k] == n.volumes[k - 1]);
                }
            }
        }
        let body: Vec<Point> = merge_with_envelope(&layer, &n.envelope_volumes, false);
        let ghost before = points@;
        add_all(&mut points, &body);
        points.push(
            Point { time: n.end, value: gain_of(64 * n.trigger_volume as i128), glide: false },
        );
        assert(points@ =~= before + note_volume_points(n@));
        i += 1;
    }
    assert(views.take(i as int) =~= views);
    let sorted: Vec<Point> = sort_points(&points);
    step_points_with_glide(&sorted)
}

/// The marks of the panorama curve of a track.
pub fn pan_marks(notes: &Vec<LiveNote>, panning: AmigaPanning, sample_pan: i32) -> (r: Vec<Mark>)
    requires
        forall|i: int| 0 <= i < notes.len() ==> live_wf((#[trigger] notes[i])@),
        -127 <= sample_pan <= 127,
    ensures
        r@ == stepped(in_time_order(pan_points(live_views(notes@), panning, sample_pan))),
{
    let ghost views = live_views(notes@);
    let mut points: Vec<Point> = Vec::new();
    let mut i: usize = 0;
    assert(views.take(0) =~= Seq::<LiveNoteView>::empty());
    while i < notes.len()
        invariant
            i <= notes.len(),
            -127 <= sample_pan <= 127,
            views == live_views(notes@),
            forall|i: int| 0 <= i < notes.len() ==> live_wf((#[trigger] notes[i])@),
            points@ == pan_points(views.take(i as int), panning, sample_pan),
        decreases notes.len() - i,
    {
        let n: &LiveNote = &notes[i];
        proof {
            assert(live_wf(notes[i as int]@));
            assert(views.take(i + 1).drop_last() =~= views.take(i as int));
            assert(views.take(i + 1).last() == n@);
        }
        let off: bool = panning == AmigaPanning::Off;
        let base: i64 = if off {
            4 * sample_pan as i64
        } else {
            amiga_pan(n.channel, panning)
        };
        let ghost before = points@;
        if n.pans.len() == 0 && n.envelope_pans.len() == 0 && off {
            assert(points@ =~= before + note_pan_points(n@, panning, sample_pan));
        } else {
            let mut layer: Vec<Point> = Vec::new();
            layer.push(Point { time: n.start, value: base, glide: false });
            add_all(&mut layer, &n.pans);
            proof {
                assert(layer@ =~= seq![jump(n.start, base as int)] + n.pans@);
                assert forall|k: int| 0 <= k < layer.len() implies -0x8000_0000 <= (
                #[trigger] layer[k]).value <= 0xffff_ffff by {
                    if k > 0 {
                        assert(layer[k] == n.pans[k - 1]);
                    }
                }
            }
            let body: Vec<Point> = merge_with_envelope(&layer, &n.envelope_pans, true);
            add_all(&mut points, &body);
            points.push(
                Point { time: n.end, value: joint(64 * base as i128, 0, true), glide: false },
            );
            assert(points@ =~= before + note_pan_points(n@, panning, sample_pan));
        }
        i += 1;
    }
    assert(views.take(i as int) =~= views);
    let sorted: Vec<Point> = sort_points(&points);
    step_points_with_glide(&sorted)
}

/// The marks of the pitch curve of a track.
pub fn bend_marks(notes: &Vec<LiveNote>) -> (r: Vec<Mark>)
    ensures
        r@ == stepped(in_time_order(bend_points(live_views(notes@)))),
{
    let ghost views = live_views(notes@);
    let mut points: Vec<Point> = Vec::new();
    let mut i: usize = 0;
    assert(views.take(0) =~= Seq::<LiveNoteView>::empty());
    while i < notes.len()
        invariant
            i <= notes.len(),
            views == live_views(notes@),
            points@ == bend_points(views.take(i as int)),
        decreases notes.len() - i,
    {
        let n: &LiveNote = &notes[i];
        proof {
            assert(views.take(i + 1).drop_last() =~= views.take(i as int));
            assert(views.take(i + 1).last() == n@);
        }
        let ghost before = points@;
        if n.bends.len() > 0 {
            points.push(Point { time: n.start, value: 0, glide: false });
            add_all(&mut points, &n.bends);
            points.push(Point { time: n.end, value: 0, glide: false });
        }
        assert(points@ =~= before + note_bend_points(n@));
        i += 1;
    }
    assert(views.take(i as int) =~= views);
    let sorted: Vec<Point> = sort_points(&points);
    step_points_with_glide(&sorted)
}

/// A volume envelope at its full level leaves the channel's volume as it is.
pub proof fn law_full_envelope_is_neutral(channel: int)
    ensures
        joint_volume(64 * channel, 4096) == 64 * channel,
{
    assert((64 * channel) * 4096 == 4096 * (64 * channel));
    assert(nearest(4096 * (64 * channel), 4096) == 64 * channel) by {
        assert((2 * (4096 * (64 * channel)) + 4096) / 8192 == 64 * channel);
    }
}

/// A panning envelope at its center leaves the channel's pan as it is.
pub proof fn law_centered_envelope_is_neutral(channel: int)
    ensures
        joint_pan(channel, 0) == nearest(1_000_000 * (2048 * channel), 66_584_576),
{
    assert(0 * (32_512 - channel) == 0);
    assert(0 * (32_512 + channel) == 0);
}

} // verus!
