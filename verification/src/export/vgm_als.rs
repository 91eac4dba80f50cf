//! Live sets made of chip rips: audio tracks of the rendered stems, and beside them tracks that
//! play the chips' registers on Live's own instruments.
use crate::export::automation::{
    build_automation_envelope, fmt_number, next_behind_envelope, number_text,
    step_points_with_glide, stepped, with_envelope, Mark,
};
use crate::export::clip::{build_clip, clip_of, ClippedNote};
use crate::export::clock::{nearest, round_signed};
use crate::export::ids::{after, next_after, renumber_global_ids, renumbered, IdCounter};
use crate::export::pace::Pace;
use crate::export::sampler::{
    clips_path, set_file, target, target_of, with_file, SampleFile, SampleFileView,
};
use crate::export::vgm_operator::{
    feedback_percent, feedback_to_percent, level_gain, opl_rate_to_ms, opl_sustain_level_to_gain,
    opl_total_level_to_gain, rate_time, sustain_gain, OperatorRegs, OperatorTrack,
    OperatorTrackView, OplRegisters,
};
use crate::export::vgm_wavetable::{
    frame_views, ChannelTrack, ChannelTrackView, WaveformFrame,
};
use crate::export::wav::{make_safe, safe_or};
use crate::text::{
    count_text, decimal, decimal_string, push_decimal_padded, string_views, zero_padded,
};
use crate::xmlutil::{
    child, child_of, find, find_in, is_tree, pairs, part_at, set_values, with_attribute,
    with_child, with_values, without, Doc, Document,
};
use vstd::prelude::*;

verus! {

/// A name made fit for a file name.
pub fn sanitize_filename(name: &str) -> (r: String)
    ensures
        r@ == safe_or(name@, "track"@),
{
    make_safe(name, "track")
}

/// The first part of the names of a stem's files.
pub open spec fn stem_file_start(index: int, name: Seq<char>) -> Seq<char> {
    zero_padded(decimal(index + 1), 2) + "_"@ + safe_or(name, "track"@)
}

/// The names of the WAV files of stem `index`: one, or two where it is cut at a loop point.
pub open spec fn stem_files(index: int, name: Seq<char>, split: bool) -> Seq<Seq<char>> {
    let start = stem_file_start(index, name);
    if split {
        seq![start + "_intro.wav"@, start + "_loop.wav"@]
    } else {
        seq![start + ".wav"@]
    }
}

pub fn stem_file_names(index: u32, name: &str, split: bool) -> (r: Vec<String>)
    ensures
        string_views(r@) == stem_files(index as int, name@, split),
{
    let safe: String = sanitize_filename(name);
    let mut start: String = String::new();
    push_decimal_padded(&mut start, index as u64 + 1, 2);
    assert(start@ =~= zero_padded(decimal(index + 1), 2));
    start.append("_");
    start.append(safe.as_str());
    let mut out: Vec<String> = Vec::new();
    if split {
        let mut intro: String = start.clone();
        intro.append("_intro.wav");
        let mut repeat: String = start;
        repeat.append("_loop.wav");
        out.push(intro);
        out.push(repeat);
    } else {
        let mut full: String = start;
        full.append(".wav");
        out.push(full);
    }
    assert(string_views(out@) =~= stem_files(index as int, name@, split));
    out
}

/// Where a rendered sound is cut in two: at the loop point that the file declares, if that
/// lies within the sound.
pub open spec fn split_point(loop_start: Option<u64>, frames: usize) -> Option<usize> {
    match loop_start {
        Some(s) => if 0 < s < frames {
            Some(s as usize)
        } else {
            None
        },
        None => None,
    }
}

pub fn loop_split(loop_start: Option<u64>, frames: usize) -> (r: Option<usize>)
    ensures
        r == split_point(loop_start, frames),
{
    match loop_start {
        Some(s) => if 0 < s && s < frames as u64 {
            Some(s as usize)
        } else {
            None
        },
        None => None,
    }
}

/// The parts that a stem is cut into, from which frame to which, and what their clips are called:
/// the intro up to the loop point and the loop from there, or the whole.
pub open spec fn parts_of(split: Option<usize>, frames: usize) -> Seq<(int, int, Seq<char>)> {
    match split {
        Some(s) => seq![(0int, s as int, "intro"@), (s as int, frames as int, "loop"@)],
        None => seq![(0int, frames as int, ""@)],
    }
}

/// What parts of a stem are.
pub open spec fn part_views(parts: Seq<(usize, usize, String)>) -> Seq<(int, int, Seq<char>)> {
    parts.map_values(|p: (usize, usize, String)| (p.0 as int, p.1 as int, p.2@))
}

pub fn stem_segments(split: Option<usize>, frames: usize) -> (r: Vec<(usize, usize, String)>)
    requires
        split matches Some(s) ==> 0 < s < frames,
    ensures
        part_views(r@) == parts_of(split, frames),
{
    let mut out: Vec<(usize, usize, String)> = Vec::new();
    match split {
        Some(s) => {
            out.push((0, s, "intro".to_owned()));
            out.push((s, frames, "loop".to_owned()));
        },
        None => {
            out.push((0, frames, "".to_owned()));
        },
    }
    assert(part_views(out@) =~= parts_of(split, frames));
    out
}

/// A part of a stem, which becomes a clip.
#[derive(Debug)]
pub struct AudioSegment {
    pub frames: u32,
    /// Stands behind the track's name in the clip's, if it is not empty.
    pub suffix: String,
    /// The name of the WAV file.
    pub wav: String,
    pub file: SampleFile,
}

/// What an `AudioSegment` holds.
#[verifier::ext_equal]
pub struct AudioSegmentView {
    pub frames: u32,
    pub suffix: Seq<char>,
    pub wav: Seq<char>,
    pub file: SampleFileView,
}

impl View for AudioSegment {
    type V = AudioSegmentView;

    open spec fn view(&self) -> AudioSegmentView {
        AudioSegmentView {
            frames: self.frames,
            suffix: self.suffix@,
            wav: self.wav@,
            file: self.file@,
        }
    }
}

/// What segments hold.
pub open spec fn segment_views(segments: Seq<AudioSegment>) -> Seq<AudioSegmentView> {
    segments.map_values(|s: AudioSegment| s@)
}

/// A number of frames in millionths of a second.
pub open spec fn second_micros(frames: u32) -> i64 {
    nearest(1_000_000 * frames, 44_100) as i64
}

fn seconds(frames: u32) -> (r: i64)
    ensures
        r == second_micros(frames),
{
    let v: i128 = round_signed(1_000_000 * frames as i128, 44_100);
    assert(0 <= (2 * (1_000_000 * frames) + 44_100) / 88_200int <= 97_400_000_000);
    v as i64
}

/// The values of an audio clip. Its place is in beats of the Arrangement; what part of the file
/// it plays is in seconds of the file, since it is not warped.
pub open spec fn audio_clip_values(
    start: Seq<char>,
    end: Seq<char>,
    length: Seq<char>,
    name: Seq<char>,
    color: int,
) -> Seq<(Seq<char>, Seq<char>)> {
    seq![
        ("./CurrentStart"@, start),
        ("./CurrentEnd"@, end),
        ("./Loop/LoopStart"@, "0"@),
        ("./Loop/LoopEnd"@, length),
        ("./Loop/HiddenLoopStart"@, "0"@),
        ("./Loop/HiddenLoopEnd"@, length),
        ("./Loop/OutMarker"@, end),
        ("./Loop/LoopOn"@, "false"@),
        ("./Name"@, name),
        ("./Color"@, decimal(color)),
        ("./ScrollerTimePreserver/LeftTime"@, "0"@),
        ("./ScrollerTimePreserver/RightTime"@, length),
    ]
}

/// The values of the reference to a sound.
pub open spec fn sound_values(frames: int, now: u64) -> Seq<(Seq<char>, Seq<char>)> {
    seq![
        ("./SampleRef/LastModDate"@, decimal(now as int)),
        ("./SampleRef/DefaultDuration"@, decimal(frames)),
        ("./SampleRef/DefaultSampleRate"@, "44100"@),
        ("./SampleRef/SamplesToAutoWarp"@, "0"@),
    ]
}

/// An audio clip made of the template's. None where that lacks a part.
pub open spec fn audio_clip(
    template: Doc,
    id: int,
    start: i64,
    end: i64,
    name: Seq<char>,
    color: int,
    segment: AudioSegmentView,
) -> Option<Doc> {
    let placed = with_attribute(
        with_attribute(template, 0, "Id"@, decimal(id)),
        0,
        "Time"@,
        number_text(start as int),
    );
    match with_values(
        placed,
        0,
        audio_clip_values(
            number_text(start as int),
            number_text(end as int),
            number_text(second_micros(segment.frames) as int),
            name,
            color,
        ),
    ) {
        None => None,
        Some(d) => match with_file(d, 0, segment.wav, segment.file) {
            None => None,
            Some(e) => with_values(e, 0, sound_values(segment.frames as int, segment.file.now)),
        },
    }
}

fn build_audio_clip(
    template: &Document,
    id: usize,
    start: i64,
    end: i64,
    name: &str,
    color: i64,
    segment: &AudioSegment,
) -> (r: Option<Document>)
    requires
        template.nodes.len() > 0,
    ensures
        ({
            let out = audio_clip(
                template@,
                id as int,
                start,
                end,
                name@,
                color as int,
                segment@,
            );
            match r {
                Some(d) => out == Some(d@) && (is_tree(template@) ==> is_tree(d@)),
                None => out is None,
            }
        }),
{
    let mut clip: Document = template.clone();
    assert(clip.nodes.len() == clip@.len() && template.nodes.len() == template@.len());
    let id_text: String = count_text(id as u64);
    let start_text: String = fmt_number(start);
    let end_text: String = fmt_number(end);
    let length: String = fmt_number(seconds(segment.frames));
    let color_text: String = decimal_string(color);
    clip.set_attribute(0, "Id", id_text.as_str());
    clip.set_attribute(0, "Time", start_text.as_str());
    let values: Vec<(&str, &str)> = vec![
        ("./CurrentStart", start_text.as_str()),
        ("./CurrentEnd", end_text.as_str()),
        ("./Loop/LoopStart", "0"),
        ("./Loop/LoopEnd", length.as_str()),
        ("./Loop/HiddenLoopStart", "0"),
        ("./Loop/HiddenLoopEnd", length.as_str()),
        ("./Loop/OutMarker", end_text.as_str()),
        ("./Loop/LoopOn", "false"),
        ("./Name", name),
        ("./Color", color_text.as_str()),
        ("./ScrollerTimePreserver/LeftTime", "0"),
        ("./ScrollerTimePreserver/RightTime", length.as_str()),
    ];
    assert(pairs(values@) =~= audio_clip_values(
        number_text(start as int),
        number_text(end as int),
        number_text(second_micros(segment.frames) as int),
        name@,
        color as int,
    ));
    if !set_values(&mut clip, 0, &values) {
        return None;
    }
    if !set_file(&mut clip, 0, segment.wav.as_str(), &segment.file) {
        return None;
    }
    let now: String = count_text(segment.file.now);
    let frames: String = decimal_string(segment.frames as i64);
    let sound: Vec<(&str, &str)> = vec![
        ("./SampleRef/LastModDate", now.as_str()),
        ("./SampleRef/DefaultDuration", frames.as_str()),
        ("./SampleRef/DefaultSampleRate", "44100"),
        ("./SampleRef/SamplesToAutoWarp", "0"),
    ];
    assert(pairs(sound@) =~= sound_values(segment.frames as int, segment.file.now));
    if set_values(&mut clip, 0, &sound) {
        Some(clip)
    } else {
        None
    }
}

/// How many frames the first `k` segments have.
pub open spec fn frames_before(segments: Seq<AudioSegmentView>, k: int) -> int
    decreases k,
{
    if k <= 0 {
        0
    } else {
        frames_before(segments, k - 1) + segments[k - 1].frames
    }
}

/// The name of a clip.
pub open spec fn clip_name(name: Seq<char>, suffix: Seq<char>) -> Seq<char> {
    if suffix.len() == 0 {
        name
    } else {
        name + " ("@ + suffix + ")"@
    }
}

/// The track with the clips of the first `k` segments, one behind the other.
pub open spec fn with_audio_clips(
    d: Doc,
    at: int,
    template: Doc,
    name: Seq<char>,
    color: int,
    segments: Seq<AudioSegmentView>,
    pace: Pace,
    k: int,
) -> Option<Doc>
    decreases k,
{
    if k <= 0 {
        Some(d)
    } else {
        match with_audio_clips(d, at, template, name, color, segments, pace, k - 1) {
            None => None,
            Some(e) => match audio_clip(
                template,
                k - 1,
                pace.micros(frames_before(segments, k - 1)),
                pace.micros(frames_before(segments, k)),
                clip_name(name, segments[k - 1].suffix),
                color,
                segments[k - 1],
            ) {
                Some(clip) => Some(with_child(e, at, clip)),
                None => None,
            },
        }
    }
}

proof fn lemma_audio_clips_stop(
    d: Doc,
    at: int,
    template: Doc,
    name: Seq<char>,
    color: int,
    segments: Seq<AudioSegmentView>,
    pace: Pace,
    k: int,
    n: int,
)
    requires
        0 <= k <= n,
        with_audio_clips(d, at, template, name, color, segments, pace, k) is None,
    ensures
        with_audio_clips(d, at, template, name, color, segments, pace, n) is None,
    decreases n,
{
    if k < n {
        lemma_audio_clips_stop(d, at, template, name, color, segments, pace, k, n - 1);
    }
}

fn full_name(name: &str, suffix: &String) -> (r: String)
    ensures
        r@ == clip_name(name@, suffix@),
{
    let mut full: String = name.to_owned();
    if !suffix.as_str().is_empty() {
        full.append(" (");
        full.append(suffix.as_str());
        full.append(")");
    }
    full
}

/// The segments are few enough for their frames to be counted.
pub open spec fn countable(segments: Seq<AudioSegmentView>) -> bool {
    segments.len() <= 0xffff_ffff
}

fn add_audio_clips(
    track: &mut Document,
    at: usize,
    template: &Document,
    name: &str,
    color: i64,
    segments: &Vec<AudioSegment>,
    pace: &Pace,
) -> (r: bool)
    requires
        at < old(track).nodes.len(),
        old(track)@[at as int].content is Element,
        template.nodes.len() > 0,
        pace.wf(),
        countable(segment_views(segments@)),
    ensures
        ({
            let out = with_audio_clips(
                old(track)@,
                at as int,
                template@,
                name@,
                color as int,
                segment_views(segments@),
                *pace,
                segments.len() as int,
            );
            &&& r == (out is Some)
            &&& r ==> out == Some(final(track)@)
        }),
        final(track).nodes.len() >= old(track).nodes.len(),
        is_tree(old(track)@) && is_tree(template@) ==> is_tree(final(track)@),
{
    let ghost d = track@;
    let ghost views = segment_views(segments@);
    let mut done: u64 = 0;
    let mut k: usize = 0;
    while k < segments.len()
        invariant
            k <= segments.len(),
            segments.len() <= 0xffff_ffff,
            d == old(track)@,
            at < track.nodes.len(),
            old(track).nodes.len() <= track.nodes.len(),
            track@[at as int].content is Element,
            template.nodes.len() > 0,
            pace.wf(),
            views == segment_views(segments@),
            done == frames_before(views, k as int),
            done <= k * 0xffff_ffff,
            with_audio_clips(
                d,
                at as int,
                template@,
                name@,
                color as int,
                views,
                *pace,
                k as int,
            ) == Some(track@),
            is_tree(d) && is_tree(template@) ==> is_tree(track@),
        decreases segments.len() - k,
    {
        let segment: &AudioSegment = &segments[k];
        assert(views[k as int] == segment@);
        assert(k * 0xffff_ffff + 0xffff_ffff == (k + 1) * 0xffff_ffff && (k + 1) * 0xffff_ffff
            <= 0xffff_ffff * 0xffff_ffff) by (nonlinear_arith)
            requires
                0 <= k < 0xffff_ffff,
        ;
        let next: u64 = done + segment.frames as u64;
        let start: i64 = pace.samples_to_beats(done);
        let end: i64 = pace.samples_to_beats(next);
        let own_name: String = full_name(name, &segment.suffix);
        match build_audio_clip(template, k, start, end, own_name.as_str(), color, segment) {
            Some(clip) => {
                let ghost before = track@;
                track.append_child(at, clip);
                proof {
                    crate::xmlutil::lemma_end(before, before[at as int].depth, at + 1);
                    assert(track@[at as int] == before[at as int]);
                }
            },
            None => {
                proof {
                    lemma_audio_clips_stop(
                        d,
                        at as int,
                        template@,
                        name@,
                        color as int,
                        views,
                        *pace,
                        k + 1,
                        segments.len() as int,
                    );
                }
                return false;
            },
        }
        done = next;
        k += 1;
    }
    true
}

/// Every track is 6 dB down, so that they do not clip together.
pub const TRACK_GAIN: i64 = 501_187;

/// The values of an audio track.
pub open spec fn audio_track_values(name: Seq<char>, color: int) -> Seq<(Seq<char>, Seq<char>)> {
    seq![
        ("./Name/EffectiveName"@, name),
        ("./Name/UserName"@, name),
        ("./Color"@, decimal(color)),
        ("./TrackUnfolded"@, "false"@),
        ("./DeviceChain/MainSequencer/Recorder/IsArmed"@, "false"@),
        ("./DeviceChain/FreezeSequencer/Recorder/IsArmed"@, "false"@),
        ("./DeviceChain/Mixer/Volume/Manual"@, number_text(TRACK_GAIN as int)),
    ]
}

/// A track made of the template's, renumbered and with these values; and the next number.
pub open spec fn prepared(template: Doc, next: u64, values: Seq<(Seq<char>, Seq<char>)>) -> Option<
    (Doc, u64),
> {
    let numbered = with_attribute(template, 0, "Id"@, decimal(next as int));
    match with_values(renumbered(numbered, after(next)), 0, values) {
        Some(d) => Some((d, next_after(numbered, after(next)))),
        None => None,
    }
}

fn prepare(template: &Document, ids: &mut IdCounter, values: &Vec<(&str, &str)>) -> (r: Option<
    Document,
>)
    requires
        template.nodes.len() > 0,
    ensures
        match r {
            Some(d) => prepared(template@, old(ids).next, pairs(values@)) == Some(
                (d@, final(ids).next),
            ) && d.nodes.len() > 0 && (is_tree(template@) ==> is_tree(d@)),
            None => prepared(template@, old(ids).next, pairs(values@)) is None,
        },
{
    let mut track: Document = template.clone();
    assert(track.nodes.len() == track@.len() && template.nodes.len() == template@.len());
    let id: String = ids.take_text();
    track.set_attribute(0, "Id", id.as_str());
    renumber_global_ids(&mut track, ids);
    if set_values(&mut track, 0, values) {
        Some(track)
    } else {
        None
    }
}

/// An audio track, and the next number behind it.
#[verifier::opaque]
pub open spec fn audio_track(
    template: Doc,
    next: u64,
    name: Seq<char>,
    color: int,
    segments: Seq<AudioSegmentView>,
    pace: Pace,
) -> Option<(Doc, u64)> {
    match prepared(template, next, audio_track_values(name, color)) {
        None => None,
        Some((d, behind)) => match find_in(
            d,
            0,
            ".//DeviceChain/MainSequencer/Sample/ArrangerAutomation/Events"@,
        ) {
            None => None,
            Some(at) => match child_of(d, at, "AudioClip"@) {
                None => None,
                Some(clip) => match with_audio_clips(
                    without(d, clip),
                    at,
                    part_at(d, clip),
                    name,
                    color,
                    segments,
                    pace,
                    segments.len() as int,
                ) {
                    None => None,
                    Some(e) => Some((e, behind)),
                },
            },
        },
    }
}

/// Builds an audio track with a clip for each segment, one behind the other.
pub fn build_audio_track(
    template: &Document,
    ids: &mut IdCounter,
    name: &str,
    color: i64,
    segments: &Vec<AudioSegment>,
    pace: &Pace,
) -> (r: Option<Document>)
    requires
        template.nodes.len() > 0,
        pace.wf(),
        countable(segment_views(segments@)),
    ensures
        ({
            let out = audio_track(
                template@,
                old(ids).next,
                name@,
                color as int,
                segment_views(segments@),
                *pace,
            );
            match r {
                Some(d) => out == Some((d@, final(ids).next)) && d.nodes.len() > 0 && (is_tree(
                    template@,
                ) ==> is_tree(d@)),
                None => out is None,
            }
        }),
{
    proof {
        reveal(audio_track);
    }
    let color_text: String = decimal_string(color);
    let gain: String = fmt_number(TRACK_GAIN);
    let values: Vec<(&str, &str)> = vec![
        ("./Name/EffectiveName", name),
        ("./Name/UserName", name),
        ("./Color", color_text.as_str()),
        ("./TrackUnfolded", "false"),
        ("./DeviceChain/MainSequencer/Recorder/IsArmed", "false"),
        ("./DeviceChain/FreezeSequencer/Recorder/IsArmed", "false"),
        ("./DeviceChain/Mixer/Volume/Manual", gain.as_str()),
    ];
    assert(pairs(values@) =~= audio_track_values(name@, color as int));
    let mut track: Document = match prepare(template, ids, &values) {
        Some(t) => t,
        None => {
            return None;
        },
    };
    let at: usize = match find(
        &track,
        0,
        ".//DeviceChain/MainSequencer/Sample/ArrangerAutomation/Events",
    ) {
        Some(i) => i,
        None => {
            return None;
        },
    };
    match child(&track, at, "AudioClip") {
        None => None,
        Some(clip) => {
            let clip_template: Document = track.copy(clip);
            let ghost d = track@;
            track.remove(clip);
            proof {
                crate::xmlutil::lemma_end(d, d[clip as int].depth, clip + 1);
                assert(track@[at as int] == d[at as int]);
            }
            if add_audio_clips(&mut track, at, &clip_template, name, color, segments, pace) {
                Some(track)
            } else {
                None
            }
        },
    }
}

/// The track with an envelope, where it has what the envelope drives and a place for it; and
/// the next number.
pub open spec fn with_curve(d: Doc, next: u64, path: Seq<char>, marks: Seq<Mark>) -> (Doc, u64) {
    match target_of(d, path) {
        None => (d, next),
        Some(id) => match find_in(d, 0, "./AutomationEnvelopes/Envelopes"@) {
            None => (d, next),
            Some(at) => (
                with_envelope(d, at, marks, id, 0, next),
                next_behind_envelope(marks, next),
            ),
        },
    }
}

fn add_curve(track: &mut Document, ids: &mut IdCounter, path: &str, marks: &Vec<Mark>)
    requires
        old(track).nodes.len() > 0,
    ensures
        (final(track)@, final(ids).next) == with_curve(
            old(track)@,
            old(ids).next,
            path@,
            marks@,
        ),
        final(track).nodes.len() > 0,
        is_tree(old(track)@) ==> is_tree(final(track)@),
{
    match target(track, path) {
        None => {},
        Some(id) => match find(track, 0, "./AutomationEnvelopes/Envelopes") {
            None => {},
            Some(at) => {
                build_automation_envelope(track, at, marks, id.as_str(), ids, 0);
            },
        },
    }
}

/// The track with one clip for the whole song in place of the template's.
pub open spec fn with_song_clip(
    d: Doc,
    name: Seq<char>,
    notes: Seq<ClippedNote>,
    end: i64,
    color: int,
) -> Option<Doc> {
    match find_in(d, 0, clips_path()) {
        None => None,
        Some(at) => match child_of(d, at, "MidiClip"@) {
            None => None,
            Some(clip) => match clip_of(part_at(d, clip), name, 0, end, notes, 0, color) {
                Some(c) => Some(with_child(without(d, clip), at, c)),
                None => None,
            },
        },
    }
}

fn set_song_clip(
    track: &mut Document,
    name: &str,
    notes: &Vec<ClippedNote>,
    end: i64,
    color: i64,
) -> (r: bool)
    requires
        old(track).nodes.len() > 0,
    ensures
        ({
            let out = with_song_clip(old(track)@, name@, notes@, end, color as int);
            &&& r == (out is Some)
            &&& r ==> out == Some(final(track)@)
        }),
        final(track).nodes.len() > 0,
        is_tree(old(track)@) ==> is_tree(final(track)@),
{
    let at: usize = match find(track, 0, ".//ClipTimeable/ArrangerAutomation/Events") {
        Some(i) => i,
        None => {
            return false;
        },
    };
    match child(track, at, "MidiClip") {
        None => false,
        Some(clip) => {
            let template: Document = track.copy(clip);
            match build_clip(&template, name, 0, end, notes, 0, color) {
                None => false,
                Some(c) => {
                    let ghost d = track@;
                    track.remove(clip);
                    proof {
                        crate::xmlutil::lemma_end(d, d[clip as int].depth, clip + 1);
                        assert(track@[at as int] == d[at as int]);
                    }
                    track.append_child(at, c);
                    true
                },
            }
        },
    }
}

/// A frame of a wavetable has this many samples.
pub const WAVETABLE_FRAME_SAMPLES: usize = 1024;

/// Each sample of a waveform, this many times.
pub const WAVETABLE_HOLD: usize = 32;

/// How long the change from one frame to the next takes: 50 milliseconds, in samples.
pub const POSITION_MORPH_SAMPLES: u64 = 2205;

/// A sample of 8 bits as one of 16.
pub open spec fn widened(s: i8) -> i16 {
    (256 * s) as i16
}

/// The waveforms, one frame behind the other: every sample is held, as the chip holds it.
pub open spec fn table_samples(frames: Seq<(i64, Seq<i8>)>) -> Seq<i16>
    decreases frames.len(),
{
    if frames.len() == 0 {
        Seq::empty()
    } else {
        let wave = frames.last().1;
        table_samples(frames.drop_last()) + Seq::new(
            wave.len() * WAVETABLE_HOLD as nat,
            |i: int| widened(wave[i / WAVETABLE_HOLD as int]),
        )
    }
}

fn push_held(out: &mut Vec<i16>, wave: &Vec<i8>)
    requires
        wave.len() <= 0xffff,
    ensures
        final(out)@ == old(out)@ + Seq::new(
            wave@.len() * WAVETABLE_HOLD as nat,
            |i: int| widened(wave@[i / WAVETABLE_HOLD as int]),
        ),
{
    let ghost start = out@;
    let ghost held = Seq::new(
        wave@.len() * WAVETABLE_HOLD as nat,
        |i: int| widened(wave@[i / WAVETABLE_HOLD as int]),
    );
    let n: usize = wave.len() * WAVETABLE_HOLD;
    let mut i: usize = 0;
    assert(start + held.take(0) =~= start);
    while i < n
        invariant
            i <= n,
            n == wave.len() * WAVETABLE_HOLD,
            held == Seq::new(
                wave@.len() * WAVETABLE_HOLD as nat,
                |i: int| widened(wave@[i / WAVETABLE_HOLD as int]),
            ),
            out@ == start + held.take(i as int),
        decreases n - i,
    {
        out.push(256 * wave[i / WAVETABLE_HOLD] as i16);
        i += 1;
        assert(start + held.take(i as int) =~= (start + held.take(i - 1)).push(held[i - 1]));
    }
    assert(held.take(i as int) =~= held);
}

/// Makes the samples of a channel's wavetable.
pub fn wavetable_samples(frames: &Vec<WaveformFrame>) -> (r: Vec<i16>)
    requires
        forall|i: int| 0 <= i < frames.len() ==> (#[trigger] frames[i]).waveform.len() <= 0xffff,
    ensures
        r@ == table_samples(frame_views(frames@)),
{
    let ghost views = frame_views(frames@);
    let mut out: Vec<i16> = Vec::new();
    let mut i: usize = 0;
    assert(views.take(0) =~= Seq::<(i64, Seq<i8>)>::empty());
    while i < frames.len()
        invariant
            i <= frames.len(),
            forall|i: int|
                0 <= i < frames.len() ==> (#[trigger] frames[i]).waveform.len() <= 0xffff,
            views == frame_views(frames@),
            out@ == table_samples(views.take(i as int)),
        decreases frames.len() - i,
    {
        proof {
            assert(views.take(i + 1).drop_last() =~= views.take(i as int));
            assert(views.take(i + 1).last() == (frames[i as int].at, frames[i as int].waveform@));
        }
        push_held(&mut out, &frames[i].waveform);
        i += 1;
    }
    assert(views.take(i as int) =~= views);
    out
}

/// Where among the frames each stands, from 0 to a million.
pub open spec fn frame_marks(frames: Seq<(i64, Seq<i8>)>) -> Seq<Mark> {
    Seq::new(
        frames.len(),
        |i: int| (frames[i].0, nearest(1_000_000 * i, frames.len() - 1) as i64),
    )
}

/// The marks, with the value before each change held until shortly before it.
pub open spec fn ramped(marks: Seq<Mark>, ramp: i64) -> Seq<Mark>
    decreases marks.len(),
{
    if marks.len() <= 1 {
        marks
    } else {
        let before = marks[marks.len() - 2];
        let now = marks.last();
        let eve = if now.0 - ramp < before.0 {
            before.0
        } else {
            (now.0 - ramp) as i64
        };
        let head = ramped(marks.drop_last(), ramp);
        if now.1 != before.1 {
            head.push((eve, before.1)).push(now)
        } else {
            head.push(now)
        }
    }
}

pub fn ramp_points(marks: &Vec<Mark>, ramp: i64) -> (r: Vec<Mark>)
    requires
        ramp >= 0,
    ensures
        r@ == ramped(marks@, ramp),
{
    let mut out: Vec<Mark> = Vec::new();
    if marks.len() == 0 {
        assert(out@ =~= marks@);
        return out;
    }
    out.push(marks[0]);
    let mut i: usize = 1;
    assert(out@ =~= marks@.take(1));
    while i < marks.len()
        invariant
            1 <= i <= marks.len(),
            ramp >= 0,
            out@ == ramped(marks@.take(i as int), ramp),
        decreases marks.len() - i,
    {
        let (before_time, before_value): Mark = marks[i - 1];
        let (time, value): Mark = marks[i];
        proof {
            let cur = marks@.take(i + 1);
            assert(cur.drop_last() =~= marks@.take(i as int));
            assert(cur.last() == marks[i as int]);
            assert(cur[cur.len() - 2] == marks[i - 1]);
        }
        if value != before_value {
            let eve: i128 = time as i128 - ramp as i128;
            out.push(
                (
                    if eve < before_time as i128 {
                        before_time
                    } else {
                        eve as i64
                    },
                    before_value,
                ),
            );
        }
        out.push((time, value));
        i += 1;
    }
    assert(marks@.take(i as int) =~= marks@);
    out
}

fn marks_of_frames(frames: &Vec<WaveformFrame>) -> (r: Vec<Mark>)
    requires
        frames.len() > 1,
    ensures
        r@ == frame_marks(frame_views(frames@)),
{
    let ghost whole = frame_marks(frame_views(frames@));
    let last: u128 = frames.len() as u128 - 1;
    let mut out: Vec<Mark> = Vec::new();
    let mut i: usize = 0;
    while i < frames.len()
        invariant
            i <= frames.len(),
            last == frames.len() - 1,
            last > 0,
            whole == frame_marks(frame_views(frames@)),
            out@ == whole.take(i as int),
        decreases frames.len() - i,
    {
        let value: i128 = round_signed(1_000_000 * i as i128, last);
        proof {
            assert((2 * (1_000_000 * i) + last) / (2 * last as int) <= 1_000_001) by (nonlinear_arith)
                requires
                    0 <= i <= last,
                    last > 0,
            ;
            assert((2 * (1_000_000 * i) + last) / (2 * last as int) >= 0) by (nonlinear_arith)
                requires
                    0 <= i <= last,
                    last > 0,
            ;
            assert(frame_views(frames@)[i as int] == (
                frames[i as int].at,
                frames[i as int].waveform@,
            ));
        }
        out.push((frames[i].at, value as i64));
        i += 1;
        assert(whole.take(i as int) =~= whole.take(i - 1).push(whole[i - 1]));
    }
    assert(whole.take(i as int) =~= whole);
    out
}

/// The values of a track that plays an instrument.
pub open spec fn instrument_values(name: Seq<char>, color: int) -> Seq<(Seq<char>, Seq<char>)> {
    seq![
        ("./Name/EffectiveName"@, name),
        ("./Name/UserName"@, name),
        ("./Color"@, decimal(color)),
        ("./TrackUnfolded"@, "false"@),
        (".//DeviceChain/MainSequencer/Recorder/IsArmed"@, "false"@),
        (".//DeviceChain/FreezeSequencer/Recorder/IsArmed"@, "false"@),
        ("./DeviceChain/Mixer/Volume/Manual"@, number_text(TRACK_GAIN as int)),
    ]
}

/// The values of the Wavetable device. Its filter and unison are off; its envelope has an
/// attack and a decay, though the chip has none, so that notes can be told apart.
pub open spec fn wavetable_values() -> Seq<(Seq<char>, Seq<char>)> {
    seq![
        (".//Voice_Filter1_On/Manual"@, "false"@),
        (".//Voice_Modulators_AmpEnvelope_Times_Attack/Manual"@, "0.008"@),
        (".//Voice_Modulators_AmpEnvelope_Times_Decay/Manual"@, "0.12"@),
        (".//Voice_Modulators_AmpEnvelope_Sustain/Manual"@, "0.65"@),
        (".//Voice_Modulators_AmpEnvelope_Times_Release/Manual"@, "0.08"@),
        (".//Voice_Unison_Amount/Manual"@, "0"@),
        (".//Voice_Oscillator1_Wavetables_WavePosition/Manual"@, "0"@),
    ]
}

/// The values of the reference to a wavetable.
pub open spec fn table_values(frames: int, now: u64) -> Seq<(Seq<char>, Seq<char>)> {
    seq![
        ("./LastModDate"@, decimal(now as int)),
        ("./DefaultDuration"@, decimal(frames * WAVETABLE_FRAME_SAMPLES)),
        ("./DefaultSampleRate"@, "44100"@),
        ("./SamplesToAutoWarp"@, "0"@),
    ]
}

/// The track with its wavetable, where it has a place for one.
pub open spec fn with_table(d: Doc, frames: int, wav: Seq<char>, file: SampleFileView) -> Option<
    Doc,
> {
    match find_in(d, 0, ".//UserSprite1/Value/SampleRef"@) {
        None => Some(d),
        Some(at) => match with_file(d, at, wav, file) {
            None => None,
            Some(e) => with_values(e, at, table_values(frames, file.now)),
        },
    }
}

fn set_table(track: &mut Document, frames: u32, wav: &str, file: &SampleFile) -> (r: bool)
    requires
        old(track).nodes.len() > 0,
    ensures
        ({
            let out = with_table(old(track)@, frames as int, wav@, file@);
            &&& r == (out is Some)
            &&& r ==> out == Some(final(track)@)
        }),
        final(track).nodes.len() == old(track).nodes.len(),
        is_tree(old(track)@) ==> is_tree(final(track)@),
{
    match find(track, 0, ".//UserSprite1/Value/SampleRef") {
        None => true,
        Some(at) => {
            if !set_file(track, at, wav, file) {
                return false;
            }
            let now: String = count_text(file.now);
            let samples: String = count_text(frames as u64 * WAVETABLE_FRAME_SAMPLES as u64);
            let values: Vec<(&str, &str)> = vec![
                ("./LastModDate", now.as_str()),
                ("./DefaultDuration", samples.as_str()),
                ("./DefaultSampleRate", "44100"),
                ("./SamplesToAutoWarp", "0"),
            ];
            assert(pairs(values@) =~= table_values(frames as int, file.now));
            set_values(track, at, &values)
        },
    }
}

/// The curves of a wavetable track: which frame is heard, how far the chip is out of tune, and
/// how loud it is.
pub open spec fn with_wavetable_curves(d: Doc, next: u64, channel: ChannelTrackView, pace: Pace) -> (
    Doc,
    u64,
) {
    let (d1, n1) = if channel.frames.len() > 1 {
        with_curve(
            d,
            next,
            ".//Voice_Oscillator1_Wavetables_WavePosition/AutomationTarget"@,
            ramped(frame_marks(channel.frames), pace.micros(POSITION_MORPH_SAMPLES as int)),
        )
    } else {
        (d, next)
    };
    let (d2, n2) = if channel.pitch_bends.len() > 0 {
        with_curve(
            d1,
            n1,
            ".//Voice_Oscillator1_Pitch_Detune/AutomationTarget"@,
            stepped(channel.pitch_bends),
        )
    } else {
        (d1, n1)
    };
    if channel.gains.len() > 0 {
        with_curve(
            d2,
            n2,
            ".//Voice_Oscillator1_Gain/AutomationTarget"@,
            stepped(channel.gains),
        )
    } else {
        (d2, n2)
    }
}

fn add_wavetable_curves(
    track: &mut Document,
    ids: &mut IdCounter,
    channel: &ChannelTrack,
    pace: &Pace,
)
    requires
        old(track).nodes.len() > 0,
        pace.wf(),
    ensures
        (final(track)@, final(ids).next) == with_wavetable_curves(
            old(track)@,
            old(ids).next,
            channel@,
            *pace,
        ),
        final(track).nodes.len() > 0,
        is_tree(old(track)@) ==> is_tree(final(track)@),
{
    if channel.frames.len() > 1 {
        let marks: Vec<Mark> = marks_of_frames(&channel.frames);
        let ramp: i64 = pace.samples_to_beats(POSITION_MORPH_SAMPLES);
        proof {
            pace.lemma_micros_positive(POSITION_MORPH_SAMPLES as int);
        }
        let ramp_marks: Vec<Mark> = ramp_points(&marks, ramp);
        add_curve(
            track,
            ids,
            ".//Voice_Oscillator1_Wavetables_WavePosition/AutomationTarget",
            &ramp_marks,
        );
    }
    if channel.pitch_bends.len() > 0 {
        let marks: Vec<Mark> = step_points_with_glide(&channel.pitch_bends);
        add_curve(track, ids, ".//Voice_Oscillator1_Pitch_Detune/AutomationTarget", &marks);
    }
    if channel.gains.len() > 0 {
        let marks: Vec<Mark> = step_points_with_glide(&channel.gains);
        add_curve(track, ids, ".//Voice_Oscillator1_Gain/AutomationTarget", &marks);
    }
}

/// A track that plays a channel on the Wavetable device, and the next number behind it.
#[verifier::opaque]
pub open spec fn wavetable_track(
    template: Doc,
    next: u64,
    name: Seq<char>,
    color: int,
    wav: Seq<char>,
    file: SampleFileView,
    channel: ChannelTrackView,
    end: i64,
    pace: Pace,
) -> Option<(Doc, u64)> {
    match prepared(template, next, instrument_values(name, color) + wavetable_values()) {
        None => None,
        Some((d, behind)) => match with_table(d, channel.frames.len() as int, wav, file) {
            None => None,
            Some(e) => {
                let (f, last) = with_wavetable_curves(e, behind, channel, pace);
                match with_song_clip(f, name, channel.notes, end, color) {
                    Some(g) => Some((g, last)),
                    None => None,
                }
            },
        },
    }
}

/// The template of a track for the Wavetable device, with its own numbers, name and color.
fn prepare_wavetable(template: &Document, ids: &mut IdCounter, name: &str, color: i64) -> (r: Option<
    Document,
>)
    requires
        template.nodes.len() > 0,
    ensures
        ({
            let out = prepared(
                template@,
                old(ids).next,
                instrument_values(name@, color as int) + wavetable_values(),
            );
            match r {
                Some(d) => out == Some((d@, final(ids).next)) && d.nodes.len() > 0 && (is_tree(
                    template@,
                ) ==> is_tree(d@)),
                None => out is None,
            }
        }),
{
    let color_text: String = decimal_string(color);
    let gain: String = fmt_number(TRACK_GAIN);
    let values: Vec<(&str, &str)> = vec![
        ("./Name/EffectiveName", name),
        ("./Name/UserName", name),
        ("./Color", color_text.as_str()),
        ("./TrackUnfolded", "false"),
        (".//DeviceChain/MainSequencer/Recorder/IsArmed", "false"),
        (".//DeviceChain/FreezeSequencer/Recorder/IsArmed", "false"),
        ("./DeviceChain/Mixer/Volume/Manual", gain.as_str()),
        (".//Voice_Filter1_On/Manual", "false"),
        (".//Voice_Modulators_AmpEnvelope_Times_Attack/Manual", "0.008"),
        (".//Voice_Modulators_AmpEnvelope_Times_Decay/Manual", "0.12"),
        (".//Voice_Modulators_AmpEnvelope_Sustain/Manual", "0.65"),
        (".//Voice_Modulators_AmpEnvelope_Times_Release/Manual", "0.08"),
        (".//Voice_Unison_Amount/Manual", "0"),
        (".//Voice_Oscillator1_Wavetables_WavePosition/Manual", "0"),
    ];
    assert(pairs(values@) =~= instrument_values(name@, color as int) + wavetable_values());
    prepare(template, ids, &values)
}

/// Builds a track that plays a channel on the Wavetable device.
#[verifier::spinoff_prover]
pub fn build_wavetable_track(
    template: &Document,
    ids: &mut IdCounter,
    name: &str,
    color: i64,
    wav: &str,
    file: &SampleFile,
    channel: &ChannelTrack,
    end: i64,
    pace: &Pace,
) -> (r: Option<Document>)
    requires
        template.nodes.len() > 0,
        pace.wf(),
        channel.frames.len() <= 0xffff_ffff,
    ensures
        ({
            let out = wavetable_track(
                template@,
                old(ids).next,
                name@,
                color as int,
                wav@,
                file@,
                channel@,
                end,
                *pace,
            );
            match r {
                Some(d) => out == Some((d@, final(ids).next)) && d.nodes.len() > 0 && (is_tree(
                    template@,
                ) ==> is_tree(d@)),
                None => out is None,
            }
        }),
{
    proof {
        reveal(wavetable_track);
    }
    let mut track: Document = match prepare_wavetable(template, ids, name, color) {
        Some(t) => t,
        None => {
            return None;
        },
    };
    if !set_table(&mut track, channel.frames.len() as u32, wav, file) {
        return None;
    }
    add_wavetable_curves(&mut track, ids, channel, pace);
    if set_song_clip(&mut track, name, &channel.notes, end, color) {
        Some(track)
    } else {
        None
    }
}

/// The values of the Operator device: oscillator B modulates A, the others are off.
pub open spec fn operator_values() -> Seq<(Seq<char>, Seq<char>)> {
    seq![
        (".//Globals/Algorithm/Manual"@, "0"@),
        (".//Operator.2/IsOn/Manual"@, "false"@),
        (".//Operator.3/IsOn/Manual"@, "false"@),
    ]
}

/// The values of an oscillator that stands for an operator of the chip: A for the second one,
/// which is heard, B for the first. It is a sine, rises to its full level and falls silent.
#[verifier::opaque]
pub open spec fn voice_values(second: bool, r: OperatorRegs) -> Seq<(Seq<char>, Seq<char>)> {
    if second {
        seq![
            (".//Operator.0/IsOn/Manual"@, "true"@),
            (".//Operator.0/WaveForm/Manual"@, "0"@),
            (".//Operator.0/Tune/Coarse/Manual"@, decimal(r.multiple as int)),
            (".//Operator.0/Tune/Fine/Manual"@, "0"@),
            (".//Operator.0/Envelope/AttackTime/Manual"@, number_text(rate_time(r.attack_rate) as int)),
            (".//Operator.0/Envelope/AttackLevel/Manual"@, "1"@),
            (".//Operator.0/Envelope/DecayTime/Manual"@, number_text(rate_time(r.decay_rate) as int)),
            (".//Operator.0/Envelope/DecayLevel/Manual"@, number_text(sustain_gain(r.sustain_level) as int)),
            (".//Operator.0/Envelope/SustainLevel/Manual"@, number_text(sustain_gain(r.sustain_level) as int)),
            (".//Operator.0/Envelope/ReleaseTime/Manual"@, number_text(rate_time(r.release_rate) as int)),
            (".//Operator.0/Envelope/ReleaseLevel/Manual"@, "0.0003162277571"@),
        ]
    } else {
        seq![
            (".//Operator.1/IsOn/Manual"@, "true"@),
            (".//Operator.1/WaveForm/Manual"@, "0"@),
            (".//Operator.1/Tune/Coarse/Manual"@, decimal(r.multiple as int)),
            (".//Operator.1/Tune/Fine/Manual"@, "0"@),
            (".//Operator.1/Envelope/AttackTime/Manual"@, number_text(rate_time(r.attack_rate) as int)),
            (".//Operator.1/Envelope/AttackLevel/Manual"@, "1"@),
            (".//Operator.1/Envelope/DecayTime/Manual"@, number_text(rate_time(r.decay_rate) as int)),
            (".//Operator.1/Envelope/DecayLevel/Manual"@, number_text(sustain_gain(r.sustain_level) as int)),
            (".//Operator.1/Envelope/SustainLevel/Manual"@, number_text(sustain_gain(r.sustain_level) as int)),
            (".//Operator.1/Envelope/ReleaseTime/Manual"@, number_text(rate_time(r.release_rate) as int)),
            (".//Operator.1/Envelope/ReleaseLevel/Manual"@, "0.0003162277571"@),
        ]
    }
}

#[verifier::spinoff_prover]
#[verifier::rlimit(30)]
fn set_operator_voice(track: &mut Document, second: bool, r: &OperatorRegs) -> (ok: bool)
    requires
        old(track).nodes.len() > 0,
    ensures
        ok == (with_values(old(track)@, 0, voice_values(second, *r)) is Some),
        ok ==> with_values(old(track)@, 0, voice_values(second, *r)) == Some(final(track)@),
        final(track).nodes.len() == old(track).nodes.len(),
        is_tree(old(track)@) ==> is_tree(final(track)@),
{
    let coarse: String = decimal_string(r.multiple as i64);
    let attack: String = fmt_number(opl_rate_to_ms(r.attack_rate));
    let decay: String = fmt_number(opl_rate_to_ms(r.decay_rate));
    let sustain: String = fmt_number(opl_sustain_level_to_gain(r.sustain_level));
    let release: String = fmt_number(opl_rate_to_ms(r.release_rate));
    let values: Vec<(&str, &str)> = if second {
        vec![
            (".//Operator.0/IsOn/Manual", "true"),
            (".//Operator.0/WaveForm/Manual", "0"),
            (".//Operator.0/Tune/Coarse/Manual", coarse.as_str()),
            (".//Operator.0/Tune/Fine/Manual", "0"),
            (".//Operator.0/Envelope/AttackTime/Manual", attack.as_str()),
            (".//Operator.0/Envelope/AttackLevel/Manual", "1"),
            (".//Operator.0/Envelope/DecayTime/Manual", decay.as_str()),
            (".//Operator.0/Envelope/DecayLevel/Manual", sustain.as_str()),
            (".//Operator.0/Envelope/SustainLevel/Manual", sustain.as_str()),
            (".//Operator.0/Envelope/ReleaseTime/Manual", release.as_str()),
            (".//Operator.0/Envelope/ReleaseLevel/Manual", "0.0003162277571"),
        ]
    } else {
        vec![
            (".//Operator.1/IsOn/Manual", "true"),
            (".//Operator.1/WaveForm/Manual", "0"),
            (".//Operator.1/Tune/Coarse/Manual", coarse.as_str()),
            (".//Operator.1/Tune/Fine/Manual", "0"),
            (".//Operator.1/Envelope/AttackTime/Manual", attack.as_str()),
            (".//Operator.1/Envelope/AttackLevel/Manual", "1"),
            (".//Operator.1/Envelope/DecayTime/Manual", decay.as_str()),
            (".//Operator.1/Envelope/DecayLevel/Manual", sustain.as_str()),
            (".//Operator.1/Envelope/SustainLevel/Manual", sustain.as_str()),
            (".//Operator.1/Envelope/ReleaseTime/Manual", release.as_str()),
            (".//Operator.1/Envelope/ReleaseLevel/Manual", "0.0003162277571"),
        ]
    };
    proof {
        reveal(voice_values);
        assert(pairs(values@) =~= voice_values(second, *r));
    }
    set_values(track, 0, &values)
}

/// The values of a sound that do not belong to one of its operators.
pub open spec fn patch_values(p: OplRegisters) -> Seq<(Seq<char>, Seq<char>)> {
    seq![
        (".//Operator.1/Feedback/Manual"@, number_text(feedback_percent(p.feedback) as int)),
        (
            ".//Operator.1/Volume/Manual"@,
            number_text(level_gain(p.modulator.total_level) as int),
        ),
    ]
}

/// The track with the sound of a channel.
pub open spec fn with_patch(d: Doc, patch: Option<OplRegisters>) -> Option<Doc> {
    match patch {
        None => Some(d),
        Some(p) => match with_values(d, 0, voice_values(true, p.carrier)) {
            None => None,
            Some(e) => match with_values(e, 0, voice_values(false, p.modulator)) {
                None => None,
                Some(f) => with_values(f, 0, patch_values(p)),
            },
        },
    }
}

fn set_patch(track: &mut Document, patch: &Option<OplRegisters>) -> (r: bool)
    requires
        old(track).nodes.len() > 0,
    ensures
        r == (with_patch(old(track)@, *patch) is Some),
        r ==> with_patch(old(track)@, *patch) == Some(final(track)@),
        final(track).nodes.len() == old(track).nodes.len(),
        is_tree(old(track)@) ==> is_tree(final(track)@),
{
    match patch {
        None => true,
        Some(p) => {
            if !set_operator_voice(track, true, &p.carrier) {
                return false;
            }
            if !set_operator_voice(track, false, &p.modulator) {
                return false;
            }
            let feedback: String = fmt_number(feedback_to_percent(p.feedback));
            let depth: String = fmt_number(opl_total_level_to_gain(p.modulator.total_level));
            let values: Vec<(&str, &str)> = vec![
                (".//Operator.1/Feedback/Manual", feedback.as_str()),
                (".//Operator.1/Volume/Manual", depth.as_str()),
            ];
            assert(pairs(values@) =~= patch_values(*p));
            set_values(track, 0, &values)
        },
    }
}

/// A track that plays a channel on the Operator device, and the next number behind it.
#[verifier::opaque]
pub open spec fn opl_track(
    template: Doc,
    next: u64,
    name: Seq<char>,
    color: int,
    channel: OperatorTrackView,
    end: i64,
) -> Option<(Doc, u64)> {
    match prepared(template, next, instrument_values(name, color) + operator_values()) {
        None => None,
        Some((d, behind)) => match with_patch(d, channel.patch) {
            None => None,
            Some(e) => {
                let (f, last) = if channel.gains.len() > 0 {
                    with_curve(
                        e,
                        behind,
                        ".//Operator.0/Volume/AutomationTarget"@,
                        stepped(channel.gains),
                    )
                } else {
                    (e, behind)
                };
                match with_song_clip(f, name, channel.notes, end, color) {
                    Some(g) => Some((g, last)),
                    None => None,
                }
            },
        },
    }
}

/// The template of a track for the Operator device, with its own numbers, name and color.
fn prepare_operator(template: &Document, ids: &mut IdCounter, name: &str, color: i64) -> (r: Option<
    Document,
>)
    requires
        template.nodes.len() > 0,
    ensures
        ({
            let out = prepared(
                template@,
                old(ids).next,
                instrument_values(name@, color as int) + operator_values(),
            );
            match r {
                Some(d) => out == Some((d@, final(ids).next)) && d.nodes.len() > 0 && (is_tree(
                    template@,
                ) ==> is_tree(d@)),
                None => out is None,
            }
        }),
{
    let color_text: String = decimal_string(color);
    let gain: String = fmt_number(TRACK_GAIN);
    let values: Vec<(&str, &str)> = vec![
        ("./Name/EffectiveName", name),
        ("./Name/UserName", name),
        ("./Color", color_text.as_str()),
        ("./TrackUnfolded", "false"),
        (".//DeviceChain/MainSequencer/Recorder/IsArmed", "false"),
        (".//DeviceChain/FreezeSequencer/Recorder/IsArmed", "false"),
        ("./DeviceChain/Mixer/Volume/Manual", gain.as_str()),
        (".//Globals/Algorithm/Manual", "0"),
        (".//Operator.2/IsOn/Manual", "false"),
        (".//Operator.3/IsOn/Manual", "false"),
    ];
    assert(pairs(values@) =~= instrument_values(name@, color as int) + operator_values());
    prepare(template, ids, &values)
}

/// Builds a track that plays a channel on the Operator device.
#[verifier::spinoff_prover]
pub fn build_operator_track(
    template: &Document,
    ids: &mut IdCounter,
    name: &str,
    color: i64,
    channel: &OperatorTrack,
    end: i64,
) -> (r: Option<Document>)
    requires
        template.nodes.len() > 0,
    ensures
        ({
            let out = opl_track(template@, old(ids).next, name@, color as int, channel@, end);
            match r {
                Some(d) => out == Some((d@, final(ids).next)) && d.nodes.len() > 0 && (is_tree(
                    template@,
                ) ==> is_tree(d@)),
                None => out is None,
            }
        }),
{
    proof {
        reveal(opl_track);
    }
    let mut track: Document = match prepare_operator(template, ids, name, color) {
        Some(t) => t,
        None => {
            return None;
        },
    };
    if !set_patch(&mut track, &channel.patch) {
        return None;
    }
    if channel.gains.len() > 0 {
        let marks: Vec<Mark> = step_points_with_glide(&channel.gains);
        add_curve(&mut track, ids, ".//Operator.0/Volume/AutomationTarget", &marks);
    }
    if set_song_clip(&mut track, name, &channel.notes, end, color) {
        Some(track)
    } else {
        None
    }
}

} // verus!
