//! That the automation of a track drives what is on that track.
use crate::export::automation::{envelope_of, next_behind_envelope, with_envelope, Mark};
use crate::export::clip::clip_of;
use crate::export::curves::{fader_gain, AmigaPanning, LiveNoteView};
use crate::export::ids::{after, next_after, renumbered};
use crate::export::sampler::{
    bends_of, clips_path, color_of, notes_in, offset_of, pans_of, resting_pan, row_micros,
    target_of, track_name, track_of, track_values, volumes_of, with_arrangement, with_clips,
    with_curves, with_sample, SampleFileView, Targets, FULL_LEVEL,
};
use crate::export::tempo::Segment;
use crate::export::unique::{
    lemma_behind, lemma_numbered, lemma_same_end, lemma_sample_ids, lemma_shape_chain,
    lemma_values_ids, same_ids,
};
use crate::export::vgm_als::{prepared, with_curve};
use crate::formats::base::SampleView;
use crate::text::decimal;
use crate::xmlutil::{
    child_of, deeper, end_of, find_in, lemma_child, lemma_end, lemma_find, lemma_same_child,
    lemma_same_find, lowered, part_at, same_shape, with_attribute, with_child, with_values, without,
    Doc, NodeView,
};
use vstd::prelude::*;

verus! {

/// The paths to what a sampler track automates: the pitch, the volume and the panning.
pub open spec fn pitch_target() -> Seq<char> {
    ".//MultiSampler/Pitch/TransposeKey/AutomationTarget"@
}

pub open spec fn volume_target() -> Seq<char> {
    "./DeviceChain/Mixer/Volume/AutomationTarget"@
}

pub open spec fn pan_target() -> Seq<char> {
    ".//MultiSampler/VolumeAndPan/Panorama/AutomationTarget"@
}

/// The node points at an identity.
pub open spec fn points_at(n: NodeView, id: Seq<char>) -> bool {
    n.is_named("PointeeId"@) && n.attribute("Value"@) == Some(id)
}

/// The identity is pointed at, and is that of a node of the same document.
pub open spec fn is_driven(d: Doc, id: Seq<char>) -> bool {
    &&& exists|i: int| 0 <= i < d.len() && points_at(#[trigger] d[i], id)
    &&& exists|j: int| 0 <= j < d.len() && (#[trigger] d[j]).attribute("Id"@) == Some(id)
}

/// A node like this one is in the document, at whatever depth.
spec fn holds(d: Doc, n: NodeView) -> bool {
    exists|j: int| 0 <= j < d.len() && (#[trigger] d[j]).content == n.content
}

proof fn lemma_child_holds(d: Doc, at: int, part: Doc, n: NodeView)
    requires
        0 <= at < d.len(),
        holds(d, n) || holds(part, n),
    ensures
        holds(with_child(d, at, part), n),
        with_child(d, at, part).len() == d.len() + part.len(),
{
    lemma_end(d, d[at].depth, at + 1);
    let end = end_of(d, at);
    let e = with_child(d, at, part);
    let low = lowered(part, deeper(d[at].depth, 1));
    if holds(d, n) {
        let j = choose|j: int| 0 <= j < d.len() && (#[trigger] d[j]).content == n.content;
        if j < end {
            assert(e[j] == d[j]);
        } else {
            assert(e[j + part.len()] == d[j]);
        }
    } else {
        let j = choose|j: int| 0 <= j < part.len() && (#[trigger] part[j]).content == n.content;
        assert(e[end + j] == low[j]);
    }
}

proof fn lemma_envelope_holds(
    d: Doc,
    at: int,
    marks: Seq<Mark>,
    pointee: Seq<char>,
    baseline: i64,
    next: u64,
    n: NodeView,
)
    requires
        0 <= at < d.len(),
        holds(d, n),
    ensures
        holds(with_envelope(d, at, marks, pointee, baseline, next), n),
        with_envelope(d, at, marks, pointee, baseline, next).len() >= d.len(),
        marks.len() > 0 ==> exists|m: NodeView| #[trigger]
            points_at(m, pointee) && holds(
                with_envelope(d, at, marks, pointee, baseline, next),
                m,
            ),
{
    if marks.len() > 0 {
        let part = envelope_of(marks, pointee, baseline, next);
        lemma_child_holds(d, at, part, n);
        let m = part[2];
        assert(points_at(m, pointee));
        assert(holds(part, m));
        lemma_child_holds(d, at, part, m);
    }
}

proof fn lemma_clips_hold(
    d: Doc,
    at: int,
    template: Doc,
    name: Seq<char>,
    color: int,
    notes: Seq<LiveNoteView>,
    segments: Seq<Segment>,
    k: int,
    n: NodeView,
)
    requires
        0 <= at < d.len(),
        holds(d, n),
    ensures
        with_clips(d, at, template, name, color, notes, segments, k) matches Some(e) ==> holds(e, n)
            && e.len() >= d.len(),
    decreases k,
{
    if k > 0 {
        lemma_clips_hold(d, at, template, name, color, notes, segments, k - 1, n);
        let local = notes_in(notes, segments, k - 1, notes.len() as int);
        match with_clips(d, at, template, name, color, notes, segments, k - 1) {
            None => {},
            Some(e) => match clip_of(
                template,
                name,
                row_micros(segments[k - 1].start_row),
                row_micros(segments[k - 1].end_row),
                local,
                k - 1,
                color,
            ) {
                None => {},
                Some(clip) => lemma_child_holds(e, at, clip, n),
            },
        }
    }
}

/// The template's clip does not hold what the path leads to.
pub open spec fn stands_outside_clip(d: Doc, path: Seq<char>) -> bool {
    match (find_in(d, 0, clips_path()), find_in(d, 0, path)) {
        (Some(at), Some(i)) => match child_of(d, at, "MidiClip"@) {
            Some(clip) => i < clip || end_of(d, clip) <= i,
            None => true,
        },
        _ => true,
    }
}

proof fn lemma_same_outside(d: Doc, e: Doc, path: Seq<char>)
    requires
        d.len() > 0,
        same_shape(d, e),
        stands_outside_clip(d, path),
    ensures
        stands_outside_clip(e, path),
{
    lemma_same_find(d, e, 0, clips_path());
    lemma_same_find(d, e, 0, path);
    lemma_find(d, 0, clips_path());
    match find_in(d, 0, clips_path()) {
        None => {},
        Some(at) => {
            assert(d[at].depth == e[at].depth);
            lemma_same_child(d, e, d[at].depth, at + 1, "MidiClip"@);
            lemma_child(d, d[at].depth, at + 1, "MidiClip"@);
            match child_of(d, at, "MidiClip"@) {
                None => {},
                Some(clip) => {
                    assert(d[clip].depth == e[clip].depth);
                    lemma_same_end(d, e, d[clip].depth, clip + 1);
                },
            }
        },
    }
}

proof fn lemma_arrangement_holds(
    d: Doc,
    name: Seq<char>,
    color: int,
    notes: Seq<LiveNoteView>,
    segments: Seq<Segment>,
    path: Seq<char>,
)
    requires
        d.len() > 0,
        find_in(d, 0, path) is Some,
        stands_outside_clip(d, path),
    ensures
        with_arrangement(d, name, color, notes, segments) matches Some(e) ==> e.len() > 0 && holds(
            e,
            d[find_in(d, 0, path)->0],
        ),
{
    lemma_find(d, 0, path);
    lemma_find(d, 0, clips_path());
    let i = find_in(d, 0, path)->0;
    match find_in(d, 0, clips_path()) {
        None => {},
        Some(at) => {
            lemma_child(d, d[at].depth, at + 1, "MidiClip"@);
            match child_of(d, at, "MidiClip"@) {
                None => {},
                Some(clip) => {
                    lemma_end(d, d[clip].depth, clip + 1);
                    let rest = without(d, clip);
                    if i < clip {
                        assert(rest[i] == d[i]);
                    } else {
                        assert(rest[i - end_of(d, clip) + clip] == d[i]);
                    }
                    lemma_clips_hold(
                        rest,
                        at,
                        part_at(d, clip),
                        name,
                        color,
                        notes,
                        segments,
                        segments.len() as int,
                        d[i],
                    );
                },
            }
        },
    }
}

proof fn lemma_is_driven(d: Doc, id: Seq<char>, m: NodeView, n: NodeView)
    requires
        points_at(m, id),
        holds(d, m),
        n.attribute("Id"@) == Some(id),
        holds(d, n),
    ensures
        is_driven(d, id),
{
    let i = choose|i: int| 0 <= i < d.len() && (#[trigger] d[i]).content == m.content;
    let j = choose|j: int| 0 <= j < d.len() && (#[trigger] d[j]).content == n.content;
    assert(points_at(d[i], id));
    assert(d[j].attribute("Id"@) == Some(id));
}

proof fn lemma_curves_drive(
    d: Doc,
    targets: Targets,
    notes: Seq<LiveNoteView>,
    panning: AmigaPanning,
    s: SampleView,
    next: u64,
    pitch: NodeView,
    volume: NodeView,
    pan: NodeView,
)
    requires
        d.len() > 0,
        holds(d, pitch) && pitch.attribute("Id"@) == Some(targets.pitch),
        holds(d, volume) && volume.attribute("Id"@) == Some(targets.volume),
        holds(d, pan) && pan.attribute("Id"@) == Some(targets.pan),
    ensures
        with_curves(d, targets, notes, panning, s, next) matches Some((e, n)) ==> {
            &&& bends_of(notes).len() > 0 ==> is_driven(e, targets.pitch)
            &&& volumes_of(notes).len() > 0 ==> is_driven(e, targets.volume)
            &&& pans_of(notes, panning, s).len() > 0 ==> is_driven(e, targets.pan)
        },
{
    let bends = bends_of(notes);
    let volumes = volumes_of(notes);
    let pans = pans_of(notes, panning, s);
    lemma_find(d, 0, "./AutomationEnvelopes/Envelopes"@);
    match find_in(d, 0, "./AutomationEnvelopes/Envelopes"@) {
        None => {},
        Some(at) => {
            let next1 = next_behind_envelope(bends, next);
            let next2 = next_behind_envelope(volumes, next1);
            let full = fader_gain(FULL_LEVEL as int);
            let rest = resting_pan(s);
            let d1 = with_envelope(d, at, bends, targets.pitch, 0, next);
            let d2 = with_envelope(d1, at, volumes, targets.volume, full, next1);
            let d3 = with_envelope(d2, at, pans, targets.pan, rest, next2);
            lemma_envelope_holds(d, at, bends, targets.pitch, 0, next, pitch);
            lemma_envelope_holds(d, at, bends, targets.pitch, 0, next, volume);
            lemma_envelope_holds(d, at, bends, targets.pitch, 0, next, pan);
            lemma_envelope_holds(d1, at, volumes, targets.volume, full, next1, pitch);
            lemma_envelope_holds(d1, at, volumes, targets.volume, full, next1, volume);
            lemma_envelope_holds(d1, at, volumes, targets.volume, full, next1, pan);
            lemma_envelope_holds(d2, at, pans, targets.pan, rest, next2, pitch);
            lemma_envelope_holds(d2, at, pans, targets.pan, rest, next2, volume);
            lemma_envelope_holds(d2, at, pans, targets.pan, rest, next2, pan);
            if bends.len() > 0 {
                let m = choose|m: NodeView| #[trigger]
                    points_at(m, targets.pitch) && holds(d1, m);
                lemma_envelope_holds(d1, at, volumes, targets.volume, full, next1, m);
                lemma_envelope_holds(d2, at, pans, targets.pan, rest, next2, m);
                lemma_is_driven(d3, targets.pitch, m, pitch);
            }
            if volumes.len() > 0 {
                let m = choose|m: NodeView| #[trigger]
                    points_at(m, targets.volume) && holds(d2, m);
                lemma_envelope_holds(d2, at, pans, targets.pan, rest, next2, m);
                lemma_is_driven(d3, targets.volume, m, volume);
            }
            if pans.len() > 0 {
                let m = choose|m: NodeView| #[trigger] points_at(m, targets.pan) && holds(d3, m);
                lemma_is_driven(d3, targets.pan, m, pan);
            }
        },
    }
}

/// The envelopes of a sampler track point at parameters of that track: its pitch, its volume and
/// its panning, whichever the notes move, under the numbers that these were given on it.
pub proof fn law_envelopes_point_into_their_track(
    template: Doc,
    s: SampleView,
    next: u64,
    file: SampleFileView,
    notes: Seq<LiveNoteView>,
    segments: Seq<Segment>,
    panning: AmigaPanning,
    voice: int,
)
    requires
        template.len() > 0,
        template[0].content is Element,
        stands_outside_clip(template, pitch_target()),
        stands_outside_clip(template, volume_target()),
        stands_outside_clip(template, pan_target()),
    ensures
        track_of(template, s, next, file, notes, segments, panning, voice) matches Some((e, n)) ==> (
        n <= i64::MAX ==> ({
            let p = prepared(template, next, track_values(s, voice, offset_of(notes)));
            let d = (p->0).0;
            &&& p is Some
            &&& bends_of(notes).len() > 0 ==> is_driven(e, target_of(d, pitch_target())->0)
            &&& volumes_of(notes).len() > 0 ==> is_driven(e, target_of(d, volume_target())->0)
            &&& pans_of(notes, panning, s).len() > 0 ==> is_driven(
                e,
                target_of(d, pan_target())->0,
            )
        })),
{
    reveal(track_of);
    match track_of(template, s, next, file, notes, segments, panning, voice) {
        None => {},
        Some((e, n)) => if n <= i64::MAX {
            let numbered = with_attribute(template, 0, "Id"@, decimal(next as int));
            let d0 = renumbered(numbered, after(next));
            let next0 = next_after(numbered, after(next));
            let values = track_values(s, voice, offset_of(notes));
            let d1 = with_values(d0, 0, values)->0;
            let d2 = with_sample(d1, s, file)->0;
            let d3 = with_arrangement(d2, track_name(s, voice), color_of(s), notes, segments)->0;
            let next1 = next_behind_envelope(bends_of(notes), next0);
            lemma_behind(bends_of(notes), next0);
            lemma_behind(volumes_of(notes), next1);
            lemma_behind(
                pans_of(notes, panning, s),
                next_behind_envelope(volumes_of(notes), next1),
            );
            lemma_numbered(template, next);
            lemma_values_ids(d0, 0, values);
            lemma_sample_ids(d1, s, file);
            lemma_shape_chain(template, d0, d1);
            lemma_shape_chain(template, d1, d2);
            lemma_target_stays(template, d1, d2, pitch_target());
            lemma_target_stays(template, d1, d2, volume_target());
            lemma_target_stays(template, d1, d2, pan_target());
            let name = track_name(s, voice);
            lemma_arrangement_holds(d2, name, color_of(s), notes, segments, pitch_target());
            lemma_arrangement_holds(d2, name, color_of(s), notes, segments, volume_target());
            lemma_arrangement_holds(d2, name, color_of(s), notes, segments, pan_target());
            let targets = Targets {
                pitch: target_of(d1, pitch_target())->0,
                volume: target_of(d1, volume_target())->0,
                pan: target_of(d1, pan_target())->0,
            };
            lemma_curves_drive(
                d3,
                targets,
                notes,
                panning,
                s,
                next0,
                d2[find_in(d2, 0, pitch_target())->0],
                d2[find_in(d2, 0, volume_target())->0],
                d2[find_in(d2, 0, pan_target())->0],
            );
        },
    }
}

proof fn lemma_target_stays(template: Doc, d: Doc, e: Doc, path: Seq<char>)
    requires
        template.len() > 0,
        same_shape(template, e),
        same_shape(d, e),
        same_ids(d, e),
        stands_outside_clip(template, path),
        target_of(d, path) is Some,
    ensures
        stands_outside_clip(e, path),
        find_in(e, 0, path) is Some,
        e[find_in(e, 0, path)->0].attribute("Id"@) == target_of(d, path),
{
    lemma_same_outside(template, e, path);
    lemma_same_find(d, e, 0, path);
    lemma_find(d, 0, path);
    let i = find_in(d, 0, path)->0;
    assert(d[i].attribute("Id"@) == e[i].attribute("Id"@));
}

/// An envelope put on the track of a channel points at a parameter of that track.
pub proof fn law_curves_point_into_their_track(
    d: Doc,
    next: u64,
    path: Seq<char>,
    marks: Seq<Mark>,
)
    requires
        d.len() > 0,
        marks.len() > 0,
        find_in(d, 0, "./AutomationEnvelopes/Envelopes"@) is Some,
    ensures
        target_of(d, path) matches Some(id) ==> is_driven(with_curve(d, next, path, marks).0, id),
{
    lemma_find(d, 0, "./AutomationEnvelopes/Envelopes"@);
    lemma_find(d, 0, path);
    match target_of(d, path) {
        None => {},
        Some(id) => {
            let at = find_in(d, 0, "./AutomationEnvelopes/Envelopes"@)->0;
            let n = d[find_in(d, 0, path)->0];
            assert(holds(d, n));
            lemma_envelope_holds(d, at, marks, id, 0, next, n);
            let e = with_envelope(d, at, marks, id, 0, next);
            let m = choose|m: NodeView| #[trigger] points_at(m, id) && holds(e, m);
            lemma_is_driven(e, id, m, n);
        },
    }
}

} // verus!
