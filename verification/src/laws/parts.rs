//! That a document holds the parts it was given.
use crate::export::automation::{
    envelope_of, next_behind_envelope, stepped, with_envelope, Mark,
};
use crate::export::clip::{
    clip_of, first_note, key_track, notes_at, pitches_of, with_key_tracks, ClippedNote,
};
use crate::export::curves::{fader_gain, AmigaPanning, LiveNoteView};
use crate::export::pace::Pace;
use crate::export::sampler::{
    bends_of, clips_path, notes_in, pans_of, resting_pan, row_micros, target_of, volumes_of,
    with_clips, with_curves, Targets,
};
use crate::export::tempo::Segment;
use crate::export::vgm_als::{
    frame_marks, ramped, with_curve, with_song_clip, with_wavetable_curves,
};
use crate::export::vgm_wavetable::ChannelTrackView;
use crate::formats::base::SampleView;
use crate::xmlutil::{
    child_of, deeper, end_of, find_in, lemma_child, lemma_end, lemma_find, lowered, part_at,
    with_child, without, Doc,
};
use vstd::prelude::*;

verus! {

/// A part stands at a place of a document, at whatever depth.
pub open spec fn stands_at(d: Doc, at: int, part: Doc) -> bool {
    &&& 0 <= at
    &&& at + part.len() <= d.len()
    &&& forall|k: int|
        0 <= k < part.len() ==> (#[trigger] d[at + k]).content == part[k].content
}

/// A part is in a document, node for node.
pub open spec fn has_part(d: Doc, part: Doc) -> bool {
    exists|at: int| #[trigger] stands_at(d, at, part)
}

/// What is put below a node stands behind all that was below it, and what stood before is where
/// it was.
pub proof fn law_parts_are_put_last(d: Doc, at: int, part: Doc, before: Doc, i: int)
    requires
        0 <= at < d.len(),
        d[at].depth < usize::MAX,
    ensures
        ({
            let e = with_child(d, at, part);
            let end = end_of(d, at);
            &&& stands_at(e, end, part)
            &&& end_of(e, at) == end + part.len()
            &&& e[at] == d[at]
            &&& at < e.len()
            &&& stands_at(d, i, before) && i + before.len() <= end ==> stands_at(e, i, before)
        }),
{
    lemma_end(d, d[at].depth, at + 1);
    let e = with_child(d, at, part);
    let end = end_of(d, at);
    let n = part.len() as int;
    let low = lowered(part, deeper(d[at].depth, 1));
    assert forall|k: int| 0 <= k < part.len() implies (#[trigger] e[end + k]).content
        == part[k].content by {
        assert(e[end + k] == low[k]);
    }
    assert(e[at] == d[at]);
    lemma_end(e, e[at].depth, at + 1);
    let stop = end_of(e, at);
    if stop < end + n {
        if stop < end {
            assert(e[stop] == d[stop]);
        } else {
            assert(e[stop] == low[stop - end]);
        }
        assert(e[stop].depth <= e[at].depth);
        assert(false);
    }
    if stop > end + n {
        assert(e[end + n] == d[end]);
        assert(false);
    }
    if stands_at(d, i, before) && i + before.len() <= end {
        assert forall|k: int| 0 <= k < before.len() implies (#[trigger] e[i + k]).content
            == before[k].content by {
            assert(e[i + k] == d[i + k]);
        }
    }
}

proof fn lemma_key_tracks(d: Doc, at: int, notes: Seq<ClippedNote>, n: int, k: int)
    requires
        0 <= at < d.len(),
        d[at].depth < usize::MAX,
        0 <= k < n,
    ensures
        ({
            let pitch = pitches_of(notes)[k];
            let e = with_key_tracks(d, at, notes, n);
            let part = key_track(k, pitch, notes_at(notes, pitch), first_note(notes, k));
            &&& at < e.len()
            &&& e[at] == d[at]
            &&& exists|i: int| #[trigger] stands_at(e, i, part) && i + part.len() <= end_of(e, at)
        }),
    decreases n,
{
    let pitch = pitches_of(notes)[k];
    let part = key_track(k, pitch, notes_at(notes, pitch), first_note(notes, k));
    let before = with_key_tracks(d, at, notes, n - 1);
    let last = pitches_of(notes)[n - 1];
    let new = key_track(n - 1, last, notes_at(notes, last), first_note(notes, n - 1));
    if k < n - 1 {
        lemma_key_tracks(d, at, notes, n - 1, k);
        let i = choose|i: int| #[trigger]
            stands_at(before, i, part) && i + part.len() <= end_of(before, at);
        law_parts_are_put_last(before, at, new, part, i);
        assert(stands_at(with_key_tracks(d, at, notes, n), i, part));
    } else {
        if n > 1 {
            lemma_key_tracks(d, at, notes, n - 1, 0);
        }
        law_parts_are_put_last(before, at, new, part, 0);
        assert(stands_at(with_key_tracks(d, at, notes, n), end_of(before, at), part));
    }
}

/// The tracks of a clip's keys are all in it: one for each of its pitches, with its notes.
pub proof fn law_clips_have_a_track_for_every_key(
    d: Doc,
    at: int,
    notes: Seq<ClippedNote>,
    k: int,
)
    requires
        0 <= at < d.len(),
        d[at].depth < usize::MAX,
        0 <= k < pitches_of(notes).len(),
    ensures
        ({
            let pitch = pitches_of(notes)[k];
            has_part(
                with_key_tracks(d, at, notes, pitches_of(notes).len() as int),
                key_track(k, pitch, notes_at(notes, pitch), first_note(notes, k)),
            )
        }),
{
    lemma_key_tracks(d, at, notes, pitches_of(notes).len() as int, k);
}

/// What a track's clips are put into, and one of them.
#[verifier::opaque]
spec fn with_clips_up_to(
    d: Doc,
    at: int,
    template: Doc,
    title: Seq<char>,
    color: int,
    notes: Seq<LiveNoteView>,
    segments: Seq<Segment>,
    n: int,
) -> Option<Doc> {
    with_clips(d, at, template, title, color, notes, segments, n)
}

#[verifier::opaque]
spec fn made_clip(
    template: Doc,
    title: Seq<char>,
    color: int,
    notes: Seq<LiveNoteView>,
    segments: Seq<Segment>,
    k: int,
) -> Option<Doc> {
    clip_of(
        template,
        title,
        row_micros(segments[k].start_row),
        row_micros(segments[k].end_row),
        notes_in(notes, segments, k, notes.len() as int),
        k,
        color,
    )
}

proof fn lemma_next_clip(
    d: Doc,
    at: int,
    template: Doc,
    title: Seq<char>,
    color: int,
    notes: Seq<LiveNoteView>,
    segments: Seq<Segment>,
    n: int,
)
    requires
        n > 0,
    ensures
        with_clips_up_to(d, at, template, title, color, notes, segments, 0) == Some(d),
        with_clips_up_to(d, at, template, title, color, notes, segments, n)
            == match with_clips_up_to(d, at, template, title, color, notes, segments, n - 1) {
            None => None,
            Some(e) => if notes_in(notes, segments, n - 1, notes.len() as int).len() == 0 {
                Some(e)
            } else {
                match made_clip(template, title, color, notes, segments, n - 1) {
                    Some(clip) => Some(with_child(e, at, clip)),
                    None => None,
                }
            },
        },
{
    reveal(with_clips_up_to);
    reveal(made_clip);
}

proof fn lemma_clips(
    d: Doc,
    at: int,
    template: Doc,
    title: Seq<char>,
    color: int,
    notes: Seq<LiveNoteView>,
    segments: Seq<Segment>,
    n: int,
    k: int,
)
    requires
        0 <= at < d.len(),
        d[at].depth < usize::MAX,
        0 <= n,
        k < n,
    ensures
        ({
            let clip = made_clip(template, title, color, notes, segments, k);
            with_clips_up_to(d, at, template, title, color, notes, segments, n) matches Some(e)
                ==> {
                &&& at < e.len()
                &&& e[at] == d[at]
                &&& 0 <= k && notes_in(notes, segments, k, notes.len() as int).len() > 0
                    ==> clip is Some && exists|i: int| #[trigger]
                    stands_at(e, i, clip->0) && i + (clip->0).len() <= end_of(e, at)
            }
        }),
    decreases n,
{
    if n == 0 {
        lemma_next_clip(d, at, template, title, color, notes, segments, 1);
    } else {
        lemma_next_clip(d, at, template, title, color, notes, segments, n);
        let before = if k < n - 1 {
            k
        } else {
            -1
        };
        lemma_clips(d, at, template, title, color, notes, segments, n - 1, before);
        let clip = made_clip(template, title, color, notes, segments, k);
        match with_clips_up_to(d, at, template, title, color, notes, segments, n - 1) {
            None => {},
            Some(e) => match made_clip(template, title, color, notes, segments, n - 1) {
                None => {},
                Some(new) => {
                    law_parts_are_put_last(e, at, new, new, 0);
                    assert(stands_at(with_child(e, at, new), end_of(e, at), new));
                    if exists|i: int| #[trigger]
                        stands_at(e, i, clip->0) && i + (clip->0).len() <= end_of(e, at) {
                        let i = choose|i: int| #[trigger]
                            stands_at(e, i, clip->0) && i + (clip->0).len() <= end_of(e, at);
                        law_parts_are_put_last(e, at, new, clip->0, i);
                        assert(stands_at(with_child(e, at, new), i, clip->0));
                    }
                },
            },
        }
    }
}

/// A track has a clip for every segment of the song that it has notes in: from the segment's
/// first row to behind its last, with these notes, four rows being a beat.
pub proof fn law_tracks_have_a_clip_for_every_segment(
    d: Doc,
    at: int,
    template: Doc,
    title: Seq<char>,
    color: int,
    notes: Seq<LiveNoteView>,
    segments: Seq<Segment>,
    k: int,
)
    requires
        0 <= at < d.len(),
        d[at].depth < usize::MAX,
        0 <= k < segments.len(),
        notes_in(notes, segments, k, notes.len() as int).len() > 0,
        250_000 * segments[k].end_row <= i64::MAX,
        segments[k].start_row <= segments[k].end_row,
    ensures
        with_clips(d, at, template, title, color, notes, segments, segments.len() as int)
            matches Some(e) ==> (clip_of(
            template,
            title,
            (250_000 * segments[k].start_row) as i64,
            (250_000 * segments[k].end_row) as i64,
            notes_in(notes, segments, k, notes.len() as int),
            k,
            color,
        ) matches Some(clip) && has_part(e, clip)),
{
    lemma_clips(d, at, template, title, color, notes, segments, segments.len() as int, k);
    reveal(with_clips_up_to);
    reveal(made_clip);
}

/// The curves of a track are in it, each driving its own target: the bends the pitch, from no
/// bend; the volumes the fader, from full volume; the pans the panorama, from where the sample
/// stands.
pub proof fn law_curves_drive_their_targets(
    d: Doc,
    targets: Targets,
    notes: Seq<LiveNoteView>,
    panning: AmigaPanning,
    s: SampleView,
    next: u64,
)
    requires
        d.len() > 0,
        forall|j: int| 0 <= j < d.len() ==> (#[trigger] d[j]).depth < usize::MAX,
    ensures
        with_curves(d, targets, notes, panning, s, next) matches Some((e, _)) ==> {
            let (b, v, p) = (bends_of(notes), volumes_of(notes), pans_of(notes, panning, s));
            let next1 = next_behind_envelope(b, next);
            let next2 = next_behind_envelope(v, next1);
            &&& b.len() > 0 ==> has_part(e, envelope_of(b, targets.pitch, 0, next))
            &&& v.len() > 0 ==> has_part(
                e,
                envelope_of(v, targets.volume, fader_gain(4096), next1),
            )
            &&& p.len() > 0 ==> has_part(e, envelope_of(p, targets.pan, resting_pan(s), next2))
        },
{
    let path = "./AutomationEnvelopes/Envelopes"@;
    lemma_find(d, 0, path);
    match find_in(d, 0, path) {
        None => {},
        Some(at) => {
            let (b, v, p) = (bends_of(notes), volumes_of(notes), pans_of(notes, panning, s));
            let next1 = next_behind_envelope(b, next);
            let next2 = next_behind_envelope(v, next1);
            let full = fader_gain(4096);
            let rest = resting_pan(s);
            let eb = envelope_of(b, targets.pitch, 0, next);
            let ev = envelope_of(v, targets.volume, full, next1);
            let ep = envelope_of(p, targets.pan, rest, next2);
            let d1 = with_envelope(d, at, b, targets.pitch, 0, next);
            let d2 = with_envelope(d1, at, v, targets.volume, full, next1);
            let d3 = with_envelope(d2, at, p, targets.pan, rest, next2);
            lemma_end(d, d[at].depth, at + 1);
            let i = end_of(d, at);
            if b.len() > 0 {
                law_parts_are_put_last(d, at, eb, eb, 0);
            }
            lemma_end(d1, d1[at].depth, at + 1);
            let j = end_of(d1, at);
            if v.len() > 0 {
                law_parts_are_put_last(d1, at, ev, eb, i);
            }
            lemma_end(d2, d2[at].depth, at + 1);
            if p.len() > 0 {
                law_parts_are_put_last(d2, at, ep, eb, i);
                law_parts_are_put_last(d2, at, ep, ev, j);
            }
            if b.len() > 0 {
                assert(stands_at(d3, i, eb));
            }
            if v.len() > 0 {
                assert(stands_at(d3, j, ev));
            }
            if p.len() > 0 {
                assert(stands_at(d3, end_of(d2, at), ep));
            }
        },
    }
}

/// The one clip of a rip's instrument stands from the beginning to the end of the song, with all
/// of its notes.
pub proof fn law_songs_have_one_clip(
    d: Doc,
    name: Seq<char>,
    notes: Seq<ClippedNote>,
    end: i64,
    color: int,
)
    requires
        d.len() > 0,
        forall|j: int| 0 <= j < d.len() ==> (#[trigger] d[j]).depth < usize::MAX,
    ensures
        with_song_clip(d, name, notes, end, color) matches Some(e) ==> exists|template: Doc|
            #[trigger] clip_of(template, name, 0, end, notes, 0, color) matches Some(clip)
                && has_part(e, clip),
{
    lemma_find(d, 0, clips_path());
    match find_in(d, 0, clips_path()) {
        None => {},
        Some(at) => {
            lemma_child(d, d[at].depth, at + 1, "MidiClip"@);
            match child_of(d, at, "MidiClip"@) {
                None => {},
                Some(clip) => {
                    lemma_end(d, d[clip].depth, clip + 1);
                    let template = part_at(d, clip);
                    let rest = without(d, clip);
                    match clip_of(template, name, 0, end, notes, 0, color) {
                        None => {},
                        Some(c) => {
                            assert(rest[at] == d[at]);
                            law_parts_are_put_last(rest, at, c, c, 0);
                            assert(stands_at(with_child(rest, at, c), end_of(rest, at), c));
                        },
                    }
                },
            }
        },
    }
}

/// A curve that is drawn in an instrument of a rip is in its track, driving what stands at the
/// path.
pub proof fn law_curves_are_drawn_at_their_path(
    d: Doc,
    next: u64,
    path: Seq<char>,
    marks: Seq<Mark>,
)
    requires
        d.len() > 0,
        forall|j: int| 0 <= j < d.len() ==> (#[trigger] d[j]).depth < usize::MAX,
        marks.len() > 0,
        find_in(d, 0, "./AutomationEnvelopes/Envelopes"@) is Some,
    ensures
        target_of(d, path) matches Some(id) ==> has_part(
            with_curve(d, next, path, marks).0,
            envelope_of(marks, id, 0, next),
        ),
{
    let at = find_in(d, 0, "./AutomationEnvelopes/Envelopes"@)->0;
    lemma_find(d, 0, "./AutomationEnvelopes/Envelopes"@);
    match target_of(d, path) {
        None => {},
        Some(id) => {
            let part = envelope_of(marks, id, 0, next);
            law_parts_are_put_last(d, at, part, part, 0);
            assert(stands_at(with_child(d, at, part), end_of(d, at), part));
        },
    }
}

/// The curves of a wavetable: its waves move the position, over a twentieth of a second each; its
/// bends the pitch; its gains the gain.
pub proof fn law_wavetables_draw_their_curves(
    d: Doc,
    next: u64,
    channel: ChannelTrackView,
    pace: Pace,
)
    ensures
        ({
            let waves = channel.frames.len() > 1;
            let bends = channel.pitch_bends.len() > 0;
            let gains = channel.gains.len() > 0;
            let r = with_wavetable_curves(d, next, channel, pace);
            &&& !waves && !bends && !gains ==> r == (d, next)
            &&& waves && !bends && !gains ==> r == with_curve(
                d,
                next,
                ".//Voice_Oscillator1_Wavetables_WavePosition/AutomationTarget"@,
                ramped(frame_marks(channel.frames), pace.micros(44_100int / 20)),
            )
            &&& !waves && bends && !gains ==> r == with_curve(
                d,
                next,
                ".//Voice_Oscillator1_Pitch_Detune/AutomationTarget"@,
                stepped(channel.pitch_bends),
            )
            &&& !waves && !bends && gains ==> r == with_curve(
                d,
                next,
                ".//Voice_Oscillator1_Gain/AutomationTarget"@,
                stepped(channel.gains),
            )
        }),
{
}

} // verus!
