//! That no identity is given twice in the set of a chip rip.
use crate::export::als::{first_free, steady, with_tracks};
use crate::export::automation::{envelope_of, next_behind_envelope, number_text, stepped, Mark};
use crate::export::clip::{
    clip_of, clip_values, first_note, key_track, notes_at, pitches_of, with_key_tracks, ClippedNote,
};
use crate::export::ids::{
    after, has_global_id, law_largest_id_bounds, lemma_renumbering, next_after, renumbered,
    LOCAL_ID_THRESHOLD,
};
use crate::export::pace::Pace;
use crate::export::sampler::{
    clips_path, file_values, group_of, target_of, with_file, SampleFileView,
};
use crate::export::unique::{
    all_differ, all_within, clip_has_no_ids, has_no_ids, id_of, ids_apart, ids_differ, ids_within,
    lemma_attribute_ids, lemma_behind, lemma_child_apart, lemma_child_differs, lemma_child_ids,
    lemma_child_nodes, lemma_few_pitches, lemma_group_unique, lemma_key_track_has_no_ids,
    lemma_largest_fits, lemma_named_places, lemma_names, lemma_next_after_grows, lemma_no_ids,
    lemma_numbered, lemma_push_unique, lemma_same_clip, lemma_same_ids, lemma_shapes,
    lemma_small_id, lemma_tempo_unique, lemma_value_ids, lemma_values_at_ids, lemma_values_ids,
    lemma_with_envelope, lemma_with_tracks_differs, lemma_within_apart, lemma_without_ids,
    pitches_fit, same_ids, unique_in,
};
use crate::export::vgm_als::{
    audio_clip, audio_clip_values, audio_track, audio_track_values, clip_name, frame_marks,
    frames_before, instrument_values, operator_values, opl_track, patch_values, prepared, ramped,
    second_micros, sound_values, table_values, voice_values, wavetable_track, wavetable_values,
    with_audio_clips, with_curve, with_patch, with_song_clip, with_table, with_wavetable_curves,
    AudioSegmentView, POSITION_MORPH_SAMPLES,
};
use crate::export::vgm_operator::{operator_track_views, OperatorTrackView, OplRegisters};
use crate::export::vgm_set::{
    all_groups, color_at, file_views, grouped, in_group, operator_group, operator_name, opl_tracks,
    pace_text, stem_tracks, stem_views, vgm_set, wav_group, wavetable_file, wavetable_group,
    wavetable_name, wavetable_tracks, StemTrackView, Tracks, VgmParts, VgmTemplates,
};
use crate::export::vgm_wavetable::{channel_track_views, ChannelTrackView};
use crate::text::decimal;
use crate::xmlutil::{
    child_of, end_of, find_in, lemma_child, lemma_end, lemma_find, named_up_to, part_at, same_shape,
    with_attribute, with_child, with_value, with_values, without, without_children, Doc,
};
use vstd::prelude::*;

verus! {

/// The clip of the template of an audio track stands below this.
pub open spec fn audio_clips_path() -> Seq<char> {
    ".//DeviceChain/MainSequencer/Sample/ArrangerAutomation/Events"@
}

proof fn lemma_prepared(template: Doc, next: u64, values: Seq<(Seq<char>, Seq<char>)>)
    requires
        template.len() > 0,
        template[0].content is Element,
    ensures
        prepared(template, next, values) matches Some((d, n)) ==> next <= n && (n <= i64::MAX ==> {
            &&& d.len() == template.len()
            &&& unique_in(d, next as int, n as int)
            &&& same_shape(template, d)
            &&& forall|k: int|
                1 <= k < template.len() && has_global_id(#[trigger] d[k]) ==> has_global_id(
                    template[k],
                )
        }),
{
    let numbered = with_attribute(template, 0, "Id"@, decimal(next as int));
    let n = next_after(numbered, after(next));
    lemma_next_after_grows(numbered, after(next), numbered.len() as int);
    if prepared(template, next, values) is Some && n <= i64::MAX {
        lemma_numbered(template, next);
        let d = renumbered(numbered, after(next));
        lemma_values_ids(d, 0, values);
        let e = with_values(d, 0, values)->0;
        lemma_same_ids(d, e, next as int, n as int);
        assert forall|k: int| 0 <= k < template.len() implies (#[trigger] template[k]).depth
            == e[k].depth by {
            assert(d[k].depth == e[k].depth);
        }
        assert forall|k: int, name: Seq<char>| 0 <= k < template.len() implies (
        #[trigger] template[k].is_named(name)) == e[k].is_named(name) by {
            assert(template[k].is_named(name) == d[k].is_named(name));
            assert(d[k].is_named(name) == e[k].is_named(name));
        }
        assert forall|k: int| 1 <= k < template.len() && has_global_id(
            #[trigger] e[k],
        ) implies has_global_id(template[k]) by {
            assert(d[k].attribute("Id"@) == e[k].attribute("Id"@));
            assert(has_global_id(d[k]));
        }
    }
}

proof fn lemma_file_ids(d: Doc, at: int, wav: Seq<char>, file: SampleFileView)
    requires
        0 <= at < d.len(),
    ensures
        with_file(d, at, wav, file) matches Some(e) ==> same_ids(d, e) && same_shape(d, e),
{
    lemma_end(d, d[at].depth, at + 1);
    lemma_named_places(d, at + 1, end_of(d, at), "FileRef"@);
    lemma_values_at_ids(
        d,
        named_up_to(d, at + 1, end_of(d, at), "FileRef"@),
        file_values(wav, file),
    );
}

proof fn lemma_audio_clip_has_no_ids(
    template: Doc,
    id: int,
    start: i64,
    end: i64,
    name: Seq<char>,
    color: int,
    segment: AudioSegmentView,
)
    requires
        template.len() > 0,
        template[0].content is Element,
        forall|k: int| 1 <= k < template.len() ==> !has_global_id(#[trigger] template[k]),
        0 <= id < LOCAL_ID_THRESHOLD,
    ensures
        audio_clip(template, id, start, end, name, color, segment) matches Some(c) ==> has_no_ids(c),
{
    lemma_names();
    lemma_small_id(id);
    let numbered = with_attribute(template, 0, "Id"@, decimal(id));
    assert(has_no_ids(numbered)) by {
        assert(numbered[0].attribute("Id"@) == Some(decimal(id)));
        assert forall|i: int| 0 <= i < numbered.len() implies !has_global_id(
            #[trigger] numbered[i],
        ) by {
            if i > 0 {
                assert(numbered[i] == template[i]);
            }
        }
    }
    let time = number_text(start as int);
    let placed = with_attribute(numbered, 0, "Time"@, time);
    lemma_attribute_ids(numbered, 0, "Time"@, time);
    lemma_no_ids(numbered, 0);
    lemma_same_ids(numbered, placed, 0, 0);
    let values = audio_clip_values(
        time,
        number_text(end as int),
        number_text(second_micros(segment.frames) as int),
        name,
        color,
    );
    lemma_values_ids(placed, 0, values);
    match with_values(placed, 0, values) {
        None => {},
        Some(d) => {
            lemma_same_ids(placed, d, 0, 0);
            lemma_file_ids(d, 0, segment.wav, segment.file);
            match with_file(d, 0, segment.wav, segment.file) {
                None => {},
                Some(e) => {
                    lemma_same_ids(d, e, 0, 0);
                    let sound = sound_values(segment.frames as int, segment.file.now);
                    lemma_values_ids(e, 0, sound);
                    match with_values(e, 0, sound) {
                        None => {},
                        Some(f) => {
                            lemma_same_ids(e, f, 0, 0);
                            lemma_no_ids(f, 0);
                        },
                    }
                },
            }
        },
    }
}

proof fn lemma_audio_clips_unique(
    d: Doc,
    at: int,
    template: Doc,
    name: Seq<char>,
    color: int,
    segments: Seq<AudioSegmentView>,
    pace: Pace,
    k: int,
    from: int,
    to: int,
)
    requires
        0 <= at < d.len(),
        from <= to,
        unique_in(d, from, to),
        template.len() > 0,
        template[0].content is Element,
        forall|i: int| 1 <= i < template.len() ==> !has_global_id(#[trigger] template[i]),
        k <= segments.len() <= LOCAL_ID_THRESHOLD,
    ensures
        with_audio_clips(d, at, template, name, color, segments, pace, k) matches Some(e)
            ==> unique_in(e, from, to) && e.len() >= d.len(),
    decreases k,
{
    if k > 0 {
        lemma_audio_clips_unique(d, at, template, name, color, segments, pace, k - 1, from, to);
        let start = pace.micros(frames_before(segments, k - 1));
        let end = pace.micros(frames_before(segments, k));
        let full = clip_name(name, segments[k - 1].suffix);
        lemma_audio_clip_has_no_ids(template, k - 1, start, end, full, color, segments[k - 1]);
        match with_audio_clips(d, at, template, name, color, segments, pace, k - 1) {
            None => {},
            Some(e) => match audio_clip(
                template,
                k - 1,
                start,
                end,
                full,
                color,
                segments[k - 1],
            ) {
                None => {},
                Some(clip) => {
                    lemma_no_ids(clip, to);
                    lemma_child_ids(e, at, clip, from, to, to);
                    lemma_child_nodes(e, at, clip);
                },
            },
        }
    }
}

proof fn lemma_audio_track_unique(
    template: Doc,
    next: u64,
    name: Seq<char>,
    color: int,
    segments: Seq<AudioSegmentView>,
    pace: Pace,
)
    requires
        template.len() > 0,
        template[0].content is Element,
        clip_has_no_ids(template, audio_clips_path(), "AudioClip"@),
        segments.len() <= LOCAL_ID_THRESHOLD,
    ensures
        audio_track(template, next, name, color, segments, pace) matches Some((d, n)) ==> next <= n
            && (n <= i64::MAX ==> unique_in(d, next as int, n as int) && d.len() > 0),
{
    reveal(audio_track);
    let values = audio_track_values(name, color);
    lemma_prepared(template, next, values);
    match prepared(template, next, values) {
        None => {},
        Some((d, n)) => if n <= i64::MAX {
            lemma_same_clip(template, d, audio_clips_path(), "AudioClip"@);
            lemma_find(d, 0, audio_clips_path());
            match find_in(d, 0, audio_clips_path()) {
                None => {},
                Some(at) => {
                    lemma_child(d, d[at].depth, at + 1, "AudioClip"@);
                    match child_of(d, at, "AudioClip"@) {
                        None => {},
                        Some(clip) => {
                            lemma_end(d, d[clip].depth, clip + 1);
                            lemma_without_ids(d, clip, next as int, n as int);
                            let part = part_at(d, clip);
                            assert(part[0].content == d[clip].content);
                            assert forall|k: int| 1 <= k < part.len() implies !has_global_id(
                                #[trigger] part[k],
                            ) by {
                                assert(part[k].content == d[clip + k].content);
                                assert(!has_global_id(d[clip + k]));
                            }
                            lemma_audio_clips_unique(
                                without(d, clip),
                                at,
                                part,
                                name,
                                color,
                                segments,
                                pace,
                                segments.len() as int,
                                next as int,
                                n as int,
                            );
                        },
                    }
                },
            }
        },
    }
}

proof fn lemma_curve_unique(d: Doc, next: u64, path: Seq<char>, marks: Seq<Mark>, from: int)
    requires
        d.len() > 0,
        from <= next,
    ensures
        ({
            let (e, n) = with_curve(d, next, path, marks);
            &&& next <= n
            &&& e.len() > 0
            &&& unique_in(d, from, next as int) && n <= i64::MAX ==> unique_in(e, from, n as int)
        }),
{
    lemma_find(d, 0, "./AutomationEnvelopes/Envelopes"@);
    lemma_behind(marks, next);
    match target_of(d, path) {
        None => {},
        Some(id) => match find_in(d, 0, "./AutomationEnvelopes/Envelopes"@) {
            None => {},
            Some(at) => {
                if marks.len() > 0 {
                    lemma_child_nodes(d, at, envelope_of(marks, id, 0, next));
                }
                if unique_in(d, from, next as int) && next_behind_envelope(marks, next)
                    <= i64::MAX {
                    lemma_with_envelope(d, at, marks, id, 0, from, next);
                }
            },
        },
    }
}

/// What a change of a document keeps: no identity is there twice, all are in a range, and none is
/// one of another document.
spec fn stands_apart(d: Doc, f: Doc, from: int, to: int) -> bool {
    unique_in(d, from, to) && ids_apart(d, f)
}

proof fn lemma_same_apart(d: Doc, e: Doc, f: Doc, from: int, to: int)
    requires
        same_ids(d, e),
        stands_apart(d, f, from, to),
    ensures
        stands_apart(e, f, from, to),
{
    lemma_same_ids(d, e, from, to);
    assert forall|i: int, j: int|
        0 <= i < e.len() && 0 <= j < f.len() && has_global_id(#[trigger] e[i]) && has_global_id(
            #[trigger] f[j],
        ) implies id_of(e[i]) != id_of(f[j]) by {
        assert(d[i].attribute("Id"@) == e[i].attribute("Id"@));
        assert(has_global_id(d[i]));
    }
}

proof fn lemma_cleared_apart(d: Doc, at: int, f: Doc, from: int, to: int)
    requires
        0 <= at < d.len(),
        stands_apart(d, f, from, to),
    ensures
        stands_apart(without_children(d, at), f, from, to),
        at < without_children(d, at).len(),
{
    lemma_without_ids(d, at, from, to);
    lemma_end(d, d[at].depth, at + 1);
    let e = without_children(d, at);
    let end = end_of(d, at);
    assert forall|i: int, j: int|
        0 <= i < e.len() && 0 <= j < f.len() && has_global_id(#[trigger] e[i]) && has_global_id(
            #[trigger] f[j],
        ) implies id_of(e[i]) != id_of(f[j]) by {
        let place = if i <= at {
            i
        } else {
            i - at - 1 + end
        };
        assert(e[i] == d[place]);
        assert(has_global_id(d[place]));
    }
}

proof fn lemma_keyed_apart(
    d: Doc,
    at: int,
    notes: Seq<ClippedNote>,
    k: int,
    f: Doc,
    from: int,
    to: int,
)
    requires
        0 <= at < d.len(),
        from <= to,
        stands_apart(d, f, from, to),
        k <= LOCAL_ID_THRESHOLD,
    ensures
        stands_apart(with_key_tracks(d, at, notes, k), f, from, to),
        with_key_tracks(d, at, notes, k).len() >= d.len(),
    decreases k,
{
    if k > 0 {
        lemma_keyed_apart(d, at, notes, k - 1, f, from, to);
        let e = with_key_tracks(d, at, notes, k - 1);
        let pitch = pitches_of(notes)[k - 1];
        let local = notes_at(notes, pitch);
        let first = first_note(notes, k - 1);
        let part = key_track(k - 1, pitch, local, first);
        lemma_key_track_has_no_ids(k - 1, pitch, local, first);
        lemma_no_ids(part, to);
        lemma_child_ids(e, at, part, from, to, to);
        lemma_child_apart(e, at, part, f);
        lemma_child_nodes(e, at, part);
    }
}

/// A clip has no identities but those that its template had.
proof fn lemma_clip_apart(
    template: Doc,
    name: Seq<char>,
    end: i64,
    notes: Seq<ClippedNote>,
    color: int,
    f: Doc,
    from: int,
    to: int,
)
    requires
        template.len() > 0,
        template[0].content is Element,
        from <= to,
        stands_apart(template, f, from, to),
        pitches_fit(notes),
    ensures
        clip_of(template, name, 0, end, notes, 0, color) matches Some(c) ==> stands_apart(
            c,
            f,
            from,
            to,
        ),
{
    lemma_names();
    lemma_small_id(0);
    let numbered = with_attribute(template, 0, "Id"@, decimal(0));
    assert(numbered[0].attribute("Id"@) == Some(decimal(0)));
    assert forall|i: int| 0 <= i < numbered.len() && has_global_id(#[trigger] numbered[i]) implies i
        > 0 && has_global_id(template[i]) && id_of(numbered[i]) == id_of(template[i]) by {
        if i > 0 {
            assert(numbered[i] == template[i]);
        }
    }
    assert(stands_apart(numbered, f, from, to));
    let time = number_text(0);
    let placed = with_attribute(numbered, 0, "Time"@, time);
    lemma_attribute_ids(numbered, 0, "Time"@, time);
    lemma_same_apart(numbered, placed, f, from, to);
    let values = clip_values(name, decimal(color), time, number_text(end as int));
    lemma_values_ids(placed, 0, values);
    match with_values(placed, 0, values) {
        None => {},
        Some(valued) => {
            lemma_same_apart(placed, valued, f, from, to);
            lemma_find(valued, 0, "./Notes/KeyTracks"@);
            match find_in(valued, 0, "./Notes/KeyTracks"@) {
                None => {},
                Some(tracks) => {
                    let n = pitches_of(notes).len() as int;
                    if n > 0 {
                        lemma_few_pitches(notes, n - 1);
                    }
                    lemma_cleared_apart(valued, tracks, f, from, to);
                    let cleared = without_children(valued, tracks);
                    lemma_keyed_apart(cleared, tracks, notes, n, f, from, to);
                    let keyed = with_key_tracks(cleared, tracks, notes, n);
                    let path = "./Notes/NoteIdGenerator/NextId"@;
                    let count = decimal(notes.len() as int + 1);
                    lemma_value_ids(keyed, 0, path, count);
                    match with_value(keyed, 0, path, count) {
                        None => {},
                        Some(counted) => {
                            lemma_same_apart(keyed, counted, f, from, to);
                            lemma_find(counted, 0, "./Envelopes/Envelopes"@);
                            match find_in(counted, 0, "./Envelopes/Envelopes"@) {
                                None => {},
                                Some(envelopes) => lemma_cleared_apart(
                                    counted,
                                    envelopes,
                                    f,
                                    from,
                                    to,
                                ),
                            }
                        },
                    }
                },
            }
        },
    }
}

/// A part of a document and the rest have no identity in common.
proof fn lemma_part_apart(d: Doc, at: int, from: int, to: int)
    requires
        0 <= at < d.len(),
        unique_in(d, from, to),
    ensures
        stands_apart(part_at(d, at), without(d, at), from, to),
{
    lemma_end(d, d[at].depth, at + 1);
    let part = part_at(d, at);
    let rest = without(d, at);
    let end = end_of(d, at);
    assert forall|i: int| 0 <= i < part.len() implies (#[trigger] part[i]).content == d[at
        + i].content by {}
    assert forall|i: int| 0 <= i < part.len() && has_global_id(#[trigger] part[i]) implies from
        <= id_of(part[i]) < to by {
        assert(has_global_id(d[at + i]));
    }
    assert forall|i: int, j: int|
        0 <= i < j < part.len() && has_global_id(#[trigger] part[i]) && has_global_id(
            #[trigger] part[j],
        ) implies id_of(part[i]) != id_of(part[j]) by {
        assert(has_global_id(d[at + i]) && has_global_id(d[at + j]));
    }
    assert forall|i: int, j: int|
        0 <= i < part.len() && 0 <= j < rest.len() && has_global_id(#[trigger] part[i])
            && has_global_id(#[trigger] rest[j]) implies id_of(part[i]) != id_of(rest[j]) by {
        let place = if j < at {
            j
        } else {
            j - at + end
        };
        assert(rest[j] == d[place]);
        assert(has_global_id(d[at + i]) && has_global_id(d[place]));
    }
}

proof fn lemma_song_clip_unique(
    d: Doc,
    name: Seq<char>,
    notes: Seq<ClippedNote>,
    end: i64,
    color: int,
    from: int,
    to: int,
)
    requires
        d.len() > 0,
        from <= to,
        unique_in(d, from, to),
        pitches_fit(notes),
    ensures
        with_song_clip(d, name, notes, end, color) matches Some(e) ==> unique_in(e, from, to)
            && e.len() > 0,
{
    lemma_find(d, 0, clips_path());
    match find_in(d, 0, clips_path()) {
        None => {},
        Some(at) => {
            lemma_child(d, d[at].depth, at + 1, "MidiClip"@);
            match child_of(d, at, "MidiClip"@) {
                None => {},
                Some(clip) => {
                    lemma_end(d, d[clip].depth, clip + 1);
                    let part = part_at(d, clip);
                    let rest = without(d, clip);
                    assert(part[0].content == d[clip].content);
                    lemma_part_apart(d, clip, from, to);
                    lemma_without_ids(d, clip, from, to);
                    lemma_clip_apart(part, name, end, notes, color, rest, from, to);
                    match clip_of(part, name, 0, end, notes, 0, color) {
                        None => {},
                        Some(c) => {
                            let e = with_child(rest, at, c);
                            assert(ids_apart(rest, c));
                            lemma_child_differs(rest, at, c);
                            lemma_child_nodes(rest, at, c);
                            let stop = end_of(rest, at);
                            assert forall|i: int| 0 <= i < e.len() && has_global_id(
                                #[trigger] e[i],
                            ) implies from <= id_of(e[i]) < to by {
                                if i < stop {
                                    assert(has_global_id(rest[i]));
                                } else if i < stop + c.len() {
                                    assert(has_global_id(c[i - stop]));
                                } else {
                                    assert(has_global_id(rest[i - c.len()]));
                                }
                            }
                        },
                    }
                },
            }
        },
    }
}

proof fn lemma_table_ids(d: Doc, frames: int, wav: Seq<char>, file: SampleFileView)
    requires
        d.len() > 0,
    ensures
        with_table(d, frames, wav, file) matches Some(e) ==> same_ids(d, e),
{
    let path = ".//UserSprite1/Value/SampleRef"@;
    lemma_find(d, 0, path);
    match find_in(d, 0, path) {
        None => {},
        Some(at) => {
            lemma_file_ids(d, at, wav, file);
            match with_file(d, at, wav, file) {
                None => {},
                Some(e) => {
                    let values = table_values(frames, file.now);
                    lemma_values_ids(e, at, values);
                    match with_values(e, at, values) {
                        None => {},
                        Some(f) => lemma_shapes(d, e, f),
                    }
                },
            }
        },
    }
}

proof fn lemma_wavetable_track_unique(
    template: Doc,
    next: u64,
    name: Seq<char>,
    color: int,
    wav: Seq<char>,
    file: SampleFileView,
    channel: ChannelTrackView,
    end: i64,
    pace: Pace,
)
    requires
        template.len() > 0,
        template[0].content is Element,
        pitches_fit(channel.notes),
    ensures
        wavetable_track(template, next, name, color, wav, file, channel, end, pace) matches Some(
            (d, n),
        ) ==> next <= n && (n <= i64::MAX ==> unique_in(d, next as int, n as int) && d.len() > 0),
{
    reveal(wavetable_track);
    let from = next as int;
    let values = instrument_values(name, color) + wavetable_values();
    lemma_prepared(template, next, values);
    match prepared(template, next, values) {
        None => {},
        Some((d, behind)) => {
            lemma_prepared_len(template, next, values);
            lemma_table_ids(d, channel.frames.len() as int, wav, file);
            match with_table(d, channel.frames.len() as int, wav, file) {
                None => {},
                Some(e) => {
                    let position = ".//Voice_Oscillator1_Wavetables_WavePosition/AutomationTarget"@;
                    let frames = ramped(
                        frame_marks(channel.frames),
                        pace.micros(POSITION_MORPH_SAMPLES as int),
                    );
                    lemma_curve_unique(e, behind, position, frames, from);
                    let (d1, n1) = if channel.frames.len() > 1 {
                        with_curve(e, behind, position, frames)
                    } else {
                        (e, behind)
                    };
                    let detune = ".//Voice_Oscillator1_Pitch_Detune/AutomationTarget"@;
                    let bends = stepped(channel.pitch_bends);
                    lemma_curve_unique(d1, n1, detune, bends, from);
                    let (d2, n2) = if channel.pitch_bends.len() > 0 {
                        with_curve(d1, n1, detune, bends)
                    } else {
                        (d1, n1)
                    };
                    let gain = ".//Voice_Oscillator1_Gain/AutomationTarget"@;
                    lemma_curve_unique(d2, n2, gain, stepped(channel.gains), from);
                    let (f, last) = with_wavetable_curves(e, behind, channel, pace);
                    if last <= i64::MAX {
                        lemma_same_ids(d, e, from, behind as int);
                        lemma_song_clip_unique(
                            f,
                            name,
                            channel.notes,
                            end,
                            color,
                            from,
                            last as int,
                        );
                    }
                },
            }
        },
    }
}

proof fn lemma_prepared_len(template: Doc, next: u64, values: Seq<(Seq<char>, Seq<char>)>)
    requires
        template.len() > 0,
    ensures
        prepared(template, next, values) matches Some((d, n)) ==> d.len() > 0,
{
    let numbered = with_attribute(template, 0, "Id"@, decimal(next as int));
    lemma_renumbering(numbered, after(next), numbered.len() as int);
    lemma_values_ids(renumbered(numbered, after(next)), 0, values);
}

proof fn lemma_patch_ids(d: Doc, patch: Option<OplRegisters>)
    requires
        d.len() > 0,
    ensures
        with_patch(d, patch) matches Some(e) ==> same_ids(d, e),
{
    match patch {
        None => {},
        Some(p) => {
            let carrier = voice_values(true, p.carrier);
            lemma_values_ids(d, 0, carrier);
            match with_values(d, 0, carrier) {
                None => {},
                Some(e) => {
                    let modulator = voice_values(false, p.modulator);
                    lemma_values_ids(e, 0, modulator);
                    match with_values(e, 0, modulator) {
                        None => {},
                        Some(f) => {
                            lemma_shapes(d, e, f);
                            lemma_values_ids(f, 0, patch_values(p));
                            match with_values(f, 0, patch_values(p)) {
                                None => {},
                                Some(g) => lemma_shapes(d, f, g),
                            }
                        },
                    }
                },
            }
        },
    }
}

proof fn lemma_opl_track_unique(
    template: Doc,
    next: u64,
    name: Seq<char>,
    color: int,
    channel: OperatorTrackView,
    end: i64,
)
    requires
        template.len() > 0,
        template[0].content is Element,
        pitches_fit(channel.notes),
    ensures
        opl_track(template, next, name, color, channel, end) matches Some((d, n)) ==> next <= n && (n
            <= i64::MAX ==> unique_in(d, next as int, n as int) && d.len() > 0),
{
    reveal(opl_track);
    let from = next as int;
    let values = instrument_values(name, color) + operator_values();
    lemma_prepared(template, next, values);
    lemma_prepared_len(template, next, values);
    match prepared(template, next, values) {
        None => {},
        Some((d, behind)) => {
            lemma_patch_ids(d, channel.patch);
            match with_patch(d, channel.patch) {
                None => {},
                Some(e) => {
                    let path = ".//Operator.0/Volume/AutomationTarget"@;
                    lemma_curve_unique(e, behind, path, stepped(channel.gains), from);
                    let (f, last) = if channel.gains.len() > 0 {
                        with_curve(e, behind, path, stepped(channel.gains))
                    } else {
                        (e, behind)
                    };
                    if last <= i64::MAX {
                        lemma_same_ids(d, e, from, behind as int);
                        lemma_song_clip_unique(
                            f,
                            name,
                            channel.notes,
                            end,
                            color,
                            from,
                            last as int,
                        );
                    }
                },
            }
        },
    }
}

/// The tracks have their identities from a range, and none of them twice.
spec fn tracks_come_to(tracks: Tracks, from: int) -> bool {
    &&& from <= tracks.1
    &&& all_differ(tracks.0)
    &&& all_within(tracks.0, from, tracks.1 as int)
    &&& forall|a: int| 0 <= a < tracks.0.len() ==> (#[trigger] tracks.0[a]).len() > 0
}

proof fn lemma_track_added(tracks: Seq<Doc>, d: Doc, from: int, middle: u64, to: u64)
    requires
        tracks_come_to((tracks, middle), from),
        middle <= to,
        unique_in(d, middle as int, to as int),
        d.len() > 0,
    ensures
        tracks_come_to((tracks.push(d), to), from),
{
    lemma_push_unique(tracks, d, from, middle as int, to as int);
    let all = tracks.push(d);
    assert forall|a: int| 0 <= a < all.len() implies (#[trigger] all[a]).len() > 0 by {
        if a < tracks.len() {
            assert(all[a] == tracks[a]);
        }
    }
}

proof fn lemma_stem_tracks_unique(
    template: Doc,
    next: u64,
    stems: Seq<StemTrackView>,
    pace: Pace,
    k: int,
)
    requires
        template.len() > 0,
        template[0].content is Element,
        clip_has_no_ids(template, audio_clips_path(), "AudioClip"@),
        k <= stems.len(),
        forall|i: int|
            0 <= i < stems.len() ==> (#[trigger] stems[i]).segments.len() <= LOCAL_ID_THRESHOLD,
    ensures
        stem_tracks(template, next, stems, pace, k) matches Some(t) ==> next <= t.1 && (t.1
            <= i64::MAX ==> tracks_come_to(t, next as int)),
    decreases k,
{
    if k > 0 {
        lemma_stem_tracks_unique(template, next, stems, pace, k - 1);
        match stem_tracks(template, next, stems, pace, k - 1) {
            None => {},
            Some((tracks, n)) => {
                let stem = stems[k - 1];
                lemma_audio_track_unique(
                    template,
                    n,
                    stem.name,
                    color_at(k - 1),
                    stem.segments,
                    pace,
                );
                match audio_track(template, n, stem.name, color_at(k - 1), stem.segments, pace) {
                    None => {},
                    Some((d, behind)) => if behind <= i64::MAX {
                        lemma_track_added(tracks, d, next as int, n, behind);
                    },
                }
            },
        }
    }
}

proof fn lemma_wavetable_tracks_unique(
    template: Doc,
    next: u64,
    channels: Seq<ChannelTrackView>,
    files: Seq<SampleFileView>,
    end: i64,
    pace: Pace,
    k: int,
)
    requires
        template.len() > 0,
        template[0].content is Element,
        k <= channels.len(),
        forall|i: int| 0 <= i < channels.len() ==> pitches_fit((#[trigger] channels[i]).notes),
    ensures
        wavetable_tracks(template, next, channels, files, end, pace, k) matches Some(t) ==> next
            <= t.1 && (t.1 <= i64::MAX ==> tracks_come_to(t, next as int)),
    decreases k,
{
    if k > 0 {
        lemma_wavetable_tracks_unique(template, next, channels, files, end, pace, k - 1);
        match wavetable_tracks(template, next, channels, files, end, pace, k - 1) {
            None => {},
            Some((tracks, n)) => {
                let channel = channels[k - 1];
                let name = wavetable_name(k - 1);
                let wav = wavetable_file(k - 1);
                let color = color_at(k - 1);
                let file = files[k - 1];
                lemma_wavetable_track_unique(
                    template,
                    n,
                    name,
                    color,
                    wav,
                    file,
                    channel,
                    end,
                    pace,
                );
                match wavetable_track(template, n, name, color, wav, file, channel, end, pace) {
                    None => {},
                    Some((d, behind)) => if behind <= i64::MAX && channel.notes.len() > 0 {
                        lemma_track_added(tracks, d, next as int, n, behind);
                    },
                }
            },
        }
    }
}

proof fn lemma_opl_tracks_unique(
    template: Doc,
    start: Tracks,
    label: Seq<char>,
    channels: Seq<OperatorTrackView>,
    end: i64,
    k: int,
    from: int,
)
    requires
        template.len() > 0,
        template[0].content is Element,
        k <= channels.len(),
        forall|i: int| 0 <= i < channels.len() ==> pitches_fit((#[trigger] channels[i]).notes),
    ensures
        opl_tracks(template, start, label, channels, end, k) matches Some(t) ==> start.1 <= t.1 && (
        tracks_come_to(start, from) && t.1 <= i64::MAX ==> tracks_come_to(t, from)),
    decreases k,
{
    if k > 0 {
        lemma_opl_tracks_unique(template, start, label, channels, end, k - 1, from);
        match opl_tracks(template, start, label, channels, end, k - 1) {
            None => {},
            Some((tracks, n)) => {
                let channel = channels[k - 1];
                let name = operator_name(label, k - 1);
                let color = color_at(k - 1);
                lemma_opl_track_unique(template, n, name, color, channel, end);
                match opl_track(template, n, name, color, channel, end) {
                    None => {},
                    Some((d, behind)) => if tracks_come_to(start, from) && behind <= i64::MAX
                        && channel.notes.len() > 0 {
                        lemma_track_added(tracks, d, from, n, behind);
                    },
                }
            },
        }
    }
}

proof fn lemma_members(tracks: Seq<Doc>, id: Seq<char>, k: int)
    requires
        0 <= k <= tracks.len(),
        forall|a: int| 0 <= a < tracks.len() ==> (#[trigger] tracks[a]).len() > 0,
    ensures
        in_group(tracks, id, k) matches Some(list) ==> list.len() == k && (forall|a: int|
            0 <= a < k ==> same_ids(tracks[a], #[trigger] list[a])),
    decreases k,
{
    if k > 0 {
        lemma_members(tracks, id, k - 1);
        match in_group(tracks, id, k - 1) {
            None => {},
            Some(done) => {
                lemma_value_ids(tracks[k - 1], 0, "./TrackGroupId"@, id);
                match with_value(tracks[k - 1], 0, "./TrackGroupId"@, id) {
                    None => {},
                    Some(d) => {
                        let list = done.push(d);
                        assert forall|a: int| 0 <= a < k implies same_ids(
                            tracks[a],
                            #[trigger] list[a],
                        ) by {
                            if a < k - 1 {
                                assert(list[a] == done[a]);
                            }
                        }
                    },
                }
            },
        }
    }
}

proof fn lemma_both_same(a: Doc, b: Doc, c: Doc, d: Doc)
    requires
        same_ids(a, c),
        same_ids(b, d),
        ids_apart(a, b),
    ensures
        ids_apart(c, d),
{
    assert forall|i: int, j: int|
        0 <= i < c.len() && 0 <= j < d.len() && has_global_id(#[trigger] c[i]) && has_global_id(
            #[trigger] d[j],
        ) implies id_of(c[i]) != id_of(d[j]) by {
        assert(a[i].attribute("Id"@) == c[i].attribute("Id"@));
        assert(b[j].attribute("Id"@) == d[j].attribute("Id"@));
        assert(has_global_id(a[i]) && has_global_id(b[j]));
    }
}

/// Groups of tracks, one behind the other.
spec fn groups_come_to(tracks: Tracks, from: int) -> bool {
    &&& from <= tracks.1
    &&& all_differ(tracks.0)
    &&& all_within(tracks.0, from, tracks.1 as int)
}

proof fn lemma_grouped_unique(tracks: Tracks, group: Doc, name: Seq<char>, from: int)
    requires
        group.len() > 0,
        group[0].content is Element,
    ensures
        grouped(tracks, group, name) matches Some(t) ==> tracks.1 <= t.1 && (tracks_come_to(
            tracks,
            from,
        ) && t.1 <= i64::MAX ==> groups_come_to(t, from)),
{
    let (list, next) = tracks;
    let numbered = with_attribute(group, 0, "Id"@, decimal(next as int));
    lemma_next_after_grows(numbered, after(next), numbered.len() as int);
    match group_of(group, name, 0, next) {
        None => {},
        Some((d, behind)) => {
            let id = decimal(next as int);
            if tracks_come_to(tracks, from) && behind <= i64::MAX && in_group(
                list,
                id,
                list.len() as int,
            ) is Some {
                lemma_group_unique(group, name, 0, next);
                lemma_members(list, id, list.len() as int);
                let members = in_group(list, id, list.len() as int)->0;
                let all = seq![d] + members;
                assert forall|a: int| 0 <= a < all.len() implies ids_differ(#[trigger] all[a])
                    && ids_within(all[a], from, behind as int) by {
                    if a > 0 {
                        assert(all[a] == members[a - 1]);
                        assert(ids_within(list[a - 1], from, next as int));
                        lemma_same_ids(list[a - 1], members[a - 1], from, next as int);
                    }
                }
                assert forall|a: int, b: int| 0 <= a < b < all.len() implies ids_apart(
                    #[trigger] all[a],
                    #[trigger] all[b],
                ) by {
                    assert(all[b] == members[b - 1]);
                    if a > 0 {
                        assert(all[a] == members[a - 1]);
                        assert(ids_apart(list[a - 1], list[b - 1]));
                        lemma_both_same(list[a - 1], list[b - 1], members[a - 1], members[b - 1]);
                    } else {
                        assert(ids_within(list[b - 1], from, next as int));
                        lemma_same_ids(list[b - 1], members[b - 1], from, next as int);
                        lemma_within_apart(
                            members[b - 1],
                            d,
                            from,
                            next as int,
                            behind as int,
                        );
                    }
                }
            }
        },
    }
}

proof fn lemma_groups_joined(a: Tracks, b: Tracks, from: int)
    requires
        groups_come_to(a, from),
        groups_come_to(b, a.1 as int),
    ensures
        groups_come_to((a.0 + b.0, b.1), from),
{
    let all = a.0 + b.0;
    let n = a.0.len() as int;
    assert forall|x: int| 0 <= x < all.len() implies ids_differ(#[trigger] all[x]) && ids_within(
        all[x],
        from,
        b.1 as int,
    ) by {
        if x < n {
            assert(all[x] == a.0[x]);
            assert(ids_within(a.0[x], from, a.1 as int));
        } else {
            assert(all[x] == b.0[x - n]);
            assert(ids_within(b.0[x - n], a.1 as int, b.1 as int));
        }
    }
    assert forall|x: int, y: int| 0 <= x < y < all.len() implies ids_apart(
        #[trigger] all[x],
        #[trigger] all[y],
    ) by {
        if y < n {
            assert(all[x] == a.0[x] && all[y] == a.0[y]);
        } else if x < n {
            assert(all[x] == a.0[x] && all[y] == b.0[y - n]);
            lemma_within_apart(a.0[x], b.0[y - n], from, a.1 as int, b.1 as int);
        } else {
            assert(all[x] == b.0[x - n] && all[y] == b.0[y - n]);
        }
    }
}

/// The clip of the audio track's template has no global identities below it.
pub open spec fn vgm_templates_fit(t: VgmTemplates) -> bool {
    t.wf() && clip_has_no_ids(t.audio@, audio_clips_path(), "AudioClip"@)
}

/// The notes are notes of MIDI, and there are no more clips on a track than there are local
/// indices.
pub open spec fn rip_fits(p: VgmParts) -> bool {
    &&& forall|i: int|
        0 <= i < p.stems.len() ==> (#[trigger] stem_views(p.stems@)[i]).segments.len()
            <= LOCAL_ID_THRESHOLD
    &&& forall|i: int|
        0 <= i < p.wavetables.len() ==> pitches_fit(
            (#[trigger] channel_track_views(p.wavetables@)[i]).notes,
        )
    &&& forall|i: int|
        0 <= i < p.opl.len() ==> pitches_fit((#[trigger] operator_track_views(p.opl@)[i]).notes)
    &&& forall|i: int|
        0 <= i < p.opl2.len() ==> pitches_fit((#[trigger] operator_track_views(p.opl2@)[i]).notes)
}

proof fn lemma_wav_group_unique(t: VgmTemplates, p: VgmParts, next: u64)
    requires
        vgm_templates_fit(t),
        rip_fits(p),
    ensures
        wav_group(t, p, next) matches Some(g) ==> next <= g.1 && (g.1 <= i64::MAX
            ==> groups_come_to(g, next as int)),
{
    let stems = stem_views(p.stems@);
    lemma_stem_tracks_unique(t.audio@, next, stems, p.pace, p.stems.len() as int);
    match stem_tracks(t.audio@, next, stems, p.pace, p.stems.len() as int) {
        None => {},
        Some(tracks) => lemma_grouped_unique(tracks, t.group@, "WAV"@, next as int),
    }
}

proof fn lemma_wavetable_group_unique(t: VgmTemplates, p: VgmParts, next: u64)
    requires
        vgm_templates_fit(t),
        rip_fits(p),
    ensures
        wavetable_group(t, p, next) matches Some(g) ==> next <= g.1 && (g.1 <= i64::MAX
            ==> groups_come_to(g, next as int)),
{
    let channels = channel_track_views(p.wavetables@);
    let files = file_views(p.wavetable_files@);
    let k = p.wavetables.len() as int;
    lemma_wavetable_tracks_unique(t.wavetable@, next, channels, files, p.end(), p.pace, k);
    match wavetable_tracks(t.wavetable@, next, channels, files, p.end(), p.pace, k) {
        None => {},
        Some(tracks) => lemma_grouped_unique(tracks, t.group@, "Wavetable"@, next as int),
    }
}

proof fn lemma_operator_group_unique(t: VgmTemplates, p: VgmParts, next: u64)
    requires
        vgm_templates_fit(t),
        rip_fits(p),
    ensures
        operator_group(t, p, next) matches Some(g) ==> next <= g.1 && (g.1 <= i64::MAX
            ==> groups_come_to(g, next as int)),
{
    let none: Tracks = (Seq::empty(), next);
    let opl = operator_track_views(p.opl@);
    let opl2 = operator_track_views(p.opl2@);
    let from = next as int;
    lemma_opl_tracks_unique(t.operator@, none, "OPL"@, opl, p.end(), p.opl.len() as int, from);
    match opl_tracks(t.operator@, none, "OPL"@, opl, p.end(), p.opl.len() as int) {
        None => {},
        Some(first) => {
            let k = p.opl2.len() as int;
            lemma_opl_tracks_unique(t.operator@, first, "OPL2"@, opl2, p.end(), k, from);
            match opl_tracks(t.operator@, first, "OPL2"@, opl2, p.end(), k) {
                None => {},
                Some(tracks) => lemma_grouped_unique(tracks, t.group@, "Operator"@, from),
            }
        },
    }
}

/// Whatever stems and channels a rip has: no two nodes of its tracks have the same global
/// identity, within a track or across tracks, and all of them are numbers from the first one
/// that was free.
pub proof fn law_rip_track_ids_are_unique(t: VgmTemplates, p: VgmParts, next: u64)
    requires
        vgm_templates_fit(t),
        rip_fits(p),
    ensures
        all_groups(t, p, next) matches Some((tracks, n)) ==> next <= n && (n <= i64::MAX
            ==> all_differ(tracks) && all_within(tracks, next as int, n as int)),
{
    lemma_wav_group_unique(t, p, next);
    match wav_group(t, p, next) {
        None => {},
        Some(a) => {
            lemma_wavetable_group_unique(t, p, a.1);
            match wavetable_group(t, p, a.1) {
                None => {},
                Some(b) => {
                    lemma_operator_group_unique(t, p, b.1);
                    match operator_group(t, p, b.1) {
                        None => {},
                        Some(c) => if c.1 <= i64::MAX {
                            lemma_groups_joined(a, b, next as int);
                            lemma_groups_joined((a.0 + b.0, b.1), c, next as int);
                        },
                    }
                },
            }
        },
    }
}

/// Where no two nodes of the template's set have the same global identity, none of the set of a
/// rip have: not those of its new tracks, not those of the return tracks, and not those of
/// anything else.
pub proof fn law_rip_set_ids_are_unique(root: Doc, t: VgmTemplates, p: VgmParts)
    requires
        root.len() > 0,
        ids_differ(root),
        vgm_templates_fit(t),
        rip_fits(p),
        all_groups(t, p, first_free(root)) matches Some((tracks, n)) ==> n <= i64::MAX,
    ensures
        vgm_set(root, t, p) matches Some(e) ==> ids_differ(e),
{
    lemma_find(root, 0, "./LiveSet"@);
    let first = first_free(root);
    law_rip_track_ids_are_unique(t, p, first);
    assert forall|i: int| 0 <= i < root.len() && has_global_id(#[trigger] root[i]) implies 0
        <= id_of(root[i]) < first by {
        law_largest_id_bounds(root, root.len() as int, i);
        lemma_largest_fits(root, root.len() as int);
    }
    match find_in(root, 0, "./LiveSet"@) {
        None => {},
        Some(live) => match all_groups(t, p, first) {
            None => {},
            Some((tracks, next)) => {
                lemma_with_tracks_differs(root, live, tracks, next, first as int);
                match with_tracks(root, live, tracks, next) {
                    None => {},
                    Some(d) => {
                        let all = i64::MAX + 1;
                        assert(unique_in(d, 0, all));
                        let text = pace_text(p.pace);
                        lemma_tempo_unique(d, live, text, steady(text), all);
                    },
                }
            },
        },
    }
}

} // verus!
