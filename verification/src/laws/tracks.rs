//! What stands in the track that is made for a voice of a sample.
use crate::export::automation::{envelope_of, mark_events, with_envelope, Mark};
use crate::export::clip::{
    clip_of, key_track, note_nodes, notes_at, pitches_of, with_key_tracks, ClippedNote,
};
use crate::export::curves::{fader_gain, AmigaPanning, LiveNoteView};
use crate::export::ids::{after, lemma_renumbering, next_after, renumbered, renumbering};
use crate::export::sampler::{
    bends_of, clips_path, color_of, file_values, notes_in, offset_of, pans_of, resting_pan,
    row_micros, sample_values, track_name, track_of, track_values, volumes_of, with_arrangement,
    with_clips, with_curves, with_file, with_sample, with_values_at, SampleFileView, Targets,
};
use crate::export::tempo::Segment;
use crate::export::unique::{lemma_named_places, lemma_shape_chain};
use crate::export::wav::wav_filename;
use crate::formats::base::SampleView;
use crate::laws::paths::{
    end_alike, end_otherwise, ends_in_name, first_name, is_free_of, law_other_values_are_kept,
    law_paths_lead_past_new_parts, law_paths_lead_past_what_is_gone, lemma_leads_to_its_name,
};
use crate::laws::sampler::{law_loops_are_looped, sampler_paths};
use crate::laws::values::{lead_apart, value_at};
use crate::text::decimal;
use crate::xmlutil::{
    chain_of, child_from, child_of, end_of, find_in, is_deep, is_direct, is_tree, lemma_chain,
    lemma_child, lemma_end, lemma_find, lemma_pieces, lemma_same_find, lemma_tree_depth,
    named_up_to, part_at, pieces, same_shape, with_attribute, with_child, with_value, with_values,
    without, without_children, Doc,
};
use vstd::prelude::*;

verus! {

/// A name that no clip or envelope is given.
pub open spec fn is_of_the_device(name: Seq<char>) -> bool {
    name.len() >= 2 && name[0] == 'M' && name[1] == 'u'
}

/// The template's clip has nothing that the path looks for first, and the path does not lead into
/// it.
pub open spec fn leads_past_the_clip(d: Doc, path: Seq<char>) -> bool {
    match find_in(d, 0, clips_path()) {
        None => true,
        Some(at) => match child_of(d, at, "MidiClip"@) {
            None => true,
            Some(clip) => {
                &&& find_in(d, 0, path) matches Some(i) ==> i < clip || end_of(d, clip) <= i
                &&& is_deep(path) ==> forall|j: int|
                    clip <= j < end_of(d, clip) ==> !(#[trigger] d[j]).is_named(first_name(path))
            },
        },
    }
}

/// A path that a track can be asked about.
pub open spec fn is_track_path(path: Seq<char>) -> bool {
    &&& ends_in_name(path)
    &&& is_deep(path) ==> is_of_the_device(first_name(path))
}

proof fn lemma_child_free(d: Doc, at: int, part: Doc, name: Seq<char>)
    requires
        0 <= at < d.len(),
        is_free_of(d, name),
        is_free_of(part, name),
    ensures
        is_free_of(with_child(d, at, part), name),
        with_child(d, at, part).len() >= d.len(),
{
    lemma_end(d, d[at].depth, at + 1);
    let e = with_child(d, at, part);
    let end = end_of(d, at);
    assert forall|j: int| 0 <= j < e.len() implies !(#[trigger] e[j]).is_named(name) by {
        if j < end {
            assert(e[j] == d[j]);
        } else if j < end + part.len() {
            assert(e[j].content == part[j - end].content);
            assert(!part[j - end].is_named(name));
        } else {
            assert(e[j] == d[j - part.len()]);
        }
    }
}

proof fn lemma_shape_free(d: Doc, e: Doc, name: Seq<char>)
    requires
        same_shape(d, e),
        is_free_of(d, name),
    ensures
        is_free_of(e, name),
{
    assert forall|j: int| 0 <= j < e.len() implies !(#[trigger] e[j]).is_named(name) by {
        assert(d[j].is_named(name) == e[j].is_named(name));
    }
}

proof fn lemma_cleared_free(d: Doc, at: int, name: Seq<char>)
    requires
        0 <= at < d.len(),
        is_free_of(d, name),
    ensures
        is_free_of(without_children(d, at), name),
        at < without_children(d, at).len(),
{
    lemma_end(d, d[at].depth, at + 1);
    let e = without_children(d, at);
    let end = end_of(d, at);
    assert forall|j: int| 0 <= j < e.len() implies !(#[trigger] e[j]).is_named(name) by {
        if j <= at {
            assert(e[j] == d[j]);
        } else {
            assert(e[j] == d[j - (at + 1) + end]);
        }
    }
}

pub(crate) proof fn lemma_values_shape(d: Doc, at: int, list: Seq<(Seq<char>, Seq<char>)>)
    requires
        0 <= at < d.len(),
    ensures
        with_values(d, at, list) matches Some(e) ==> same_shape(d, e),
    decreases list.len(),
{
    if list.len() > 0 {
        lemma_values_shape(d, at, list.drop_last());
        match with_values(d, at, list.drop_last()) {
            None => {},
            Some(e) => {
                lemma_find(e, at, list.last().0);
                match with_value(e, at, list.last().0, list.last().1) {
                    None => {},
                    Some(f) => {
                        assert(same_shape(e, f));
                        lemma_shape_chain(d, e, f);
                    },
                }
            },
        }
    }
}

proof fn lemma_notes_free(notes: Seq<ClippedNote>, first: int, name: Seq<char>)
    requires
        is_of_the_device(name),
    ensures
        is_free_of(note_nodes(notes, first), name),
    decreases notes.len(),
{
    reveal_strlit("MidiNoteEvent");
    if notes.len() > 0 {
        lemma_notes_free(notes.drop_last(), first, name);
        let before = note_nodes(notes.drop_last(), first);
        let e = note_nodes(notes, first);
        assert forall|j: int| 0 <= j < e.len() implies !(#[trigger] e[j]).is_named(name) by {
            if j < before.len() {
                assert(e[j] == before[j]);
            }
        }
    }
}

proof fn lemma_key_track_free(
    id: int,
    pitch: i32,
    notes: Seq<ClippedNote>,
    first: int,
    name: Seq<char>,
)
    requires
        is_of_the_device(name),
    ensures
        is_free_of(key_track(id, pitch, notes, first), name),
{
    reveal_strlit("KeyTrack");
    reveal_strlit("Notes");
    reveal_strlit("MidiKey");
    lemma_notes_free(notes, first, name);
    let e = key_track(id, pitch, notes, first);
    let n = note_nodes(notes, first);
    assert forall|j: int| 0 <= j < e.len() implies !(#[trigger] e[j]).is_named(name) by {
        if 2 <= j < 2 + n.len() {
            assert(e[j] == n[j - 2]);
        }
    }
}

proof fn lemma_key_tracks_free(d: Doc, at: int, notes: Seq<ClippedNote>, k: int, name: Seq<char>)
    requires
        0 <= at < d.len(),
        is_of_the_device(name),
        is_free_of(d, name),
    ensures
        is_free_of(with_key_tracks(d, at, notes, k), name),
        with_key_tracks(d, at, notes, k).len() >= d.len(),
    decreases k,
{
    if k > 0 {
        lemma_key_tracks_free(d, at, notes, k - 1, name);
        let pitch = pitches_of(notes)[k - 1];
        let first = crate::export::clip::first_note(notes, k - 1);
        lemma_key_track_free(k - 1, pitch, notes_at(notes, pitch), first, name);
        lemma_child_free(
            with_key_tracks(d, at, notes, k - 1),
            at,
            key_track(k - 1, pitch, notes_at(notes, pitch), first),
            name,
        );
    }
}

proof fn lemma_clip_free(
    template: Doc,
    title: Seq<char>,
    start: i64,
    end: i64,
    notes: Seq<ClippedNote>,
    index: int,
    color: int,
    name: Seq<char>,
)
    requires
        template.len() > 0,
        is_of_the_device(name),
        is_free_of(template, name),
    ensures
        clip_of(template, title, start, end, notes, index, color) matches Some(c) ==> is_free_of(
            c,
            name,
        ),
{
    let numbered = with_attribute(template, 0, "Id"@, decimal(index));
    let placed = with_attribute(
        numbered,
        0,
        "Time"@,
        crate::export::automation::number_text(start as int),
    );
    assert(same_shape(template, numbered));
    assert(same_shape(numbered, placed));
    lemma_shape_free(template, numbered, name);
    lemma_shape_free(numbered, placed, name);
    let values = crate::export::clip::clip_values(
        title,
        decimal(color),
        crate::export::automation::number_text(start as int),
        crate::export::automation::number_text(end as int),
    );
    lemma_values_shape(placed, 0, values);
    match with_values(placed, 0, values) {
        None => {},
        Some(valued) => {
            lemma_shape_free(placed, valued, name);
            lemma_find(valued, 0, "./Notes/KeyTracks"@);
            match find_in(valued, 0, "./Notes/KeyTracks"@) {
                None => {},
                Some(tracks) => {
                    lemma_cleared_free(valued, tracks, name);
                    let n = pitches_of(notes).len() as int;
                    lemma_key_tracks_free(without_children(valued, tracks), tracks, notes, n, name);
                    let keyed = with_key_tracks(
                        without_children(valued, tracks),
                        tracks,
                        notes,
                        n,
                    );
                    lemma_find(keyed, 0, "./Notes/NoteIdGenerator/NextId"@);
                    match with_value(
                        keyed,
                        0,
                        "./Notes/NoteIdGenerator/NextId"@,
                        decimal(notes.len() as int + 1),
                    ) {
                        None => {},
                        Some(counted) => {
                            assert(same_shape(keyed, counted));
                            lemma_shape_free(keyed, counted, name);
                            lemma_find(counted, 0, "./Envelopes/Envelopes"@);
                            match find_in(counted, 0, "./Envelopes/Envelopes"@) {
                                None => {},
                                Some(envelopes) => lemma_cleared_free(counted, envelopes, name),
                            }
                        },
                    }
                },
            }
        },
    }
}

/// What a document says at a path, and that it says something there.
pub open spec fn says_the_same(d: Doc, e: Doc, path: Seq<char>) -> bool {
    &&& find_in(d, 0, path) is Some
    &&& find_in(e, 0, path) is Some
    &&& value_at(e, 0, path) == value_at(d, 0, path)
    &&& e[0] == d[0]
}

proof fn lemma_clip_step(
    d: Doc,
    e: Doc,
    at: int,
    template: Doc,
    title: Seq<char>,
    start: i64,
    end: i64,
    notes: Seq<ClippedNote>,
    index: int,
    color: int,
    path: Seq<char>,
)
    requires
        0 <= at < e.len(),
        e[at].depth < usize::MAX,
        d[0].depth == 0,
        template.len() > 0,
        is_track_path(path),
        is_deep(path) ==> is_free_of(template, first_name(path)),
        says_the_same(d, e, path),
        clip_of(template, title, start, end, notes, index, color) is Some,
    ensures
        ({
            let clip = clip_of(template, title, start, end, notes, index, color)->0;
            let f = with_child(e, at, clip);
            says_the_same(d, f, path) && at < f.len() && f[at] == e[at]
        }),
{
    let clip = clip_of(template, title, start, end, notes, index, color)->0;
    if is_deep(path) {
        lemma_clip_free(template, title, start, end, notes, index, color, first_name(path));
    }
    lemma_put_one(e, at, clip, path);
}

proof fn lemma_put_one(e: Doc, at: int, clip: Doc, path: Seq<char>)
    requires
        0 <= at < e.len(),
        e[at].depth < usize::MAX,
        e[0].depth == 0,
        is_direct(path),
        is_deep(path) ==> is_free_of(clip, first_name(path)),
        find_in(e, 0, path) is Some,
    ensures
        ({
            let f = with_child(e, at, clip);
            says_the_same(e, f, path) && at < f.len() && f[at] == e[at]
        }),
{
    law_paths_lead_past_new_parts(e, at, clip, path);
    lemma_end(e, e[at].depth, at + 1);
}

#[verifier::rlimit(50)]
proof fn lemma_clips_keep(
    d: Doc,
    at: int,
    template: Doc,
    title: Seq<char>,
    color: int,
    notes: Seq<LiveNoteView>,
    segments: Seq<Segment>,
    k: int,
    path: Seq<char>,
)
    requires
        0 <= at < d.len(),
        d[at].depth < usize::MAX,
        d[0].depth == 0,
        template.len() > 0,
        is_track_path(path),
        is_deep(path) ==> is_free_of(template, first_name(path)),
        find_in(d, 0, path) is Some,
    ensures
        with_clips(d, at, template, title, color, notes, segments, k) matches Some(e)
            ==> says_the_same(d, e, path) && at < e.len() && e[at] == d[at],
    decreases k,
{
    if k > 0 {
        lemma_clips_keep(d, at, template, title, color, notes, segments, k - 1, path);
        let local = notes_in(notes, segments, k - 1, notes.len() as int);
        let start = row_micros(segments[k - 1].start_row);
        let end = row_micros(segments[k - 1].end_row);
        match with_clips(d, at, template, title, color, notes, segments, k - 1) {
            None => {},
            Some(e) => match clip_of(template, title, start, end, local, k - 1, color) {
                None => {},
                Some(clip) => lemma_clip_step(
                    d,
                    e,
                    at,
                    template,
                    title,
                    start,
                    end,
                    local,
                    k - 1,
                    color,
                    path,
                ),
            },
        }
    }
}

proof fn lemma_arrangement_keeps(
    d: Doc,
    title: Seq<char>,
    color: int,
    notes: Seq<LiveNoteView>,
    segments: Seq<Segment>,
    path: Seq<char>,
)
    requires
        d.len() > 0,
        d[0].depth == 0,
        forall|j: int| 0 <= j < d.len() ==> (#[trigger] d[j]).depth < usize::MAX,
        is_track_path(path),
        leads_past_the_clip(d, path),
        find_in(d, 0, path) is Some,
    ensures
        with_arrangement(d, title, color, notes, segments) matches Some(e) ==> says_the_same(
            d,
            e,
            path,
        ) && e.len() > 0,
{
    lemma_find(d, 0, clips_path());
    match find_in(d, 0, clips_path()) {
        None => {},
        Some(at) => {
            lemma_child(d, d[at].depth, at + 1, "MidiClip"@);
            match child_of(d, at, "MidiClip"@) {
                None => {},
                Some(clip) => {
                    lemma_end(d, d[clip].depth, clip + 1);
                    let rest = without(d, clip);
                    let part = part_at(d, clip);
                    law_paths_lead_past_what_is_gone(d, clip, path);
                    assert(rest[at] == d[at]);
                    if is_deep(path) {
                        let name = first_name(path);
                        assert forall|j: int| 0 <= j < part.len() implies !(
                        #[trigger] part[j]).is_named(name) by {
                            assert(part[j].content == d[clip + j].content);
                            assert(!d[clip + j].is_named(name));
                        }
                    }
                    lemma_clips_keep(
                        rest,
                        at,
                        part,
                        title,
                        color,
                        notes,
                        segments,
                        segments.len() as int,
                        path,
                    );
                },
            }
        },
    }
}

proof fn lemma_marks_free(depth: usize, marks: Seq<Mark>, next: u64, name: Seq<char>)
    requires
        is_of_the_device(name),
    ensures
        is_free_of(mark_events(depth, marks, next), name),
    decreases marks.len(),
{
    reveal_strlit("FloatEvent");
    if marks.len() > 0 {
        lemma_marks_free(depth, marks.drop_last(), next, name);
        let before = mark_events(depth, marks.drop_last(), next);
        let e = mark_events(depth, marks, next);
        assert forall|j: int| 0 <= j < e.len() implies !(#[trigger] e[j]).is_named(name) by {
            if j < before.len() {
                assert(e[j] == before[j]);
            }
        }
    }
}

proof fn lemma_envelope_free(
    marks: Seq<Mark>,
    pointee: Seq<char>,
    baseline: i64,
    next: u64,
    name: Seq<char>,
)
    requires
        is_of_the_device(name),
    ensures
        is_free_of(envelope_of(marks, pointee, baseline, next), name),
{
    reveal_strlit("AutomationEnvelope");
    reveal_strlit("EnvelopeTarget");
    reveal_strlit("PointeeId");
    reveal_strlit("Automation");
    reveal_strlit("Events");
    reveal_strlit("FloatEvent");
    reveal_strlit("AutomationTransformViewState");
    reveal_strlit("IsTransformPending");
    reveal_strlit("TimeAndValueTransforms");
    lemma_marks_free(3, marks, after(after(next)), name);
    let m = mark_events(3, marks, after(after(next)));
    let e = envelope_of(marks, pointee, baseline, next);
    assert forall|j: int| 0 <= j < e.len() implies !(#[trigger] e[j]).is_named(name) by {
        if 6 <= j < 6 + m.len() {
            assert(e[j] == m[j - 6]);
        }
    }
}

proof fn lemma_envelope_keeps(
    d: Doc,
    at: int,
    marks: Seq<Mark>,
    pointee: Seq<char>,
    baseline: i64,
    next: u64,
    path: Seq<char>,
)
    requires
        0 <= at < d.len(),
        d[at].depth < usize::MAX,
        d[0].depth == 0,
        is_track_path(path),
        find_in(d, 0, path) is Some,
    ensures
        says_the_same(d, with_envelope(d, at, marks, pointee, baseline, next), path),
        at < with_envelope(d, at, marks, pointee, baseline, next).len(),
        with_envelope(d, at, marks, pointee, baseline, next)[at] == d[at],
{
    if marks.len() > 0 {
        let part = envelope_of(marks, pointee, baseline, next);
        if is_deep(path) {
            lemma_envelope_free(marks, pointee, baseline, next, first_name(path));
        }
        law_paths_lead_past_new_parts(d, at, part, path);
        lemma_end(d, d[at].depth, at + 1);
    }
}

proof fn lemma_few_pieces(s: Seq<char>)
    ensures
        pieces(s).len() <= s.len() + 1,
    decreases s.len(),
{
    if s.len() > 0 {
        lemma_few_pieces(s.drop_last());
        lemma_pieces(s.drop_last());
    }
}

proof fn lemma_one_deeper(d: Doc, depth: usize, j: int, name: Seq<char>)
    requires
        0 <= j <= d.len(),
    ensures
        child_from(d, depth, j, name) matches Some(c) ==> d[c].depth == depth + 1,
    decreases d.len() - j,
{
    if j < d.len() && d[j].depth > depth && !(d[j].depth == depth + 1 && d[j].is_named(name)) {
        lemma_one_deeper(d, depth, j + 1, name);
    }
}

pub(crate) proof fn lemma_chain_depth(d: Doc, at: int, names: Seq<Seq<char>>)
    requires
        0 <= at < d.len(),
    ensures
        chain_of(d, at, names) matches Some(i) ==> d[i].depth == d[at].depth + names.len(),
    decreases names.len(),
{
    if names.len() > 0 {
        lemma_chain_depth(d, at, names.drop_last());
        lemma_chain(d, at, names.drop_last());
        match chain_of(d, at, names.drop_last()) {
            None => {},
            Some(q) => lemma_one_deeper(d, d[q].depth, q + 1, names.last()),
        }
    }
}

proof fn lemma_curves_keep(
    d: Doc,
    targets: Targets,
    notes: Seq<LiveNoteView>,
    panning: AmigaPanning,
    s: SampleView,
    next: u64,
    path: Seq<char>,
)
    requires
        d.len() > 0,
        d[0].depth == 0,
        is_track_path(path),
        find_in(d, 0, path) is Some,
    ensures
        with_curves(d, targets, notes, panning, s, next) matches Some((e, n)) ==> says_the_same(
            d,
            e,
            path,
        ),
{
    let envelopes = "./AutomationEnvelopes/Envelopes"@;
    lemma_find(d, 0, envelopes);
    match find_in(d, 0, envelopes) {
        None => {},
        Some(at) => {
            reveal_strlit("./AutomationEnvelopes/Envelopes");
            assert(is_direct(envelopes) && !is_deep(envelopes));
            lemma_few_pieces(envelopes.skip(2));
            lemma_chain_depth(d, 0, pieces(envelopes.skip(2)));
            let bends = bends_of(notes);
            let volumes = volumes_of(notes);
            let pans = pans_of(notes, panning, s);
            let full = fader_gain(crate::export::sampler::FULL_LEVEL as int);
            let d1 = with_envelope(d, at, bends, targets.pitch, 0, next);
            let next1 = crate::export::automation::next_behind_envelope(bends, next);
            let d2 = with_envelope(d1, at, volumes, targets.volume, full, next1);
            let next2 = crate::export::automation::next_behind_envelope(volumes, next1);
            lemma_envelope_keeps(d, at, bends, targets.pitch, 0, next, path);
            lemma_envelope_keeps(d1, at, volumes, targets.volume, full, next1, path);
            lemma_envelope_keeps(d2, at, pans, targets.pan, resting_pan(s), next2, path);
        },
    }
}

pub(crate) proof fn lemma_values_at_keep(
    d: Doc,
    list: Seq<int>,
    values: Seq<(Seq<char>, Seq<char>)>,
    path: Seq<char>,
    i: int,
    name: Seq<char>,
)
    requires
        forall|k: int| 0 <= k < list.len() ==> 0 <= #[trigger] list[k] < d.len(),
        0 <= i < d.len(),
        d[i].is_named(name),
        name.len() >= 2,
        path.len() >= 2,
        end_alike(name, path),
        end_otherwise(values, path),
    ensures
        with_values_at(d, list, values) matches Some(e) ==> same_shape(d, e) && e[i] == d[i],
    decreases list.len(),
{
    if list.len() > 0 {
        let rest = list.drop_last();
        assert forall|k: int| 0 <= k < rest.len() implies 0 <= #[trigger] rest[k] < d.len() by {
            assert(rest[k] == list[k]);
        }
        lemma_values_at_keep(d, rest, values, path, i, name);
        match with_values_at(d, rest, values) {
            None => {},
            Some(e) => {
                assert(list[list.len() - 1] < d.len());
                assert(e[i].is_named(name) == d[i].is_named(name));
                law_other_values_are_kept(e, list.last(), values, path, i, name);
                match with_values(e, list.last(), values) {
                    None => {},
                    Some(f) => lemma_shape_chain(d, e, f),
                }
            },
        }
    }
}

proof fn lemma_sample_keeps(d: Doc, s: SampleView, file: SampleFileView, path: Seq<char>)
    requires
        d.len() > 0,
        is_track_path(path),
        end_otherwise(file_values(wav_filename(s), file), path),
        end_otherwise(sample_values(s, file), path),
        find_in(d, 0, path) is Some,
    ensures
        with_sample(d, s, file) matches Some(e) ==> same_shape(d, e) && value_at(e, 0, path)
            == value_at(d, 0, path),
{
    let i = find_in(d, 0, path)->0;
    lemma_find(d, 0, path);
    let name = d[i].content->name;
    assert(d[i].is_named(name));
    lemma_leads_to_its_name(d, 0, path, i, name);
    lemma_find(d, 0, ".//MultiSamplePart"@);
    match find_in(d, 0, ".//MultiSamplePart"@) {
        None => {},
        Some(part) => {
            lemma_end(d, d[part].depth, part + 1);
            let list = named_up_to(d, part + 1, end_of(d, part), "FileRef"@);
            lemma_named_places(d, part + 1, end_of(d, part), "FileRef"@);
            let values = file_values(wav_filename(s), file);
            lemma_values_at_keep(d, list, values, path, i, name);
            match with_file(d, part, wav_filename(s), file) {
                None => {},
                Some(e) => {
                    assert(e[i].is_named(name) == d[i].is_named(name));
                    law_other_values_are_kept(e, 0, sample_values(s, file), path, i, name);
                    match with_values(e, 0, sample_values(s, file)) {
                        None => {},
                        Some(f) => {
                            lemma_shape_chain(d, e, f);
                            lemma_same_find(d, f, 0, path);
                        },
                    }
                },
            }
        },
    }
}

proof fn lemma_renumbered_shape(template: Doc, next: u64)
    requires
        template.len() > 0,
    ensures
        same_shape(
            template,
            renumbered(with_attribute(template, 0, "Id"@, decimal(next as int)), after(next)),
        ),
{
    let numbered = with_attribute(template, 0, "Id"@, decimal(next as int));
    let e = renumbered(numbered, after(next));
    let r = renumbering(numbered, after(next), numbered.len() as int);
    lemma_renumbering(numbered, after(next), numbered.len() as int);
    assert(same_shape(template, numbered));
    assert forall|i: int| 0 <= i < numbered.len() implies (#[trigger] numbered[i]).depth
        == e[i].depth by {
        assert(r.nodes[i].depth == numbered[i].depth);
    }
    assert forall|i: int, name: Seq<char>| 0 <= i < numbered.len() implies (
    #[trigger] numbered[i].is_named(name)) == e[i].is_named(name) by {
        assert(r.nodes[i].is_named(name) == numbered[i].is_named(name));
    }
    lemma_shape_chain(template, numbered, e);
}

proof fn lemma_same_past_clip(d: Doc, e: Doc, path: Seq<char>)
    requires
        d.len() > 0,
        same_shape(d, e),
        leads_past_the_clip(d, path),
    ensures
        leads_past_the_clip(e, path),
{
    lemma_same_find(d, e, 0, clips_path());
    lemma_same_find(d, e, 0, path);
    lemma_find(d, 0, clips_path());
    match find_in(d, 0, clips_path()) {
        None => {},
        Some(at) => {
            assert(d[at].depth == e[at].depth);
            crate::xmlutil::lemma_same_child(d, e, d[at].depth, at + 1, "MidiClip"@);
            lemma_child(d, d[at].depth, at + 1, "MidiClip"@);
            match child_of(d, at, "MidiClip"@) {
                None => {},
                Some(clip) => {
                    assert(d[clip].depth == e[clip].depth);
                    crate::export::unique::lemma_same_end(d, e, d[clip].depth, clip + 1);
                    lemma_end(d, d[clip].depth, clip + 1);
                    if is_deep(path) {
                        let name = first_name(path);
                        assert forall|j: int| clip <= j < end_of(e, clip) implies !(
                        #[trigger] e[j]).is_named(name) by {
                            assert(d[j].is_named(name) == e[j].is_named(name));
                        }
                    }
                },
            }
        },
    }
}

/// What the values of a track say at a path, its finished document says too: neither the file
/// reference nor the clips and envelopes that follow change it.
pub proof fn law_tracks_keep_their_values(
    template: Doc,
    s: SampleView,
    next: u64,
    file: SampleFileView,
    notes: Seq<LiveNoteView>,
    segments: Seq<Segment>,
    panning: AmigaPanning,
    voice: int,
    path: Seq<char>,
)
    requires
        is_tree(template),
        template.len() <= usize::MAX,
        is_track_path(path),
        leads_past_the_clip(template, path),
        end_otherwise(file_values(wav_filename(s), file), path),
        end_otherwise(sample_values(s, file), path),
        find_in(template, 0, path) is Some,
    ensures
        track_of(template, s, next, file, notes, segments, panning, voice) matches Some((e, _))
            ==> {
            let d0 = renumbered(
                with_attribute(template, 0, "Id"@, decimal(next as int)),
                after(next),
            );
            &&& same_shape(template, d0)
            &&& with_values(d0, 0, track_values(s, voice, offset_of(notes))) matches Some(d1)
                && value_at(e, 0, path) == value_at(d1, 0, path)
        },
{
    reveal(track_of);
    match track_of(template, s, next, file, notes, segments, panning, voice) {
        None => {},
        Some((e, n)) => {
            let numbered = with_attribute(template, 0, "Id"@, decimal(next as int));
            let d0 = renumbered(numbered, after(next));
            let values = track_values(s, voice, offset_of(notes));
            let d1 = with_values(d0, 0, values)->0;
            let d2 = with_sample(d1, s, file)->0;
            lemma_renumbered_shape(template, next);
            lemma_values_shape(d0, 0, values);
            lemma_shape_chain(template, d0, d1);
            lemma_same_find(template, d1, 0, path);
            lemma_sample_keeps(d1, s, file, path);
            lemma_shape_chain(template, d1, d2);
            lemma_same_find(template, d2, 0, path);
            lemma_same_past_clip(template, d2, path);
            assert forall|j: int| 0 <= j < d2.len() implies (#[trigger] d2[j]).depth
                < usize::MAX by {
                assert(template[j].depth == d2[j].depth);
                lemma_tree_depth(template, j);
            }
            assert(template[0].depth == d2[0].depth);
            let title = track_name(s, voice);
            lemma_arrangement_keeps(d2, title, color_of(s), notes, segments, path);
            let d3 = with_arrangement(d2, title, color_of(s), notes, segments)->0;
            let targets = Targets {
                pitch: crate::export::sampler::target_of(
                    d1,
                    ".//MultiSampler/Pitch/TransposeKey/AutomationTarget"@,
                )->0,
                volume: crate::export::sampler::target_of(
                    d1,
                    "./DeviceChain/Mixer/Volume/AutomationTarget"@,
                )->0,
                pan: crate::export::sampler::target_of(
                    d1,
                    ".//MultiSampler/VolumeAndPan/Panorama/AutomationTarget"@,
                )->0,
            };
            let next0 = next_after(numbered, after(next));
            lemma_curves_keep(d3, targets, notes, panning, s, next0, path);
        },
    }
}

proof fn lemma_first_piece(s: Seq<char>)
    requires
        s.len() >= 2,
        s[0] != '/',
        s[1] != '/',
    ensures
        pieces(s)[0].len() >= 2,
        pieces(s)[0][0] == s[0],
        pieces(s)[0][1] == s[1],
    decreases s.len(),
{
    let t = s.drop_last();
    lemma_pieces(t);
    if s.len() > 2 {
        lemma_first_piece(t);
    } else {
        let u = t.drop_last();
        assert(pieces(u) =~= seq![Seq::<char>::empty()]);
        let first = Seq::<char>::empty().push(s[0]);
        assert(t.last() == s[0]);
        assert(pieces(t) =~= seq![first]);
        assert(s.last() == s[1]);
        assert(pieces(s) =~= seq![first.push(s[1])]);
    }
}

/// A path that begins with what is inside of a sampler, wherever that is.
proof fn lemma_device_path(path: Seq<char>)
    requires
        ends_in_name(path),
        is_deep(path) ==> path.len() >= 5 && path[3] == 'M' && path[4] == 'u',
    ensures
        is_track_path(path),
{
    if is_deep(path) {
        lemma_first_piece(path.skip(3));
    }
}

proof fn lemma_values_are_there(d: Doc, at: int, list: Seq<(Seq<char>, Seq<char>)>, k: int)
    requires
        0 <= at < d.len(),
        with_values(d, at, list) is Some,
        0 <= k < list.len(),
    ensures
        find_in(d, at, list[k].0) is Some,
    decreases list.len(),
{
    let rest = list.drop_last();
    let e = with_values(d, at, rest)->0;
    lemma_values_shape(d, at, rest);
    if k < rest.len() {
        lemma_values_are_there(d, at, rest, k);
        assert(rest[k] == list[k]);
    } else {
        lemma_same_find(d, e, at, list[k].0);
    }
}

/// The last value at a path counts, where those behind it are at paths that end otherwise.
proof fn lemma_last_value_counts(d: Doc, at: int, list: Seq<(Seq<char>, Seq<char>)>, k: int)
    requires
        0 <= at < d.len(),
        0 <= k < list.len(),
        ends_in_name(list[k].0),
        forall|j: int|
            k < j < list.len() ==> ends_in_name((#[trigger] list[j]).0) && !end_alike(
                list[j].0,
                list[k].0,
            ),
    ensures
        with_values(d, at, list) matches Some(e) ==> value_at(e, at, list[k].0) == Some(list[k].1),
    decreases list.len(),
{
    let rest = list.drop_last();
    match with_values(d, at, rest) {
        None => {},
        Some(e) => {
            let path = list[k].0;
            let last = list[list.len() - 1];
            lemma_values_shape(d, at, rest);
            lemma_find(e, at, last.0);
            lemma_find(e, at, path);
            match with_value(e, at, last.0, last.1) {
                None => {},
                Some(f) => {
                    assert(same_shape(e, f));
                    lemma_same_find(e, f, at, path);
                    if k < rest.len() {
                        assert forall|j: int| k < j < rest.len() implies ends_in_name(
                            (#[trigger] rest[j]).0,
                        ) && !end_alike(rest[j].0, rest[k].0) by {
                            assert(rest[j] == list[j]);
                        }
                        lemma_last_value_counts(d, at, rest, k);
                        let i = find_in(e, at, path)->0;
                        let name = e[i].content->name;
                        assert(e[i].is_named(name));
                        lemma_leads_to_its_name(e, at, path, i, name);
                        if find_in(e, at, last.0) == Some(i) {
                            lemma_leads_to_its_name(e, at, last.0, i, name);
                        }
                    }
                },
            }
        },
    }
}

proof fn lemma_file_ends(name: Seq<char>, s: SampleView, file: SampleFileView, path: Seq<char>)
    requires
        path.len() >= 5,
        ({
            let (a, b) = (path[path.len() - 2], path[path.len() - 1]);
            &&& b == 'e' ==> a != 'p' && a != 'm' && a != 'z' && a != 't'
            &&& b != 'h' && b != 'c' && b != 'p'
            &&& b == 'd' ==> a != 'I'
            &&& b == 'n' ==> a != 'o'
        }),
    ensures
        end_otherwise(file_values(name, file), path),
        end_otherwise(sample_values(s, file), path),
{
    reveal_strlit("./RelativePathType");
    reveal_strlit("./RelativePath");
    reveal_strlit("./Path");
    reveal_strlit("./Type");
    reveal_strlit("./LivePackName");
    reveal_strlit("./LivePackId");
    reveal_strlit("./OriginalFileSize");
    reveal_strlit("./OriginalCrc");
    reveal_strlit(".//MultiSamplePart/SampleRef/LastModDate");
    reveal_strlit(".//MultiSamplePart/SampleRef/DefaultDuration");
    reveal_strlit(".//MultiSamplePart/SampleRef/DefaultSampleRate");
    reveal_strlit(".//MultiSamplePart/SampleRef/SamplesToAutoWarp");
}

proof fn lemma_track_has_values(
    template: Doc,
    s: SampleView,
    next: u64,
    file: SampleFileView,
    notes: Seq<LiveNoteView>,
    segments: Seq<Segment>,
    panning: AmigaPanning,
    voice: int,
)
    requires
        track_of(template, s, next, file, notes, segments, panning, voice) is Some,
    ensures
        with_values(
            renumbered(with_attribute(template, 0, "Id"@, decimal(next as int)), after(next)),
            0,
            track_values(s, voice, offset_of(notes)),
        ) is Some,
{
    reveal(track_of);
}

/// In the track of a voice, the sampler plays its sample round where the sample has a loop, and
/// through to its end where it has none.
pub proof fn law_track_loops_are_switched(
    template: Doc,
    s: SampleView,
    next: u64,
    file: SampleFileView,
    notes: Seq<LiveNoteView>,
    segments: Seq<Segment>,
    panning: AmigaPanning,
    voice: int,
)
    requires
        is_tree(template),
        template.len() <= usize::MAX,
        leads_past_the_clip(template, ".//MultiSamplePart/SustainLoop/Mode"@),
    ensures
        track_of(template, s, next, file, notes, segments, panning, voice) matches Some((e, _))
            ==> value_at(e, 0, ".//MultiSamplePart/SustainLoop/Mode"@) == Some(
            if s.loop_length > 0 {
                "1"@
            } else {
                "0"@
            },
        ),
{
    let path = ".//MultiSamplePart/SustainLoop/Mode"@;
    reveal_strlit(".//MultiSamplePart/SustainLoop/Mode");
    reveal_strlit(".//MultiSamplePart/ReleaseLoop/Start");
    reveal_strlit(".//MultiSamplePart/ReleaseLoop/End");
    lemma_device_path(path);
    lemma_file_ends(wav_filename(s), s, file, path);
    match track_of(template, s, next, file, notes, segments, panning, voice) {
        None => {},
        Some(_) => {
            lemma_track_has_values(template, s, next, file, notes, segments, panning, voice);
            let d0 = renumbered(
                with_attribute(template, 0, "Id"@, decimal(next as int)),
                after(next),
            );
            let list = track_values(s, voice, offset_of(notes));
            lemma_renumbered_shape(template, next);
            lemma_values_are_there(d0, 0, list, 22);
            lemma_same_find(template, d0, 0, path);
            lemma_last_value_counts(d0, 0, list, 22);
            law_tracks_keep_their_values(
                template,
                s,
                next,
                file,
                notes,
                segments,
                panning,
                voice,
                path,
            );
        },
    }
}

/// The places of a sampler that its sample is set at.
pub open spec fn part_paths() -> Seq<Seq<char>> {
    seq![
        ".//MultiSamplePart/RootKey"@,
        ".//MultiSamplePart/SampleStart"@,
        ".//MultiSamplePart/SampleEnd"@,
        ".//MultiSamplePart/SustainLoop/Start"@,
        ".//MultiSamplePart/SustainLoop/End"@,
        ".//MultiSamplePart/ReleaseLoop/Start"@,
        ".//MultiSamplePart/ReleaseLoop/End"@,
    ]
}

proof fn lemma_part_paths(name: Seq<char>, s: SampleView, file: SampleFileView)
    ensures
        forall|k: int|
            0 <= k < part_paths().len() ==> is_track_path(#[trigger] part_paths()[k])
                && end_otherwise(file_values(name, file), part_paths()[k]) && end_otherwise(
                sample_values(s, file),
                part_paths()[k],
            ),
{
    reveal_strlit(".//MultiSamplePart/RootKey");
    reveal_strlit(".//MultiSamplePart/SampleStart");
    reveal_strlit(".//MultiSamplePart/SampleEnd");
    reveal_strlit(".//MultiSamplePart/SustainLoop/Start");
    reveal_strlit(".//MultiSamplePart/SustainLoop/End");
    reveal_strlit(".//MultiSamplePart/ReleaseLoop/Start");
    reveal_strlit(".//MultiSamplePart/ReleaseLoop/End");
    assert forall|k: int| 0 <= k < part_paths().len() implies is_track_path(
        #[trigger] part_paths()[k],
    ) && end_otherwise(file_values(name, file), part_paths()[k]) && end_otherwise(
        sample_values(s, file),
        part_paths()[k],
    ) by {
        assert(k == 0 || k == 1 || k == 2 || k == 3 || k == 4 || k == 5 || k == 6);
        lemma_device_path(part_paths()[k]);
        lemma_file_ends(name, s, file, part_paths()[k]);
    }
}

pub(crate) proof fn lemma_still_apart(d: Doc, e: Doc, paths: Seq<Seq<char>>)
    requires
        d.len() > 0,
        same_shape(d, e),
        lead_apart(d, 0, paths),
    ensures
        lead_apart(e, 0, paths),
{
    assert forall|i: int, j: int| 0 <= i < j < paths.len() implies find_in(
        e,
        0,
        #[trigger] paths[i],
    ) != find_in(e, 0, #[trigger] paths[j]) by {
        lemma_same_find(d, e, 0, paths[i]);
        lemma_same_find(d, e, 0, paths[j]);
    }
}

proof fn lemma_part_value(
    template: Doc,
    s: SampleView,
    next: u64,
    file: SampleFileView,
    notes: Seq<LiveNoteView>,
    segments: Seq<Segment>,
    panning: AmigaPanning,
    voice: int,
    k: int,
)
    requires
        is_tree(template),
        template.len() <= usize::MAX,
        0 <= k < part_paths().len(),
        leads_past_the_clip(template, part_paths()[k]),
        track_of(template, s, next, file, notes, segments, panning, voice) is Some,
    ensures
        ({
            let d0 = renumbered(
                with_attribute(template, 0, "Id"@, decimal(next as int)),
                after(next),
            );
            let d1 = with_values(d0, 0, track_values(s, voice, offset_of(notes)));
            let (e, _) = track_of(template, s, next, file, notes, segments, panning, voice)->0;
            d1 is Some && value_at(e, 0, part_paths()[k]) == value_at(d1->0, 0, part_paths()[k])
        }),
{
    lemma_track_has_values(template, s, next, file, notes, segments, panning, voice);
    let d0 = renumbered(with_attribute(template, 0, "Id"@, decimal(next as int)), after(next));
    let list = track_values(s, voice, offset_of(notes));
    let path = part_paths()[k];
    let place = if k < 5 {
        17 + k
    } else {
        18 + k
    };
    assert(k == 0 || k == 1 || k == 2 || k == 3 || k == 4 || k == 5 || k == 6);
    assert(list[place].0 == path);
    lemma_renumbered_shape(template, next);
    lemma_values_are_there(d0, 0, list, place);
    lemma_same_find(template, d0, 0, path);
    lemma_part_paths(wav_filename(s), s, file);
    law_tracks_keep_their_values(template, s, next, file, notes, segments, panning, voice, path);
}

/// In the track of a voice, the sampler plays its sample at the sample's own key from the frame
/// that its notes begin with, up to the last one, and loops from where the sample's loop begins to
/// where it ends.
#[verifier::rlimit(80)]
pub proof fn law_track_samples_are_set(
    template: Doc,
    s: SampleView,
    next: u64,
    file: SampleFileView,
    notes: Seq<LiveNoteView>,
    segments: Seq<Segment>,
    panning: AmigaPanning,
    voice: int,
)
    requires
        is_tree(template),
        template.len() <= usize::MAX,
        lead_apart(template, 0, sampler_paths()),
        forall|k: int|
            0 <= k < part_paths().len() ==> leads_past_the_clip(
                template,
                #[trigger] part_paths()[k],
            ),
        s.loop_start + s.loop_length <= u32::MAX,
        2 <= s.pcm16.len() < 0x1_0000_0000,
    ensures
        track_of(template, s, next, file, notes, segments, panning, voice) matches Some((e, _))
            ==> {
            let frames = s.pcm16.len() / 2;
            &&& value_at(e, 0, ".//MultiSamplePart/RootKey"@) == Some(decimal(s.base_note as int))
            &&& notes.len() > 0 ==> value_at(e, 0, ".//MultiSamplePart/SampleStart"@) == Some(
                decimal(notes[0].sample_offset_frames as int),
            )
            &&& value_at(e, 0, ".//MultiSamplePart/SampleEnd"@) == Some(decimal(frames - 1))
            &&& s.loop_length > 0 ==> {
                &&& value_at(e, 0, ".//MultiSamplePart/SustainLoop/Start"@) == Some(
                    decimal(s.loop_start as int),
                )
                &&& value_at(e, 0, ".//MultiSamplePart/SustainLoop/End"@) == Some(
                    decimal(s.loop_start + s.loop_length - 1),
                )
                &&& value_at(e, 0, ".//MultiSamplePart/ReleaseLoop/Start"@) == Some(
                    decimal(s.loop_start as int),
                )
                &&& value_at(e, 0, ".//MultiSamplePart/ReleaseLoop/End"@) == Some(
                    decimal(s.loop_start + s.loop_length - 1),
                )
            }
            &&& s.loop_length == 0 ==> {
                &&& value_at(e, 0, ".//MultiSamplePart/SustainLoop/Start"@) == Some(decimal(0))
                &&& value_at(e, 0, ".//MultiSamplePart/SustainLoop/End"@) == Some(
                    decimal(frames - 1),
                )
            }
        },
{
    match track_of(template, s, next, file, notes, segments, panning, voice) {
        None => {},
        Some((e, _)) => {
            lemma_track_has_values(template, s, next, file, notes, segments, panning, voice);
            let d0 = renumbered(
                with_attribute(template, 0, "Id"@, decimal(next as int)),
                after(next),
            );
            let offset = offset_of(notes);
            lemma_renumbered_shape(template, next);
            lemma_still_apart(template, d0, sampler_paths());
            law_loops_are_looped(d0, s, voice, offset);
            lemma_part_value(template, s, next, file, notes, segments, panning, voice, 0);
            lemma_part_value(template, s, next, file, notes, segments, panning, voice, 1);
            lemma_part_value(template, s, next, file, notes, segments, panning, voice, 2);
            lemma_part_value(template, s, next, file, notes, segments, panning, voice, 3);
            lemma_part_value(template, s, next, file, notes, segments, panning, voice, 4);
            lemma_part_value(template, s, next, file, notes, segments, panning, voice, 5);
            lemma_part_value(template, s, next, file, notes, segments, panning, voice, 6);
        },
    }
}

} // verus!
