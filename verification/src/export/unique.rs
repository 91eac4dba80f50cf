//! That no identity is given twice in a set.
//!
//! Tracks are made one after the other, and each takes its identities from where the one before
//! left off. What is said here holds of the global ones: the identities of a clip and of its key
//! tracks are local indices.
use crate::export::als::{
    finished_track, first_free, return_tracks, set_of, tempo_points, tempo_text, timed,
    tracks_up_to, with_new_points, with_new_points_in, with_parts, with_points, with_sample_tracks,
    with_shown_tempo, with_tempo, with_tracks, with_voices, Plan, Progress, TimedText,
};
use crate::export::automation::{
    after_n, envelope_next, envelope_of, float_event, mark_events, next_behind_envelope,
    number_text, with_envelope, Mark,
};
use crate::export::clip::{
    clip_of, clip_values, first_note, key_track, law_key_tracks_by_pitch, note_nodes, notes_at,
    pitches_of, with_key_tracks, ClippedNote,
};
use crate::export::curves::{fader_gain, AmigaPanning, LiveNoteView};
use crate::export::ids::{
    after, has_global_id, is_global_id, largest_id, law_decimal_reads_back, law_largest_id_bounds,
    lemma_renumbering, next_after, number, renumbered, renumbering, LOCAL_ID_THRESHOLD,
};
use crate::export::notes::NoteEventView;
use crate::export::sampler::{
    bends_of, clips_path, color_of, file_values, group_of, group_values, loopable, notes_in,
    offset_of, pans_of, resting_pan, row_micros, sample_values, target_of, track_name, track_of,
    track_values, voice_count, voice_notes, volumes_of, with_arrangement, with_clips, with_curves,
    with_file, with_sample, with_values_at, SampleFileView, Targets, FULL_LEVEL,
};
use crate::export::tempo::{Segment, TempoChange};
use crate::export::wav::wav_filename;
use crate::formats::base::SampleView;
use crate::text::decimal;
use crate::xmlutil::{
    child_of, children_named, children_up_to, deeper, end_from, end_of, find_in, lemma_child,
    lemma_end, lemma_find, lemma_same_child, lemma_same_find, lowered, named_up_to, part_at,
    same_shape, with_attribute, with_child, with_value, with_values, without, without_children, Doc,
    NodeView,
};
use vstd::prelude::*;

verus! {

/// The identity of a node.
pub open spec fn id_of(n: NodeView) -> int {
    number(n.attribute("Id"@)->0)
}

/// The global identities of a document lie in a range.
pub open spec fn ids_within(d: Doc, from: int, to: int) -> bool {
    forall|i: int| 0 <= i < d.len() && has_global_id(#[trigger] d[i]) ==> from <= id_of(d[i]) < to
}

/// No two nodes of a document have the same global identity.
pub open spec fn ids_differ(d: Doc) -> bool {
    forall|i: int, j: int|
        0 <= i < j < d.len() && has_global_id(#[trigger] d[i]) && has_global_id(#[trigger] d[j])
            ==> id_of(d[i]) != id_of(d[j])
}

/// The two documents have no global identity in common.
pub open spec fn ids_apart(d: Doc, e: Doc) -> bool {
    forall|i: int, j: int|
        0 <= i < d.len() && 0 <= j < e.len() && has_global_id(#[trigger] d[i]) && has_global_id(
            #[trigger] e[j],
        ) ==> id_of(d[i]) != id_of(e[j])
}

/// No two nodes of the documents taken together have the same global identity.
pub open spec fn all_differ(docs: Seq<Doc>) -> bool {
    &&& forall|a: int| 0 <= a < docs.len() ==> ids_differ(#[trigger] docs[a])
    &&& forall|a: int, b: int|
        0 <= a < b < docs.len() ==> ids_apart(#[trigger] docs[a], #[trigger] docs[b])
}

/// The global identities of the documents lie in a range.
pub open spec fn all_within(docs: Seq<Doc>, from: int, to: int) -> bool {
    forall|a: int| 0 <= a < docs.len() ==> ids_within(#[trigger] docs[a], from, to)
}

/// The global identities of a document lie in a range, and no two of them are the same.
pub open spec fn unique_in(d: Doc, from: int, to: int) -> bool {
    ids_within(d, from, to) && ids_differ(d)
}

/// The two documents have the same identities in the same places.
pub open spec fn same_ids(d: Doc, e: Doc) -> bool {
    &&& d.len() == e.len()
    &&& forall|i: int|
        0 <= i < d.len() ==> (#[trigger] d[i]).attribute("Id"@) == e[i].attribute("Id"@)
}

pub(crate) proof fn lemma_names()
    ensures
        "Id"@ != "Value"@,
        "Id"@ != "Time"@,
{
    reveal_strlit("Id");
    reveal_strlit("Value");
    reveal_strlit("Time");
    assert("Id"@.len() != "Value"@.len());
    assert("Id"@.len() != "Time"@.len());
}

pub(crate) proof fn lemma_same_ids(d: Doc, e: Doc, from: int, to: int)
    requires
        same_ids(d, e),
        unique_in(d, from, to),
    ensures
        unique_in(e, from, to),
{
    assert forall|i: int| 0 <= i < e.len() && has_global_id(#[trigger] e[i]) implies from <= id_of(
        e[i],
    ) < to by {
        assert(d[i].attribute("Id"@) == e[i].attribute("Id"@));
    }
    assert forall|i: int, j: int|
        0 <= i < j < e.len() && has_global_id(#[trigger] e[i]) && has_global_id(
            #[trigger] e[j],
        ) implies id_of(e[i]) != id_of(e[j]) by {
        assert(d[i].attribute("Id"@) == e[i].attribute("Id"@));
        assert(d[j].attribute("Id"@) == e[j].attribute("Id"@));
    }
}

pub(crate) proof fn lemma_attribute_ids(d: Doc, at: int, key: Seq<char>, value: Seq<char>)
    requires
        0 <= at < d.len(),
        key != "Id"@,
    ensures
        same_ids(d, with_attribute(d, at, key, value)),
        same_shape(d, with_attribute(d, at, key, value)),
{
}

pub(crate) proof fn lemma_value_ids(d: Doc, at: int, path: Seq<char>, value: Seq<char>)
    requires
        0 <= at < d.len(),
    ensures
        with_value(d, at, path, value) matches Some(e) ==> same_ids(d, e) && same_shape(d, e),
{
    lemma_names();
    lemma_find(d, at, path);
    match find_in(d, at, path) {
        Some(i) => lemma_attribute_ids(d, i, "Value"@, value),
        None => {},
    }
}

pub(crate) proof fn lemma_values_ids(d: Doc, at: int, list: Seq<(Seq<char>, Seq<char>)>)
    requires
        0 <= at < d.len(),
    ensures
        with_values(d, at, list) matches Some(e) ==> same_ids(d, e) && same_shape(d, e),
    decreases list.len(),
{
    if list.len() > 0 {
        lemma_values_ids(d, at, list.drop_last());
        match with_values(d, at, list.drop_last()) {
            Some(e) => {
                lemma_value_ids(e, at, list.last().0, list.last().1);
                match with_value(e, at, list.last().0, list.last().1) {
                    Some(f) => lemma_shapes(d, e, f),
                    None => {},
                }
            },
            None => {},
        }
    }
}

pub(crate) proof fn lemma_shapes(d: Doc, e: Doc, f: Doc)
    requires
        same_ids(d, e) && same_shape(d, e),
        same_ids(e, f) && same_shape(e, f),
    ensures
        same_ids(d, f) && same_shape(d, f),
{
    assert forall|i: int| 0 <= i < d.len() implies (#[trigger] d[i]).attribute("Id"@)
        == f[i].attribute("Id"@) && d[i].depth == f[i].depth by {
        assert(d[i].attribute("Id"@) == e[i].attribute("Id"@));
        assert(e[i].attribute("Id"@) == f[i].attribute("Id"@));
        assert(e[i].depth == f[i].depth);
    }
    assert forall|i: int, name: Seq<char>| 0 <= i < d.len() implies (#[trigger] d[i].is_named(name))
        == f[i].is_named(name) by {
        assert(d[i].is_named(name) == e[i].is_named(name));
        assert(e[i].is_named(name) == f[i].is_named(name));
    }
}

/// What is taken from a document, place by place in its order, has no identity twice either.
proof fn lemma_taken(d: Doc, e: Doc, places: spec_fn(int) -> int, from: int, to: int)
    requires
        unique_in(d, from, to),
        forall|i: int| 0 <= i < e.len() ==> 0 <= #[trigger] places(i) < d.len(),
        forall|i: int|
            0 <= i < e.len() ==> (#[trigger] e[i]).attribute("Id"@) == d[places(i)].attribute("Id"@),
        forall|i: int, j: int| 0 <= i < j < e.len() ==> #[trigger] places(i) < #[trigger] places(j),
    ensures
        unique_in(e, from, to),
{
    assert forall|i: int| 0 <= i < e.len() && has_global_id(#[trigger] e[i]) implies from <= id_of(
        e[i],
    ) < to by {
        assert(has_global_id(d[places(i)]));
    }
    assert forall|i: int, j: int|
        0 <= i < j < e.len() && has_global_id(#[trigger] e[i]) && has_global_id(
            #[trigger] e[j],
        ) implies id_of(e[i]) != id_of(e[j]) by {
        assert(places(i) < places(j));
        assert(has_global_id(d[places(i)]) && has_global_id(d[places(j)]));
    }
}

pub(crate) proof fn lemma_without_ids(d: Doc, at: int, from: int, to: int)
    requires
        0 <= at < d.len(),
        unique_in(d, from, to),
    ensures
        unique_in(without(d, at), from, to),
        unique_in(without_children(d, at), from, to),
{
    lemma_end(d, d[at].depth, at + 1);
    let end = end_of(d, at);
    lemma_taken(
        d,
        without(d, at),
        |i: int|
            if i < at {
                i
            } else {
                i - at + end
            },
        from,
        to,
    );
    lemma_taken(
        d,
        without_children(d, at),
        |i: int|
            if i <= at {
                i
            } else {
                i - at - 1 + end
            },
        from,
        to,
    );
}

/// A part put into a document, whose identities follow upon those of the document.
pub(crate) proof fn lemma_child_ids(d: Doc, at: int, part: Doc, from: int, middle: int, to: int)
    requires
        0 <= at < d.len(),
        from <= middle <= to,
        unique_in(d, from, middle),
        unique_in(part, middle, to),
    ensures
        unique_in(with_child(d, at, part), from, to),
{
    lemma_end(d, d[at].depth, at + 1);
    let end = end_of(d, at);
    let e = with_child(d, at, part);
    let low = lowered(part, deeper(d[at].depth, 1));
    let n = part.len() as int;
    assert(e.len() == d.len() + n);
    assert forall|i: int| 0 <= i < e.len() implies #[trigger] e[i].attribute("Id"@) == (if i < end {
        d[i].attribute("Id"@)
    } else if i < end + n {
        part[i - end].attribute("Id"@)
    } else {
        d[i - n].attribute("Id"@)
    }) by {
        if end <= i < end + n {
            assert(e[i] == low[i - end]);
        }
    }
    assert forall|i: int| 0 <= i < e.len() && has_global_id(#[trigger] e[i]) implies from <= id_of(
        e[i],
    ) < to by {
        if i < end {
            assert(has_global_id(d[i]));
        } else if i < end + n {
            assert(has_global_id(part[i - end]));
        } else {
            assert(has_global_id(d[i - n]));
        }
    }
    assert forall|i: int, j: int|
        0 <= i < j < e.len() && has_global_id(#[trigger] e[i]) && has_global_id(
            #[trigger] e[j],
        ) implies id_of(e[i]) != id_of(e[j]) by {
        let in_part = |k: int| end <= k < end + n;
        let place = |k: int|
            if k < end {
                k
            } else {
                k - n
            };
        if in_part(i) {
            assert(has_global_id(part[i - end]));
        } else {
            assert(has_global_id(d[place(i)]));
        }
        if in_part(j) {
            assert(has_global_id(part[j - end]));
        } else {
            assert(has_global_id(d[place(j)]));
        }
    }
}

proof fn lemma_renumbering_unique(d: Doc, next: u64, k: int)
    requires
        0 <= k <= d.len(),
        renumbering(d, next, k).next <= i64::MAX,
    ensures
        next <= renumbering(d, next, k).next,
        renumbering(d, next, k).nodes.len() == k,
        forall|i: int|
            1 <= i < k && has_global_id(#[trigger] renumbering(d, next, k).nodes[i]) ==> next
                <= id_of(renumbering(d, next, k).nodes[i]) < renumbering(d, next, k).next
                && has_global_id(d[i]),
        forall|i: int, j: int|
            1 <= i < j < k && has_global_id(#[trigger] renumbering(d, next, k).nodes[i])
                && has_global_id(#[trigger] renumbering(d, next, k).nodes[j]) ==> id_of(
                renumbering(d, next, k).nodes[i],
            ) != id_of(renumbering(d, next, k).nodes[j]),
        k > 0 ==> renumbering(d, next, k).nodes[0] == d[0],
    decreases k,
{
    if k > 1 {
        lemma_renumbering_unique(d, next, k - 1);
        let p = renumbering(d, next, k - 1);
        let r = renumbering(d, next, k);
        law_decimal_reads_back(p.next as int);
        assert(r.nodes =~= p.nodes.push(r.nodes.last()));
        assert forall|i: int| 1 <= i < k && has_global_id(#[trigger] r.nodes[i]) implies next
            <= id_of(r.nodes[i]) < r.next && has_global_id(d[i]) by {
            if i < k - 1 {
                assert(r.nodes[i] == p.nodes[i]);
            }
        }
        assert forall|i: int, j: int|
            1 <= i < j < k && has_global_id(#[trigger] r.nodes[i]) && has_global_id(
                #[trigger] r.nodes[j],
            ) implies id_of(r.nodes[i]) != id_of(r.nodes[j]) by {
            assert(r.nodes[i] == p.nodes[i]);
            if j < k - 1 {
                assert(r.nodes[j] == p.nodes[j]);
            }
        }
    }
}

/// A copy of a track with a number of its own and new ones below it.
pub(crate) proof fn lemma_numbered(template: Doc, next: u64)
    requires
        template.len() > 0,
        template[0].content is Element,
        next_after(with_attribute(template, 0, "Id"@, decimal(next as int)), after(next))
            <= i64::MAX,
    ensures
        ({
            let numbered = with_attribute(template, 0, "Id"@, decimal(next as int));
            let d = renumbered(numbered, after(next));
            &&& next < next_after(numbered, after(next))
            &&& unique_in(d, next as int, next_after(numbered, after(next)) as int)
            &&& same_shape(template, d)
            &&& forall|k: int|
                1 <= k < d.len() && has_global_id(#[trigger] d[k]) ==> has_global_id(template[k])
        }),
{
    let numbered = with_attribute(template, 0, "Id"@, decimal(next as int));
    let n = template.len() as int;
    let r = renumbering(numbered, after(next), n);
    let d = renumbered(numbered, after(next));
    lemma_names();
    lemma_renumbering_unique(numbered, after(next), n);
    lemma_renumbering(numbered, after(next), n);
    law_decimal_reads_back(next as int);
    assert(d.len() == n);
    assert forall|k: int| 0 <= k < n implies (#[trigger] d[k]).attribute("Id"@)
        == r.nodes[k].attribute("Id"@) && d[k].depth == template[k].depth by {
        assert(r.nodes[k].depth == numbered[k].depth);
    }
    assert forall|k: int, name: Seq<char>| 0 <= k < n implies (#[trigger] template[k].is_named(
        name,
    )) == d[k].is_named(name) by {
        assert(r.nodes[k].is_named(name) == numbered[k].is_named(name));
    }
    assert(r.nodes[0] == numbered[0]);
    assert(d[0].attribute("Id"@) == Some(decimal(next as int)));
    assert forall|k: int| 0 <= k < n && has_global_id(#[trigger] d[k]) implies next <= id_of(d[k])
        < r.next && (k > 0 ==> has_global_id(template[k])) by {
        assert(has_global_id(r.nodes[k]));
        if k > 0 {
            assert(numbered[k] == template[k]);
        }
    }
    assert forall|i: int, j: int|
        0 <= i < j < n && has_global_id(#[trigger] d[i]) && has_global_id(
            #[trigger] d[j],
        ) implies id_of(d[i]) != id_of(d[j]) by {
        assert(has_global_id(r.nodes[i]) && has_global_id(r.nodes[j]));
    }
}

proof fn lemma_after_n(next: u64, n: int)
    requires
        0 <= n,
        after_n(next, n) <= i64::MAX,
    ensures
        after_n(next, n) == next + n,
    decreases n,
{
    if n > 0 {
        lemma_after_n(next, n - 1);
    }
}

proof fn lemma_marks_unique(depth: usize, marks: Seq<Mark>, next: u64)
    requires
        after_n(next, marks.len() as int) <= i64::MAX,
    ensures
        unique_in(mark_events(depth, marks, next), next as int, next + marks.len()),
        mark_events(depth, marks, next).len() == marks.len(),
    decreases marks.len(),
{
    lemma_names();
    if marks.len() > 0 {
        let n = marks.len() - 1;
        lemma_after_n(next, n + 1);
        lemma_marks_unique(depth, marks.drop_last(), next);
        lemma_after_n(next, n);
        law_decimal_reads_back(next + n);
        let before = mark_events(depth, marks.drop_last(), next);
        let all = mark_events(depth, marks, next);
        assert(all[n].attribute("Id"@) == Some(decimal(next + n)));
        assert forall|i: int| 0 <= i < all.len() && has_global_id(#[trigger] all[i]) implies next
            <= id_of(all[i]) < next + marks.len() by {
            if i < n {
                assert(all[i] == before[i]);
            }
        }
        assert forall|i: int, j: int|
            0 <= i < j < all.len() && has_global_id(#[trigger] all[i]) && has_global_id(
                #[trigger] all[j],
            ) implies id_of(all[i]) != id_of(all[j]) by {
            assert(all[i] == before[i]);
            if j < n {
                assert(all[j] == before[j]);
            }
        }
    }
}

proof fn lemma_envelope_unique(marks: Seq<Mark>, pointee: Seq<char>, baseline: i64, next: u64)
    requires
        envelope_next(marks, next) <= i64::MAX,
    ensures
        unique_in(
            envelope_of(marks, pointee, baseline, next),
            next as int,
            envelope_next(marks, next) as int,
        ),
        next < envelope_next(marks, next),
{
    lemma_names();
    let n = marks.len() as int;
    let base = after(after(next));
    lemma_after_n(base, n);
    assert(base == next + 2);
    lemma_marks_unique(3, marks, base);
    law_decimal_reads_back(next as int);
    law_decimal_reads_back(next + 1);
    let events = mark_events(3, marks, base);
    let e = envelope_of(marks, pointee, baseline, next);
    assert(e.len() == n + 9);
    assert(e[0].attribute("Id"@) == Some(decimal(next as int)));
    assert(e[5].attribute("Id"@) == Some(decimal(next + 1)));
    assert forall|i: int| 0 <= i < e.len() && i != 0 && i != 5 && !(6 <= i < 6 + n) implies (
    #[trigger] e[i]).attribute("Id"@) is None by {
        assert(i == 1 || i == 2 || i == 3 || i == 4 || i == 6 + n || i == 7 + n || i == 8 + n);
    }
    assert forall|i: int| 6 <= i < 6 + n implies #[trigger] e[i] == events[i - 6] by {}
    assert forall|i: int| 0 <= i < e.len() && has_global_id(#[trigger] e[i]) implies next <= id_of(
        e[i],
    ) < next + 2 + n by {
        if 6 <= i < 6 + n {
            assert(has_global_id(events[i - 6]));
        }
    }
    assert forall|i: int, j: int|
        0 <= i < j < e.len() && has_global_id(#[trigger] e[i]) && has_global_id(
            #[trigger] e[j],
        ) implies id_of(e[i]) != id_of(e[j]) by {
        if 6 <= j < 6 + n {
            assert(has_global_id(events[j - 6]));
            if 6 <= i {
                assert(has_global_id(events[i - 6]));
            }
        }
    }
}

pub(crate) proof fn lemma_with_envelope(
    d: Doc,
    at: int,
    marks: Seq<Mark>,
    pointee: Seq<char>,
    baseline: i64,
    from: int,
    next: u64,
)
    requires
        0 <= at < d.len(),
        from <= next,
        unique_in(d, from, next as int),
        next_behind_envelope(marks, next) <= i64::MAX,
    ensures
        unique_in(
            with_envelope(d, at, marks, pointee, baseline, next),
            from,
            next_behind_envelope(marks, next) as int,
        ),
        next <= next_behind_envelope(marks, next),
        with_envelope(d, at, marks, pointee, baseline, next).len() >= d.len(),
{
    if marks.len() > 0 {
        lemma_envelope_unique(marks, pointee, baseline, next);
        lemma_child_ids(
            d,
            at,
            envelope_of(marks, pointee, baseline, next),
            from,
            next as int,
            envelope_next(marks, next) as int,
        );
        lemma_end(d, d[at].depth, at + 1);
    }
}

/// Nothing in the document has a global identity.
pub open spec fn has_no_ids(d: Doc) -> bool {
    forall|i: int| 0 <= i < d.len() ==> !has_global_id(#[trigger] d[i])
}

pub(crate) proof fn lemma_no_ids(d: Doc, to: int)
    ensures
        has_no_ids(d) <==> unique_in(d, 0, 0),
        has_no_ids(d) ==> unique_in(d, to, to),
{
    if unique_in(d, 0, 0) {
        assert forall|i: int| 0 <= i < d.len() implies !has_global_id(#[trigger] d[i]) by {}
    }
}

pub(crate) proof fn lemma_small_id(n: int)
    requires
        0 <= n < LOCAL_ID_THRESHOLD,
    ensures
        !is_global_id(decimal(n)),
{
    law_decimal_reads_back(n);
}

proof fn lemma_notes_have_no_ids(notes: Seq<ClippedNote>, first: int)
    ensures
        has_no_ids(note_nodes(notes, first)),
    decreases notes.len(),
{
    if notes.len() > 0 {
        lemma_notes_have_no_ids(notes.drop_last(), first);
        lemma_names();
        reveal_strlit("Id");
        reveal_strlit("Duration");
        reveal_strlit("Velocity");
        reveal_strlit("OffVelocity");
        reveal_strlit("NoteId");
        assert("Id"@.len() != "Duration"@.len());
        assert("Id"@.len() != "Velocity"@.len());
        assert("Id"@.len() != "OffVelocity"@.len());
        assert("Id"@.len() != "NoteId"@.len());
        let all = note_nodes(notes, first);
        let before = note_nodes(notes.drop_last(), first);
        assert(all.last().attribute("Id"@) is None);
        assert forall|i: int| 0 <= i < all.len() implies !has_global_id(#[trigger] all[i]) by {
            if i < before.len() {
                assert(all[i] == before[i]);
            }
        }
    }
}

pub(crate) proof fn lemma_key_track_has_no_ids(
    id: int,
    pitch: i32,
    notes: Seq<ClippedNote>,
    first: int,
)
    requires
        0 <= id < LOCAL_ID_THRESHOLD,
    ensures
        has_no_ids(key_track(id, pitch, notes, first)),
{
    lemma_names();
    lemma_small_id(id);
    lemma_notes_have_no_ids(notes, first);
    let events = note_nodes(notes, first);
    let k = key_track(id, pitch, notes, first);
    let n = events.len() as int;
    assert(k.len() == n + 3);
    assert(k[0].attribute("Id"@) == Some(decimal(id)));
    assert(k[1].attribute("Id"@) is None);
    assert(k[n + 2].attribute("Id"@) is None);
    assert forall|i: int| 0 <= i < k.len() implies !has_global_id(#[trigger] k[i]) by {
        if 2 <= i < n + 2 {
            assert(k[i] == events[i - 2]);
        }
    }
}

proof fn lemma_key_tracks_have_no_ids(d: Doc, at: int, notes: Seq<ClippedNote>, k: int)
    requires
        0 <= at < d.len(),
        has_no_ids(d),
        k <= LOCAL_ID_THRESHOLD,
    ensures
        has_no_ids(with_key_tracks(d, at, notes, k)),
        with_key_tracks(d, at, notes, k).len() >= d.len(),
    decreases k,
{
    if k > 0 {
        lemma_key_tracks_have_no_ids(d, at, notes, k - 1);
        let e = with_key_tracks(d, at, notes, k - 1);
        let pitch = pitches_of(notes)[k - 1];
        let part = key_track(k - 1, pitch, notes_at(notes, pitch), first_note(notes, k - 1));
        lemma_key_track_has_no_ids(
            k - 1,
            pitch,
            notes_at(notes, pitch),
            first_note(notes, k - 1),
        );
        lemma_no_ids(e, 0);
        lemma_no_ids(part, 0);
        lemma_child_ids(e, at, part, 0, 0, 0);
        lemma_no_ids(with_child(e, at, part), 0);
        lemma_end(e, e[at].depth, at + 1);
    }
}

/// The pitches of notes, as far as Live knows them.
pub open spec fn pitches_fit(notes: Seq<ClippedNote>) -> bool {
    forall|i: int| 0 <= i < notes.len() ==> 0 <= (#[trigger] notes[i]).pitch < 128
}

pub(crate) proof fn lemma_few_pitches(notes: Seq<ClippedNote>, k: int)
    requires
        pitches_fit(notes),
        0 <= k < pitches_of(notes).len(),
    ensures
        k <= pitches_of(notes)[k] < 128,
    decreases k,
{
    law_key_tracks_by_pitch(notes);
    let p = pitches_of(notes);
    assert(p.contains(p[k]));
    if k > 0 {
        lemma_few_pitches(notes, k - 1);
    }
}

proof fn lemma_clip_has_no_ids(
    template: Doc,
    name: Seq<char>,
    start: i64,
    end: i64,
    notes: Seq<ClippedNote>,
    index: int,
    color: int,
)
    requires
        template.len() > 0,
        template[0].content is Element,
        forall|k: int| 1 <= k < template.len() ==> !has_global_id(#[trigger] template[k]),
        0 <= index < LOCAL_ID_THRESHOLD,
        pitches_fit(notes),
    ensures
        clip_of(template, name, start, end, notes, index, color) matches Some(c) ==> has_no_ids(c),
{
    lemma_names();
    lemma_small_id(index);
    let numbered = with_attribute(template, 0, "Id"@, decimal(index));
    assert(has_no_ids(numbered)) by {
        assert(numbered[0].attribute("Id"@) == Some(decimal(index)));
        assert forall|i: int| 0 <= i < numbered.len() implies !has_global_id(
            #[trigger] numbered[i],
        ) by {
            if i > 0 {
                assert(numbered[i] == template[i]);
            }
        }
    }
    let time = number_text(start as int);
    let placed = with_attribute(numbered, 0, "Time"@, time);
    lemma_attribute_ids(numbered, 0, "Time"@, time);
    lemma_no_ids(numbered, 0);
    lemma_same_ids(numbered, placed, 0, 0);
    let values = clip_values(name, decimal(color), time, number_text(end as int));
    lemma_values_ids(placed, 0, values);
    match with_values(placed, 0, values) {
        None => {},
        Some(valued) => {
            lemma_same_ids(placed, valued, 0, 0);
            lemma_find(valued, 0, "./Notes/KeyTracks"@);
            match find_in(valued, 0, "./Notes/KeyTracks"@) {
                None => {},
                Some(tracks) => {
                    let n = pitches_of(notes).len() as int;
                    if n > 0 {
                        lemma_few_pitches(notes, n - 1);
                    }
                    lemma_without_ids(valued, tracks, 0, 0);
                    lemma_end(valued, valued[tracks].depth, tracks + 1);
                    let cleared = without_children(valued, tracks);
                    lemma_no_ids(cleared, 0);
                    lemma_key_tracks_have_no_ids(cleared, tracks, notes, n);
                    let keyed = with_key_tracks(cleared, tracks, notes, n);
                    lemma_no_ids(keyed, 0);
                    let path = "./Notes/NoteIdGenerator/NextId"@;
                    let count = decimal(notes.len() as int + 1);
                    lemma_value_ids(keyed, 0, path, count);
                    match with_value(keyed, 0, path, count) {
                        None => {},
                        Some(counted) => {
                            lemma_same_ids(keyed, counted, 0, 0);
                            lemma_find(counted, 0, "./Envelopes/Envelopes"@);
                            match find_in(counted, 0, "./Envelopes/Envelopes"@) {
                                None => {},
                                Some(envelopes) => {
                                    lemma_without_ids(counted, envelopes, 0, 0);
                                    lemma_no_ids(without_children(counted, envelopes), 0);
                                },
                            }
                        },
                    }
                },
            }
        },
    }
}

/// The pitches of a track's notes, as far as Live knows them.
pub open spec fn live_pitches_fit(notes: Seq<LiveNoteView>) -> bool {
    forall|i: int| 0 <= i < notes.len() ==> 0 <= (#[trigger] notes[i]).pitch < 128
}

proof fn lemma_clipped_pitches(
    notes: Seq<LiveNoteView>,
    segments: Seq<Segment>,
    k: int,
    n: int,
)
    requires
        live_pitches_fit(notes),
        n <= notes.len(),
    ensures
        pitches_fit(notes_in(notes, segments, k, n)),
    decreases n,
{
    if n > 0 {
        lemma_clipped_pitches(notes, segments, k, n - 1);
        assert(0 <= notes[n - 1].pitch < 128);
    }
}

proof fn lemma_clips_unique(
    d: Doc,
    at: int,
    template: Doc,
    name: Seq<char>,
    color: int,
    notes: Seq<LiveNoteView>,
    segments: Seq<Segment>,
    k: int,
    from: int,
    to: int,
)
    requires
        0 <= at < d.len(),
        from <= to,
        unique_in(d, from, to),
        template.len() > 0,
        template[0].content is Element,
        forall|k: int| 1 <= k < template.len() ==> !has_global_id(#[trigger] template[k]),
        live_pitches_fit(notes),
        k <= segments.len() <= LOCAL_ID_THRESHOLD,
    ensures
        with_clips(d, at, template, name, color, notes, segments, k) matches Some(e) ==> unique_in(
            e,
            from,
            to,
        ) && e.len() >= d.len(),
    decreases k,
{
    if k > 0 {
        lemma_clips_unique(d, at, template, name, color, notes, segments, k - 1, from, to);
        let local = notes_in(notes, segments, k - 1, notes.len() as int);
        lemma_clipped_pitches(notes, segments, k - 1, notes.len() as int);
        let start = row_micros(segments[k - 1].start_row);
        let end = row_micros(segments[k - 1].end_row);
        lemma_clip_has_no_ids(template, name, start, end, local, k - 1, color);
        match with_clips(d, at, template, name, color, notes, segments, k - 1) {
            None => {},
            Some(e) => match clip_of(template, name, start, end, local, k - 1, color) {
                None => {},
                Some(clip) => {
                    lemma_no_ids(clip, to);
                    lemma_child_ids(e, at, clip, from, to, to);
                    lemma_end(e, e[at].depth, at + 1);
                },
            },
        }
    }
}

/// The clip of a track's template has nothing with a global identity below it: it is copied for
/// every clip.
pub open spec fn clip_has_no_ids(d: Doc, path: Seq<char>, kind: Seq<char>) -> bool {
    match find_in(d, 0, path) {
        None => true,
        Some(at) => match child_of(d, at, kind) {
            None => true,
            Some(clip) => forall|k: int|
                clip < k < end_of(d, clip) ==> !has_global_id(#[trigger] d[k]),
        },
    }
}

pub(crate) proof fn lemma_same_end(d: Doc, e: Doc, depth: usize, j: int)
    requires
        same_shape(d, e),
        0 <= j,
    ensures
        end_from(d, depth, j) == end_from(e, depth, j),
    decreases d.len() - j,
{
    if j < d.len() {
        assert(d[j].depth == e[j].depth);
        lemma_same_end(d, e, depth, j + 1);
    }
}

pub(crate) proof fn lemma_same_clip(d: Doc, e: Doc, path: Seq<char>, kind: Seq<char>)
    requires
        same_shape(d, e),
        d.len() > 0,
        clip_has_no_ids(d, path, kind),
        forall|k: int| 1 <= k < d.len() && has_global_id(#[trigger] e[k]) ==> has_global_id(d[k]),
    ensures
        clip_has_no_ids(e, path, kind),
{
    lemma_same_find(d, e, 0, path);
    lemma_find(d, 0, path);
    match find_in(d, 0, path) {
        None => {},
        Some(at) => {
            assert(d[at].depth == e[at].depth);
            lemma_same_child(d, e, d[at].depth, at + 1, kind);
            lemma_child(d, d[at].depth, at + 1, kind);
            match child_of(d, at, kind) {
                None => {},
                Some(clip) => {
                    assert(d[clip].depth == e[clip].depth);
                    lemma_same_end(d, e, d[clip].depth, clip + 1);
                    lemma_end(d, d[clip].depth, clip + 1);
                    assert forall|k: int| clip < k < end_of(e, clip) implies !has_global_id(
                        #[trigger] e[k],
                    ) by {
                        assert(!has_global_id(d[k]));
                    }
                },
            }
        },
    }
}

proof fn lemma_arrangement_unique(
    d: Doc,
    name: Seq<char>,
    color: int,
    notes: Seq<LiveNoteView>,
    segments: Seq<Segment>,
    from: int,
    to: int,
)
    requires
        d.len() > 0,
        from <= to,
        unique_in(d, from, to),
        clip_has_no_ids(d, clips_path(), "MidiClip"@),
        live_pitches_fit(notes),
        segments.len() <= LOCAL_ID_THRESHOLD,
    ensures
        with_arrangement(d, name, color, notes, segments) matches Some(e) ==> unique_in(e, from, to)
            && e.len() > 0,
{
    lemma_find(d, 0, clips_path());
    match find_in(d, 0, clips_path()) {
        None => {},
        Some(at) => {
            lemma_child(d, d[at].depth, at + 1, "MidiClip"@);
            match child_of(d, at, "MidiClip"@) {
                None => {},
                Some(clip) => {
                    lemma_end(d, d[clip].depth, clip + 1);
                    lemma_without_ids(d, clip, from, to);
                    let part = part_at(d, clip);
                    assert(part[0].content == d[clip].content);
                    assert forall|k: int| 1 <= k < part.len() implies !has_global_id(
                        #[trigger] part[k],
                    ) by {
                        assert(part[k].content == d[clip + k].content);
                        assert(!has_global_id(d[clip + k]));
                    }
                    lemma_clips_unique(
                        without(d, clip),
                        at,
                        part,
                        name,
                        color,
                        notes,
                        segments,
                        segments.len() as int,
                        from,
                        to,
                    );
                },
            }
        },
    }
}

pub(crate) proof fn lemma_named_places(d: Doc, j: int, k: int, name: Seq<char>)
    requires
        0 <= j,
        k <= d.len(),
    ensures
        forall|i: int|
            0 <= i < named_up_to(d, j, k, name).len() ==> 0 <= #[trigger] named_up_to(
                d,
                j,
                k,
                name,
            )[i] < d.len(),
    decreases k - j,
{
    if k > j {
        lemma_named_places(d, j, k - 1, name);
        let before = named_up_to(d, j, k - 1, name);
        let all = named_up_to(d, j, k, name);
        assert forall|i: int| 0 <= i < all.len() implies 0 <= #[trigger] all[i] < d.len() by {
            if i < before.len() {
                assert(all[i] == before[i]);
            }
        }
    }
}

pub(crate) proof fn lemma_values_at_ids(d: Doc, list: Seq<int>, values: Seq<(Seq<char>, Seq<char>)>)
    requires
        forall|i: int| 0 <= i < list.len() ==> 0 <= #[trigger] list[i] < d.len(),
    ensures
        with_values_at(d, list, values) matches Some(e) ==> same_ids(d, e) && same_shape(d, e),
    decreases list.len(),
{
    if list.len() > 0 {
        assert forall|i: int| 0 <= i < list.drop_last().len() implies 0
            <= #[trigger] list.drop_last()[i] < d.len() by {
            assert(list.drop_last()[i] == list[i]);
        }
        lemma_values_at_ids(d, list.drop_last(), values);
        match with_values_at(d, list.drop_last(), values) {
            Some(e) => {
                assert(list.last() == list[list.len() - 1]);
                lemma_values_ids(e, list.last(), values);
                match with_values(e, list.last(), values) {
                    Some(f) => lemma_shapes(d, e, f),
                    None => {},
                }
            },
            None => {},
        }
    }
}

pub(crate) proof fn lemma_sample_ids(d: Doc, s: SampleView, file: SampleFileView)
    requires
        d.len() > 0,
    ensures
        with_sample(d, s, file) matches Some(e) ==> same_ids(d, e) && same_shape(d, e),
{
    lemma_find(d, 0, ".//MultiSamplePart"@);
    match find_in(d, 0, ".//MultiSamplePart"@) {
        None => {},
        Some(part) => {
            lemma_end(d, d[part].depth, part + 1);
            let list = named_up_to(d, part + 1, end_of(d, part), "FileRef"@);
            lemma_named_places(d, part + 1, end_of(d, part), "FileRef"@);
            lemma_values_at_ids(d, list, file_values(wav_filename(s), file));
            match with_file(d, part, wav_filename(s), file) {
                None => {},
                Some(e) => {
                    lemma_values_ids(e, 0, sample_values(s, file));
                    match with_values(e, 0, sample_values(s, file)) {
                        None => {},
                        Some(f) => lemma_shapes(d, e, f),
                    }
                },
            }
        },
    }
}

proof fn lemma_curves_unique(
    d: Doc,
    targets: Targets,
    notes: Seq<LiveNoteView>,
    panning: AmigaPanning,
    s: SampleView,
    from: int,
    next: u64,
)
    requires
        d.len() > 0,
        from <= next,
        unique_in(d, from, next as int),
        with_curves(d, targets, notes, panning, s, next) matches Some((e, n)) ==> n <= i64::MAX,
    ensures
        with_curves(d, targets, notes, panning, s, next) matches Some((e, n)) ==> unique_in(
            e,
            from,
            n as int,
        ) && next <= n && e.len() > 0,
{
    let bends = bends_of(notes);
    let volumes = volumes_of(notes);
    let pans = pans_of(notes, panning, s);
    lemma_find(d, 0, "./AutomationEnvelopes/Envelopes"@);
    match find_in(d, 0, "./AutomationEnvelopes/Envelopes"@) {
        None => {},
        Some(at) => {
            let next1 = next_behind_envelope(bends, next);
            let next2 = next_behind_envelope(volumes, next1);
            let next3 = next_behind_envelope(pans, next2);
            lemma_behind(bends, next);
            lemma_behind(volumes, next1);
            lemma_behind(pans, next2);
            lemma_with_envelope(d, at, bends, targets.pitch, 0, from, next);
            let d1 = with_envelope(d, at, bends, targets.pitch, 0, next);
            let full = fader_gain(FULL_LEVEL as int);
            lemma_with_envelope(d1, at, volumes, targets.volume, full, from, next1);
            let d2 = with_envelope(d1, at, volumes, targets.volume, full, next1);
            lemma_with_envelope(d2, at, pans, targets.pan, resting_pan(s), from, next2);
        },
    }
}

pub(crate) proof fn lemma_behind(marks: Seq<Mark>, next: u64)
    ensures
        next <= next_behind_envelope(marks, next),
{
    lemma_after_n_grows(after(after(next)), marks.len() as int);
}

proof fn lemma_after_n_grows(next: u64, n: int)
    ensures
        next <= after_n(next, n),
    decreases n,
{
    if n > 0 {
        lemma_after_n_grows(next, n - 1);
    }
}

pub(crate) proof fn lemma_next_after_grows(d: Doc, next: u64, k: int)
    ensures
        next <= renumbering(d, next, k).next,
    decreases k,
{
    if k > 1 {
        lemma_next_after_grows(d, next, k - 1);
    }
}

/// A track takes its identities from a range that begins where it was told to, and takes none of
/// them twice.
proof fn lemma_track_unique(
    template: Doc,
    s: SampleView,
    next: u64,
    file: SampleFileView,
    notes: Seq<LiveNoteView>,
    segments: Seq<Segment>,
    panning: AmigaPanning,
    voice: int,
)
    requires
        template.len() > 0,
        template[0].content is Element,
        clip_has_no_ids(template, clips_path(), "MidiClip"@),
        live_pitches_fit(notes),
        segments.len() <= LOCAL_ID_THRESHOLD,
        track_of(template, s, next, file, notes, segments, panning, voice) matches Some((d, n))
            ==> n <= i64::MAX,
    ensures
        track_of(template, s, next, file, notes, segments, panning, voice) matches Some((d, n))
            ==> unique_in(d, next as int, n as int) && next < n && d.len() > 0,
{
    reveal(track_of);
    if track_of(template, s, next, file, notes, segments, panning, voice) is Some {
        let numbered = with_attribute(template, 0, "Id"@, decimal(next as int));
        let d0 = renumbered(numbered, after(next));
        let next0 = next_after(numbered, after(next));
        let values = track_values(s, voice, offset_of(notes));
        let d1 = with_values(d0, 0, values)->0;
        let d2 = with_sample(d1, s, file)->0;
        let d3 = with_arrangement(d2, track_name(s, voice), color_of(s), notes, segments)->0;
        let targets = Targets {
            pitch: target_of(d1, ".//MultiSampler/Pitch/TransposeKey/AutomationTarget"@)->0,
            volume: target_of(d1, "./DeviceChain/Mixer/Volume/AutomationTarget"@)->0,
            pan: target_of(d1, ".//MultiSampler/VolumeAndPan/Panorama/AutomationTarget"@)->0,
        };
        lemma_behind(bends_of(notes), next0);
        let next1 = next_behind_envelope(bends_of(notes), next0);
        lemma_behind(volumes_of(notes), next1);
        lemma_behind(
            pans_of(notes, panning, s),
            next_behind_envelope(volumes_of(notes), next1),
        );
        lemma_numbered(template, next);
        lemma_values_ids(d0, 0, values);
        lemma_same_ids(d0, d1, next as int, next0 as int);
        lemma_sample_ids(d1, s, file);
        lemma_same_ids(d1, d2, next as int, next0 as int);
        lemma_shapes(d0, d1, d2);
        assert forall|k: int| 1 <= k < template.len() && has_global_id(
            #[trigger] d2[k],
        ) implies has_global_id(template[k]) by {
            assert(d0[k].attribute("Id"@) == d2[k].attribute("Id"@));
            assert(has_global_id(d0[k]));
        }
        lemma_shape_chain(template, d0, d2);
        lemma_same_clip(template, d2, clips_path(), "MidiClip"@);
        lemma_arrangement_unique(
            d2,
            track_name(s, voice),
            color_of(s),
            notes,
            segments,
            next as int,
            next0 as int,
        );
        lemma_curves_unique(d3, targets, notes, panning, s, next as int, next0);
    }
}

pub(crate) proof fn lemma_shape_chain(d: Doc, e: Doc, f: Doc)
    requires
        same_shape(d, e),
        same_shape(e, f),
    ensures
        same_shape(d, f),
{
    assert forall|i: int| 0 <= i < d.len() implies (#[trigger] d[i]).depth == f[i].depth by {
        assert(e[i].depth == f[i].depth);
    }
    assert forall|i: int, name: Seq<char>| 0 <= i < d.len() implies (#[trigger] d[i].is_named(name))
        == f[i].is_named(name) by {
        assert(d[i].is_named(name) == e[i].is_named(name));
        assert(e[i].is_named(name) == f[i].is_named(name));
    }
}

pub(crate) proof fn lemma_group_unique(template: Doc, name: Seq<char>, color: int, next: u64)
    requires
        template.len() > 0,
        template[0].content is Element,
        group_of(template, name, color, next) matches Some((d, n)) ==> n <= i64::MAX,
    ensures
        group_of(template, name, color, next) matches Some((d, n)) ==> unique_in(
            d,
            next as int,
            n as int,
        ) && next < n,
{
    if group_of(template, name, color, next) is Some {
        let numbered = with_attribute(template, 0, "Id"@, decimal(next as int));
        let d0 = renumbered(numbered, after(next));
        lemma_numbered(template, next);
        lemma_values_ids(d0, 0, group_values(name, color));
        lemma_same_ids(
            d0,
            with_values(d0, 0, group_values(name, color))->0,
            next as int,
            next_after(numbered, after(next)) as int,
        );
    }
}

pub(crate) proof fn lemma_push_unique(tracks: Seq<Doc>, d: Doc, from: int, middle: int, to: int)
    requires
        from <= middle <= to,
        all_differ(tracks),
        all_within(tracks, from, middle),
        unique_in(d, middle, to),
    ensures
        all_differ(tracks.push(d)),
        all_within(tracks.push(d), from, to),
{
    let all = tracks.push(d);
    assert forall|a: int| 0 <= a < all.len() implies ids_differ(#[trigger] all[a]) && ids_within(
        all[a],
        from,
        to,
    ) by {
        if a < tracks.len() {
            assert(all[a] == tracks[a]);
            assert(ids_within(tracks[a], from, middle));
        }
    }
    assert forall|a: int, b: int| 0 <= a < b < all.len() implies ids_apart(
        #[trigger] all[a],
        #[trigger] all[b],
    ) by {
        assert(all[a] == tracks[a]);
        if b < tracks.len() {
            assert(all[b] == tracks[b]);
        } else {
            assert(ids_within(tracks[a], from, middle));
        }
    }
}

proof fn lemma_track_grows(
    template: Doc,
    s: SampleView,
    next: u64,
    file: SampleFileView,
    notes: Seq<LiveNoteView>,
    segments: Seq<Segment>,
    panning: AmigaPanning,
    voice: int,
)
    ensures
        track_of(template, s, next, file, notes, segments, panning, voice) matches Some((d, n))
            ==> next <= n,
{
    reveal(track_of);
    let numbered = with_attribute(template, 0, "Id"@, decimal(next as int));
    lemma_next_after_grows(numbered, after(next), numbered.len() as int);
    let next0 = next_after(numbered, after(next));
    let next1 = next_behind_envelope(bends_of(notes), next0);
    lemma_behind(bends_of(notes), next0);
    lemma_behind(volumes_of(notes), next1);
    lemma_behind(pans_of(notes, panning, s), next_behind_envelope(volumes_of(notes), next1));
}

/// The documents of a plan are those of a set: they begin with an element, and the clip of the
/// track has no global identities below it.
pub open spec fn templates_fit(plan: Plan) -> bool {
    &&& plan.template.len() > 0
    &&& plan.template[0].content is Element
    &&& plan.group.len() > 0
    &&& plan.group[0].content is Element
    &&& clip_has_no_ids(plan.template, clips_path(), "MidiClip"@)
}

/// The notes are notes of MIDI, and there are no more clips than there are local indices.
pub open spec fn song_fits(plan: Plan) -> bool {
    &&& forall|i: int| 0 <= i < plan.events.len() ==> event_pitches_fit(#[trigger] plan.events[i])
    &&& plan.segments.len() <= LOCAL_ID_THRESHOLD
}

/// The pitches are those of MIDI.
pub open spec fn event_pitches_fit(events: Seq<NoteEventView>) -> bool {
    forall|i: int| 0 <= i < events.len() ==> 0 <= (#[trigger] events[i]).note.pitch < 128
}

proof fn lemma_voice_pitches(events: Seq<NoteEventView>, bends: Seq<Seq<i64>>, voice: int)
    requires
        event_pitches_fit(events),
    ensures
        live_pitches_fit(voice_notes(events, bends, voice)),
    decreases events.len(),
{
    if events.len() > 0 {
        let rest = events.drop_last();
        assert forall|i: int| 0 <= i < rest.len() implies 0 <= (#[trigger] rest[i]).note.pitch
            < 128 by {
            assert(rest[i] == events[i]);
        }
        lemma_voice_pitches(rest, bends, voice);
        assert(events.last() == events[events.len() - 1]);
        let before = voice_notes(rest, bends, voice);
        let all = voice_notes(events, bends, voice);
        assert forall|i: int| 0 <= i < all.len() implies 0 <= (#[trigger] all[i]).pitch < 128 by {
            if i < before.len() {
                assert(all[i] == before[i]);
            }
        }
    }
}

proof fn lemma_finished_ids(d: Doc, group: Option<Seq<char>>, arm: bool, from: int, to: int)
    requires
        d.len() > 0,
        unique_in(d, from, to),
    ensures
        finished_track(d, group, arm) matches Some(e) ==> unique_in(e, from, to),
{
    if finished_track(d, group, arm) is Some {
        let grouped = match group {
            Some(id) => with_value(d, 0, "./TrackGroupId"@, id)->0,
            None => d,
        };
        match group {
            Some(id) => {
                lemma_value_ids(d, 0, "./TrackGroupId"@, id);
                lemma_same_ids(d, grouped, from, to);
            },
            None => {},
        }
        if arm {
            let path = "./DeviceChain/MainSequencer/Recorder/IsArmed"@;
            lemma_value_ids(grouped, 0, path, "true"@);
            lemma_same_ids(grouped, with_value(grouped, 0, path, "true"@)->0, from, to);
        }
    }
}

/// The tracks so far have their identities from a range that ends where the next one begins.
spec fn has_come_to(p: Progress, from: int) -> bool {
    &&& from <= p.next
    &&& all_differ(p.tracks)
    &&& all_within(p.tracks, from, p.next as int)
}

proof fn lemma_voices_unique(
    p: Progress,
    plan: Plan,
    i: int,
    group: Option<Seq<char>>,
    v: int,
    from: int,
)
    requires
        templates_fit(plan),
        song_fits(plan),
        0 <= i < plan.events.len(),
    ensures
        with_voices(p, plan, i, group, v) matches Some(q) ==> p.next <= q.next && (has_come_to(
            p,
            from,
        ) && q.next <= i64::MAX ==> has_come_to(q, from)),
    decreases v,
{
    if v > 0 {
        lemma_voices_unique(p, plan, i, group, v - 1, from);
        match with_voices(p, plan, i, group, v - 1) {
            None => {},
            Some(q) => {
                let s = loopable(plan.samples[i]);
                let notes = voice_notes(plan.events[i], plan.bends[i], v - 1);
                lemma_voice_pitches(plan.events[i], plan.bends[i], v - 1);
                lemma_track_grows(
                    plan.template,
                    s,
                    q.next,
                    plan.files[i],
                    notes,
                    plan.segments,
                    plan.panning,
                    v - 1,
                );
                match track_of(
                    plan.template,
                    s,
                    q.next,
                    plan.files[i],
                    notes,
                    plan.segments,
                    plan.panning,
                    v - 1,
                ) {
                    None => {},
                    Some((d, n)) => {
                        if has_come_to(p, from) && n <= i64::MAX {
                            lemma_track_unique(
                                plan.template,
                                s,
                                q.next,
                                plan.files[i],
                                notes,
                                plan.segments,
                                plan.panning,
                                v - 1,
                            );
                            lemma_finished_ids(d, group, !q.armed, q.next as int, n as int);
                            match finished_track(d, group, !q.armed) {
                                None => {},
                                Some(e) => lemma_push_unique(
                                    q.tracks,
                                    e,
                                    from,
                                    q.next as int,
                                    n as int,
                                ),
                            }
                        }
                    },
                }
            },
        }
    }
}

proof fn lemma_sample_tracks_unique(p: Progress, plan: Plan, i: int, from: int)
    requires
        templates_fit(plan),
        song_fits(plan),
        0 <= i < plan.events.len(),
    ensures
        with_sample_tracks(p, plan, i) matches Some(q) ==> p.next <= q.next && (has_come_to(p, from)
            && q.next <= i64::MAX ==> has_come_to(q, from)),
{
    let s = loopable(plan.samples[i]);
    let voices = voice_count(plan.events[i]);
    if voices > 1 {
        let numbered = with_attribute(plan.group, 0, "Id"@, decimal(p.next as int));
        lemma_next_after_grows(numbered, after(p.next), numbered.len() as int);
        match group_of(plan.group, track_name(s, 0), color_of(s), p.next) {
            None => {},
            Some((d, n)) => {
                let q = Progress { tracks: p.tracks.push(d), next: n, armed: p.armed };
                lemma_voices_unique(q, plan, i, Some(decimal(p.next as int)), voices, from);
                if has_come_to(p, from) && n <= i64::MAX {
                    lemma_group_unique(plan.group, track_name(s, 0), color_of(s), p.next);
                    lemma_push_unique(p.tracks, d, from, p.next as int, n as int);
                }
            },
        }
    } else {
        lemma_voices_unique(p, plan, i, None, voices, from);
    }
}

/// Whatever the samples and the notes: no two nodes of the tracks of a song have the same
/// global identity, within a track or across tracks, and all of them are numbers from the first
/// one that was free.
pub proof fn law_track_ids_are_unique(plan: Plan, next: u64, k: int)
    requires
        templates_fit(plan),
        song_fits(plan),
        k <= plan.events.len(),
    ensures
        tracks_up_to(plan, next, k) matches Some(p) ==> next <= p.next && (p.next <= i64::MAX
            ==> all_differ(p.tracks) && all_within(p.tracks, next as int, p.next as int)),
    decreases k,
{
    if k > 0 {
        law_track_ids_are_unique(plan, next, k - 1);
        match tracks_up_to(plan, next, k - 1) {
            None => {},
            Some(p) => lemma_sample_tracks_unique(p, plan, k - 1, next as int),
        }
    }
}

/// Every node of a document with a part put into it is one of the document or one of the part.
pub(crate) proof fn lemma_child_nodes(d: Doc, at: int, part: Doc)
    requires
        0 <= at < d.len(),
    ensures
        with_child(d, at, part).len() == d.len() + part.len(),
        forall|i: int|
            0 <= i < d.len() + part.len() ==> (#[trigger] with_child(d, at, part)[i]).attribute(
                "Id"@,
            ) == (if i < end_of(d, at) {
                d[i].attribute("Id"@)
            } else if i < end_of(d, at) + part.len() {
                part[i - end_of(d, at)].attribute("Id"@)
            } else {
                d[i - part.len()].attribute("Id"@)
            }),
        at < end_of(d, at) <= d.len(),
{
    lemma_end(d, d[at].depth, at + 1);
    let end = end_of(d, at);
    let e = with_child(d, at, part);
    let low = lowered(part, deeper(d[at].depth, 1));
    assert forall|i: int| end <= i < end + part.len() implies (#[trigger] e[i]).attribute("Id"@)
        == part[i - end].attribute("Id"@) by {
        assert(e[i] == low[i - end]);
    }
}

pub(crate) proof fn lemma_child_apart(d: Doc, at: int, part: Doc, f: Doc)
    requires
        0 <= at < d.len(),
        ids_apart(d, f),
        ids_apart(part, f),
    ensures
        ids_apart(with_child(d, at, part), f),
{
    lemma_child_nodes(d, at, part);
    let end = end_of(d, at);
    let e = with_child(d, at, part);
    assert forall|i: int, j: int|
        0 <= i < e.len() && 0 <= j < f.len() && has_global_id(#[trigger] e[i]) && has_global_id(
            #[trigger] f[j],
        ) implies id_of(e[i]) != id_of(f[j]) by {
        if i < end {
            assert(has_global_id(d[i]));
        } else if i < end + part.len() {
            assert(has_global_id(part[i - end]));
        } else {
            assert(has_global_id(d[i - part.len()]));
        }
    }
}

pub(crate) proof fn lemma_child_differs(d: Doc, at: int, part: Doc)
    requires
        0 <= at < d.len(),
        ids_differ(d),
        ids_differ(part),
        ids_apart(d, part),
    ensures
        ids_differ(with_child(d, at, part)),
{
    lemma_child_nodes(d, at, part);
    let end = end_of(d, at);
    let n = part.len() as int;
    let e = with_child(d, at, part);
    assert forall|i: int, j: int|
        0 <= i < j < e.len() && has_global_id(#[trigger] e[i]) && has_global_id(
            #[trigger] e[j],
        ) implies id_of(e[i]) != id_of(e[j]) by {
        let in_part = |k: int| end <= k < end + n;
        let place = |k: int|
            if k < end {
                k
            } else {
                k - n
            };
        if in_part(i) {
            assert(has_global_id(part[i - end]));
        } else {
            assert(has_global_id(d[place(i)]));
        }
        if in_part(j) {
            assert(has_global_id(part[j - end]));
        } else {
            assert(has_global_id(d[place(j)]));
        }
    }
}

proof fn lemma_parts_apart(d: Doc, at: int, parts: Seq<Doc>, f: Doc)
    requires
        0 <= at < d.len(),
        ids_apart(d, f),
        forall|a: int| 0 <= a < parts.len() ==> ids_apart(#[trigger] parts[a], f),
    ensures
        ids_apart(with_parts(d, at, parts), f),
        with_parts(d, at, parts).len() >= d.len(),
    decreases parts.len(),
{
    if parts.len() > 0 {
        let rest = parts.drop_last();
        assert forall|a: int| 0 <= a < rest.len() implies ids_apart(#[trigger] rest[a], f) by {
            assert(rest[a] == parts[a]);
        }
        lemma_parts_apart(d, at, rest, f);
        assert(parts.last() == parts[parts.len() - 1]);
        lemma_child_nodes(with_parts(d, at, rest), at, parts.last());
        lemma_child_apart(with_parts(d, at, rest), at, parts.last(), f);
    }
}

proof fn lemma_parts_differ(d: Doc, at: int, parts: Seq<Doc>)
    requires
        0 <= at < d.len(),
        ids_differ(d),
        all_differ(parts),
        forall|a: int| 0 <= a < parts.len() ==> ids_apart(d, #[trigger] parts[a]),
    ensures
        ids_differ(with_parts(d, at, parts)),
    decreases parts.len(),
{
    if parts.len() > 0 {
        let rest = parts.drop_last();
        let last = parts.last();
        assert(last == parts[parts.len() - 1]);
        assert forall|a: int| 0 <= a < rest.len() implies ids_apart(#[trigger] rest[a], last)
            && ids_apart(d, rest[a]) && ids_differ(rest[a]) by {
            assert(rest[a] == parts[a]);
        }
        assert forall|a: int, b: int| 0 <= a < b < rest.len() implies ids_apart(
            #[trigger] rest[a],
            #[trigger] rest[b],
        ) by {
            assert(rest[a] == parts[a] && rest[b] == parts[b]);
        }
        lemma_parts_differ(d, at, rest);
        lemma_parts_apart(d, at, rest, last);
        lemma_child_differs(with_parts(d, at, rest), at, last);
    }
}

proof fn lemma_children_places(d: Doc, depth: usize, j: int, k: int, name: Seq<char>)
    requires
        0 <= j,
        k <= d.len(),
    ensures
        forall|i: int|
            0 <= i < children_up_to(d, depth, j, k, name).len() ==> j <= #[trigger] children_up_to(
                d,
                depth,
                j,
                k,
                name,
            )[i] < k && d[children_up_to(d, depth, j, k, name)[i]].depth == depth + 1,
        forall|i: int, l: int|
            0 <= i < l < children_up_to(d, depth, j, k, name).len() ==> #[trigger] children_up_to(
                d,
                depth,
                j,
                k,
                name,
            )[i] < #[trigger] children_up_to(d, depth, j, k, name)[l],
    decreases k - j,
{
    if k > j {
        lemma_children_places(d, depth, j, k - 1, name);
        let before = children_up_to(d, depth, j, k - 1, name);
        let all = children_up_to(d, depth, j, k, name);
        assert forall|i: int| 0 <= i < all.len() implies j <= #[trigger] all[i] < k
            && d[all[i]].depth == depth + 1 by {
            if i < before.len() {
                assert(all[i] == before[i]);
            }
        }
        assert forall|i: int, l: int| 0 <= i < l < all.len() implies #[trigger] all[i]
            < #[trigger] all[l] by {
            assert(all[i] == before[i]);
            if l < before.len() {
                assert(all[l] == before[l]);
            }
        }
    }
}

/// The return tracks and what is outside the tracks have no identity in common.
proof fn lemma_returns_differ(d: Doc, at: int, from: int, to: int)
    requires
        0 <= at < d.len(),
        unique_in(d, from, to),
    ensures
        unique_in(without_children(d, at), from, to),
        all_differ(return_tracks(d, at)),
        all_within(return_tracks(d, at), from, to),
        forall|a: int|
            0 <= a < return_tracks(d, at).len() ==> ids_apart(
                without_children(d, at),
                #[trigger] return_tracks(d, at)[a],
            ),
{
    lemma_end(d, d[at].depth, at + 1);
    let end = end_of(d, at);
    let places = children_named(d, at, "ReturnTrack"@);
    lemma_children_places(d, d[at].depth, at + 1, end, "ReturnTrack"@);
    let parts = return_tracks(d, at);
    let outside = without_children(d, at);
    assert forall|a: int| 0 <= a < parts.len() implies at < #[trigger] places[a] && places[a]
        + parts[a].len() <= end && (forall|k: int|
        0 <= k < parts[a].len() ==> (#[trigger] parts[a][k]).attribute("Id"@) == d[places[a]
            + k].attribute("Id"@)) by {
        let c = places[a];
        lemma_end(d, d[c].depth, c + 1);
        assert(parts[a] == part_at(d, c));
        assert(end_of(d, c) <= end) by {
            if end_of(d, c) > end {
                assert(d[end].depth > d[c].depth);
            }
        }
    }
    assert forall|i: int| 0 <= i < outside.len() implies (#[trigger] outside[i]).attribute("Id"@)
        == d[if i <= at {
        i
    } else {
        i - at - 1 + end
    }].attribute("Id"@) by {}
    lemma_without_ids(d, at, from, to);
    assert forall|a: int| 0 <= a < parts.len() implies ids_differ(#[trigger] parts[a])
        && ids_apart(outside, parts[a]) && ids_within(parts[a], from, to) by {
        let c = places[a];
        assert forall|i: int| 0 <= i < parts[a].len() && has_global_id(
            #[trigger] parts[a][i],
        ) implies from <= id_of(parts[a][i]) < to by {
            assert(has_global_id(d[c + i]));
        }
        assert forall|i: int, j: int|
            0 <= i < j < parts[a].len() && has_global_id(#[trigger] parts[a][i]) && has_global_id(
                #[trigger] parts[a][j],
            ) implies id_of(parts[a][i]) != id_of(parts[a][j]) by {
            assert(has_global_id(d[c + i]) && has_global_id(d[c + j]));
        }
        assert forall|i: int, j: int|
            0 <= i < outside.len() && 0 <= j < parts[a].len() && has_global_id(
                #[trigger] outside[i],
            ) && has_global_id(#[trigger] parts[a][j]) implies id_of(outside[i]) != id_of(
            parts[a][j],
        ) by {
            let place = if i <= at {
                i
            } else {
                i - at - 1 + end
            };
            assert(has_global_id(d[place]) && has_global_id(d[c + j]));
        }
    }
    assert forall|a: int, b: int| 0 <= a < b < parts.len() implies ids_apart(
        #[trigger] parts[a],
        #[trigger] parts[b],
    ) by {
        let x = places[a];
        let y = places[b];
        assert(x < y && x + parts[a].len() <= y) by {
            lemma_end(d, d[x].depth, x + 1);
            assert(parts[a] == part_at(d, x));
            if end_of(d, x) > y {
                assert(d[y].depth > d[x].depth);
            }
        }
        assert forall|i: int, j: int|
            0 <= i < parts[a].len() && 0 <= j < parts[b].len() && has_global_id(
                #[trigger] parts[a][i],
            ) && has_global_id(#[trigger] parts[b][j]) implies id_of(parts[a][i]) != id_of(
            parts[b][j],
        ) by {
            assert(has_global_id(d[x + i]) && has_global_id(d[y + j]));
        }
    }
}

pub(crate) proof fn lemma_within_apart(d: Doc, e: Doc, from: int, middle: int, to: int)
    requires
        ids_within(d, from, middle),
        ids_within(e, middle, to),
    ensures
        ids_apart(d, e),
        ids_apart(e, d),
{
}

/// A set in which no two nodes have the same global identity stays so when its tracks are
/// replaced by new ones whose identities it does not use.
pub(crate) proof fn lemma_with_tracks_differs(
    d: Doc,
    live: int,
    tracks: Seq<Doc>,
    next: u64,
    first: int,
)
    requires
        0 <= live < d.len(),
        unique_in(d, 0, first),
        all_differ(tracks),
        all_within(tracks, first, next as int),
    ensures
        with_tracks(d, live, tracks, next) matches Some(e) ==> ids_differ(e) && live < e.len(),
{
    reveal(with_tracks);
    lemma_find(d, live, "./Tracks"@);
    match find_in(d, live, "./Tracks"@) {
        None => {},
        Some(at) => {
            lemma_returns_differ(d, at, 0, first);
            lemma_end(d, d[at].depth, at + 1);
            let outside = without_children(d, at);
            let kept = return_tracks(d, at);
            let parts = tracks + kept;
            assert forall|a: int| 0 <= a < parts.len() implies ids_differ(#[trigger] parts[a])
                && ids_apart(outside, parts[a]) by {
                if a < tracks.len() {
                    assert(parts[a] == tracks[a]);
                    lemma_within_apart(outside, tracks[a], 0, first, next as int);
                } else {
                    assert(parts[a] == kept[a - tracks.len()]);
                }
            }
            assert forall|a: int, b: int| 0 <= a < b < parts.len() implies ids_apart(
                #[trigger] parts[a],
                #[trigger] parts[b],
            ) by {
                let n = tracks.len() as int;
                if b < n {
                    assert(parts[a] == tracks[a] && parts[b] == tracks[b]);
                } else if a < n {
                    assert(parts[a] == tracks[a] && parts[b] == kept[b - n]);
                    lemma_within_apart(kept[b - n], tracks[a], 0, first, next as int);
                } else {
                    assert(parts[a] == kept[a - n] && parts[b] == kept[b - n]);
                }
            }
            lemma_parts_differ(outside, at, parts);
            lemma_parts_apart(outside, at, parts, Seq::empty());
            let e = with_parts(outside, at, parts);
            lemma_find(e, live, "./NextPointeeId"@);
            match find_in(e, live, "./NextPointeeId"@) {
                None => {},
                Some(i) => {
                    lemma_names();
                    let value = decimal(after(next) as int);
                    lemma_attribute_ids(e, i, "Value"@, value);
                    lemma_same_differ(e, with_attribute(e, i, "Value"@, value));
                },
            }
        },
    }
}

proof fn lemma_same_differ(d: Doc, e: Doc)
    requires
        same_ids(d, e),
        ids_differ(d),
    ensures
        ids_differ(e),
{
    assert forall|i: int, j: int|
        0 <= i < j < e.len() && has_global_id(#[trigger] e[i]) && has_global_id(
            #[trigger] e[j],
        ) implies id_of(e[i]) != id_of(e[j]) by {
        assert(d[i].attribute("Id"@) == e[i].attribute("Id"@));
        assert(d[j].attribute("Id"@) == e[j].attribute("Id"@));
    }
}

/// The numbers of the set's new tracks stay among those that are read as identities.
pub open spec fn numbers_suffice(root: Doc, plan: Plan, changes: Seq<TempoChange>) -> bool {
    match find_in(root, 0, "./LiveSet"@) {
        None => true,
        Some(live) => match tracks_up_to(
            plan,
            first_free(timed(root, live, changes)),
            plan.samples.len() as int,
        ) {
            None => true,
            Some(p) => p.next <= i64::MAX,
        },
    }
}

proof fn lemma_points_unique(d: Doc, at: int, points: Seq<TimedText>, to: int)
    requires
        0 <= at < d.len(),
        0 <= to,
        unique_in(d, 0, to),
        points.len() <= LOCAL_ID_THRESHOLD,
    ensures
        unique_in(with_points(d, at, points), 0, to),
        with_points(d, at, points).len() >= d.len(),
    decreases points.len(),
{
    if points.len() > 0 {
        lemma_points_unique(d, at, points.drop_last(), to);
        lemma_names();
        let n = points.len() - 1;
        lemma_small_id(n);
        let part: Doc = seq![float_event(0, decimal(n), points.last().0, points.last().1)];
        assert(part[0].attribute("Id"@) == Some(decimal(n)));
        lemma_no_ids(part, to);
        let e = with_points(d, at, points.drop_last());
        lemma_child_nodes(e, at, part);
        lemma_child_ids(e, at, part, 0, to, to);
    }
}

proof fn lemma_new_points_unique(
    d: Doc,
    envelopes: Seq<int>,
    target: Seq<char>,
    points: Seq<TimedText>,
    live: int,
    to: int,
)
    requires
        0 <= to,
        unique_in(d, 0, to),
        points.len() <= LOCAL_ID_THRESHOLD,
        0 <= live < d.len(),
        forall|i: int| 0 <= i < envelopes.len() ==> live <= #[trigger] envelopes[i] < d.len(),
        forall|i: int, j: int|
            0 <= i < j < envelopes.len() ==> #[trigger] envelopes[i] < #[trigger] envelopes[j],
    ensures
        unique_in(with_new_points_in(d, envelopes, target, points), 0, to),
        live < with_new_points_in(d, envelopes, target, points).len(),
    decreases envelopes.len(),
{
    if envelopes.len() > 0 {
        let at = envelopes.last();
        assert(at == envelopes[envelopes.len() - 1]);
        let path = ".//Automation/Events"@;
        lemma_find(d, at, path);
        match find_in(d, at, path) {
            None => {},
            Some(i) => {
                lemma_end(d, d[i].depth, i + 1);
                lemma_without_ids(d, i, 0, to);
                lemma_points_unique(without_children(d, i), i, points, to);
            },
        }
        let e = with_new_points(d, at, target, points);
        let rest = envelopes.drop_last();
        assert forall|i: int| 0 <= i < rest.len() implies live <= #[trigger] rest[i] < e.len() by {
            assert(rest[i] == envelopes[i]);
        }
        assert forall|i: int, j: int| 0 <= i < j < rest.len() implies #[trigger] rest[i]
            < #[trigger] rest[j] by {
            assert(rest[i] == envelopes[i] && rest[j] == envelopes[j]);
        }
        lemma_new_points_unique(e, rest, target, points, live, to);
    }
}

pub(crate) proof fn lemma_tempo_unique(
    d: Doc,
    live: int,
    value: Seq<char>,
    points: Seq<TimedText>,
    to: int,
)
    requires
        0 <= to,
        0 <= live < d.len(),
        unique_in(d, 0, to),
        points.len() <= LOCAL_ID_THRESHOLD,
    ensures
        unique_in(with_tempo(d, live, value, points), 0, to),
        live < with_tempo(d, live, value, points).len(),
{
    reveal(with_tempo);
    lemma_names();
    lemma_find(d, live, ".//Tempo/Manual"@);
    let shown = with_shown_tempo(d, live, value);
    match find_in(d, live, ".//Tempo/Manual"@) {
        None => {},
        Some(i) => {
            lemma_attribute_ids(d, i, "Value"@, value);
            lemma_same_ids(d, shown, 0, to);
        },
    }
    lemma_find(shown, live, ".//Tempo/AutomationTarget"@);
    match find_in(shown, live, ".//Tempo/AutomationTarget"@) {
        None => {},
        Some(t) => match shown[t].attribute("Id"@) {
            None => {},
            Some(target) => {
                lemma_find(shown, live, ".//MainTrack"@);
                match find_in(shown, live, ".//MainTrack"@) {
                    None => {},
                    Some(main) => {
                        let path = "./AutomationEnvelopes/Envelopes"@;
                        lemma_find(shown, main, path);
                        match find_in(shown, main, path) {
                            None => {},
                            Some(list) => {
                                let depth = shown[list].depth;
                                let name = "AutomationEnvelope"@;
                                lemma_end(shown, depth, list + 1);
                                lemma_children_places(
                                    shown,
                                    depth,
                                    list + 1,
                                    end_of(shown, list),
                                    name,
                                );
                                lemma_new_points_unique(
                                    shown,
                                    children_named(shown, list, name),
                                    target,
                                    points,
                                    live,
                                    to,
                                );
                            },
                        }
                    },
                }
            },
        },
    }
}

proof fn lemma_tempo_points(changes: Seq<TempoChange>)
    ensures
        tempo_points(changes).len() == 2 * changes.len(),
    decreases changes.len(),
{
    if changes.len() > 1 {
        lemma_tempo_points(changes.drop_last());
    }
}

pub(crate) proof fn lemma_largest_fits(d: Doc, k: int)
    ensures
        largest_id(d, k) <= i64::MAX,
    decreases k,
{
    if k > 0 {
        lemma_largest_fits(d, k - 1);
    }
}

/// Where no two nodes of the template's set have the same global identity, none of the set of a
/// song have: not those of its new tracks, not those of the return tracks, and not those of
/// anything else.
pub proof fn law_set_ids_are_unique(root: Doc, plan: Plan, changes: Seq<TempoChange>)
    requires
        root.len() > 0,
        ids_differ(root),
        templates_fit(plan),
        song_fits(plan),
        plan.samples.len() == plan.events.len(),
        2 * changes.len() <= LOCAL_ID_THRESHOLD,
        numbers_suffice(root, plan, changes),
    ensures
        set_of(root, plan, changes) matches Some(e) ==> ids_differ(e),
{
    lemma_find(root, 0, "./LiveSet"@);
    match find_in(root, 0, "./LiveSet"@) {
        None => {},
        Some(live) => {
            let d = timed(root, live, changes);
            let all = i64::MAX + 1;
            if changes.len() > 0 {
                lemma_tempo_points(changes);
                lemma_tempo_unique(
                    root,
                    live,
                    tempo_text(changes[0].tempo),
                    tempo_points(changes),
                    all,
                );
            }
            assert(unique_in(d, 0, all));
            let first = first_free(d);
            law_track_ids_are_unique(plan, first, plan.samples.len() as int);
            assert forall|i: int| 0 <= i < d.len() && has_global_id(#[trigger] d[i]) implies 0
                <= id_of(d[i]) < first by {
                law_largest_id_bounds(d, d.len() as int, i);
                lemma_largest_fits(d, d.len() as int);
            }
            match tracks_up_to(plan, first, plan.samples.len() as int) {
                None => {},
                Some(p) => lemma_with_tracks_differs(d, live, p.tracks, p.next, first as int),
            }
        },
    }
}

} // verus!
