//! What stands in a clip, once it is made.
use crate::export::automation::number_text;
use crate::export::clip::{
    clip_of, clip_values, first_note, key_track, notes_at, pitches_of, with_key_tracks, ClippedNote,
};
use crate::export::sampler::{file_values, with_file};
use crate::export::unique::{lemma_named_places, lemma_shape_chain};
use crate::export::vgm_als::{
    audio_clip, audio_clip_values, second_micros, sound_values, AudioSegmentView,
};
use crate::laws::instruments::{
    audio_clip_paths, clip_paths, law_audio_clips_are_placed, law_clips_are_placed,
};
use crate::laws::parts::law_parts_are_put_last;
use crate::laws::paths::{
    end_otherwise, ends_in_name, law_other_values_are_kept, law_paths_lead_past_new_parts,
    law_paths_lead_past_what_is_cleared, lemma_leads_to_its_name,
};
use crate::laws::tracks::{
    lemma_chain_depth, lemma_still_apart, lemma_values_at_keep, lemma_values_shape,
};
use crate::laws::values::{lead_apart, value_at};
use crate::text::decimal;
use crate::xmlutil::{
    end_of, find_in, is_deep, is_direct, lemma_end, lemma_find, lemma_pieces, lemma_same_find,
    named_up_to, pieces, same_shape, with_attribute, with_value, with_values, without_children, Doc,
};
use vstd::prelude::*;

verus! {

/// The path leads so far down from the root, child by child.
pub open spec fn leads_down(path: Seq<char>, by: nat) -> bool {
    &&& is_direct(path)
    &&& !is_deep(path)
    &&& pieces(path.skip(2)).len() == by
}

proof fn lemma_one_piece(s: Seq<char>)
    requires
        forall|i: int| 0 <= i < s.len() ==> #[trigger] s[i] != '/',
    ensures
        pieces(s).len() == 1,
    decreases s.len(),
{
    if s.len() > 0 {
        let t = s.drop_last();
        assert forall|i: int| 0 <= i < t.len() implies #[trigger] t[i] != '/' by {
            assert(t[i] == s[i]);
        }
        lemma_one_piece(t);
        assert(s.last() == s[s.len() - 1]);
    }
}

proof fn lemma_two_pieces(s: Seq<char>, k: int)
    requires
        0 <= k < s.len(),
        s[k] == '/',
        forall|i: int| 0 <= i < s.len() && i != k ==> #[trigger] s[i] != '/',
    ensures
        pieces(s).len() == 2,
    decreases s.len(),
{
    let t = s.drop_last();
    assert(s.last() == s[s.len() - 1]);
    if k == s.len() - 1 {
        assert forall|i: int| 0 <= i < t.len() implies #[trigger] t[i] != '/' by {
            assert(t[i] == s[i]);
        }
        lemma_one_piece(t);
    } else {
        assert forall|i: int| 0 <= i < t.len() && i != k implies #[trigger] t[i] != '/' by {
            assert(t[i] == s[i]);
        }
        assert(t[k] == s[k]);
        lemma_two_pieces(t, k);
    }
}

proof fn lemma_depth_of_name()
    ensures
        leads_down("./Name"@, 1),
{
    reveal_strlit("./Name");
    let s = "./Name"@.skip(2);
    assert(s.len() == 4);
    assert forall|i: int| 0 <= i < s.len() implies s[i] != '/' by {
        assert(i == 0 || i == 1 || i == 2 || i == 3);
    }
    lemma_one_piece(s);
}

proof fn lemma_depth_of_color()
    ensures
        leads_down("./Color"@, 1),
{
    reveal_strlit("./Color");
    let s = "./Color"@.skip(2);
    assert(s.len() == 5);
    assert forall|i: int| 0 <= i < s.len() implies s[i] != '/' by {
        assert(i == 0 || i == 1 || i == 2 || i == 3 || i == 4);
    }
    lemma_one_piece(s);
}

proof fn lemma_depth_of_currentstart()
    ensures
        leads_down("./CurrentStart"@, 1),
{
    reveal_strlit("./CurrentStart");
    let s = "./CurrentStart"@.skip(2);
    assert(s.len() == 12);
    assert forall|i: int| 0 <= i < s.len() implies s[i] != '/' by {
        assert(i == 0 || i == 1 || i == 2 || i == 3 || i == 4 || i == 5 || i == 6 || i == 7
            || i == 8 || i == 9 || i == 10 || i == 11);
    }
    lemma_one_piece(s);
}

proof fn lemma_depth_of_loop_loopstart()
    ensures
        leads_down("./Loop/LoopStart"@, 2),
{
    reveal_strlit("./Loop/LoopStart");
    let s = "./Loop/LoopStart"@.skip(2);
    assert(s.len() == 14);
    assert forall|i: int| 0 <= i < s.len() && i != 4 implies s[i] != '/' by {
        assert(i == 0 || i == 1 || i == 2 || i == 3 || i == 4 || i == 5 || i == 6 || i == 7
            || i == 8 || i == 9 || i == 10 || i == 11 || i == 12 || i == 13);
    }
    assert(s[4] == '/');
    lemma_two_pieces(s, 4);
}

proof fn lemma_depth_of_loop_hiddenloopstart()
    ensures
        leads_down("./Loop/HiddenLoopStart"@, 2),
{
    reveal_strlit("./Loop/HiddenLoopStart");
    let s = "./Loop/HiddenLoopStart"@.skip(2);
    assert(s.len() == 20);
    assert forall|i: int| 0 <= i < s.len() && i != 4 implies s[i] != '/' by {
        assert(i == 0 || i == 1 || i == 2 || i == 3 || i == 4 || i == 5 || i == 6 || i == 7
            || i == 8 || i == 9 || i == 10 || i == 11 || i == 12 || i == 13 || i == 14 || i == 15
            || i == 16 || i == 17 || i == 18 || i == 19);
    }
    assert(s[4] == '/');
    lemma_two_pieces(s, 4);
}

proof fn lemma_depth_of_currentend()
    ensures
        leads_down("./CurrentEnd"@, 1),
{
    reveal_strlit("./CurrentEnd");
    let s = "./CurrentEnd"@.skip(2);
    assert(s.len() == 10);
    assert forall|i: int| 0 <= i < s.len() implies s[i] != '/' by {
        assert(i == 0 || i == 1 || i == 2 || i == 3 || i == 4 || i == 5 || i == 6 || i == 7
            || i == 8 || i == 9);
    }
    lemma_one_piece(s);
}

proof fn lemma_depth_of_loop_loopend()
    ensures
        leads_down("./Loop/LoopEnd"@, 2),
{
    reveal_strlit("./Loop/LoopEnd");
    let s = "./Loop/LoopEnd"@.skip(2);
    assert(s.len() == 12);
    assert forall|i: int| 0 <= i < s.len() && i != 4 implies s[i] != '/' by {
        assert(i == 0 || i == 1 || i == 2 || i == 3 || i == 4 || i == 5 || i == 6 || i == 7
            || i == 8 || i == 9 || i == 10 || i == 11);
    }
    assert(s[4] == '/');
    lemma_two_pieces(s, 4);
}

proof fn lemma_depth_of_loop_outmarker()
    ensures
        leads_down("./Loop/OutMarker"@, 2),
{
    reveal_strlit("./Loop/OutMarker");
    let s = "./Loop/OutMarker"@.skip(2);
    assert(s.len() == 14);
    assert forall|i: int| 0 <= i < s.len() && i != 4 implies s[i] != '/' by {
        assert(i == 0 || i == 1 || i == 2 || i == 3 || i == 4 || i == 5 || i == 6 || i == 7
            || i == 8 || i == 9 || i == 10 || i == 11 || i == 12 || i == 13);
    }
    assert(s[4] == '/');
    lemma_two_pieces(s, 4);
}

proof fn lemma_depth_of_loop_hiddenloopend()
    ensures
        leads_down("./Loop/HiddenLoopEnd"@, 2),
{
    reveal_strlit("./Loop/HiddenLoopEnd");
    let s = "./Loop/HiddenLoopEnd"@.skip(2);
    assert(s.len() == 18);
    assert forall|i: int| 0 <= i < s.len() && i != 4 implies s[i] != '/' by {
        assert(i == 0 || i == 1 || i == 2 || i == 3 || i == 4 || i == 5 || i == 6 || i == 7
            || i == 8 || i == 9 || i == 10 || i == 11 || i == 12 || i == 13 || i == 14 || i == 15
            || i == 16 || i == 17);
    }
    assert(s[4] == '/');
    lemma_two_pieces(s, 4);
}

proof fn lemma_depth_of_notes_keytracks()
    ensures
        leads_down("./Notes/KeyTracks"@, 2),
{
    reveal_strlit("./Notes/KeyTracks");
    let s = "./Notes/KeyTracks"@.skip(2);
    assert(s.len() == 15);
    assert forall|i: int| 0 <= i < s.len() && i != 5 implies s[i] != '/' by {
        assert(i == 0 || i == 1 || i == 2 || i == 3 || i == 4 || i == 5 || i == 6 || i == 7
            || i == 8 || i == 9 || i == 10 || i == 11 || i == 12 || i == 13 || i == 14);
    }
    assert(s[5] == '/');
    lemma_two_pieces(s, 5);
}

proof fn lemma_depth_of_envelopes_envelopes()
    ensures
        leads_down("./Envelopes/Envelopes"@, 2),
{
    reveal_strlit("./Envelopes/Envelopes");
    let s = "./Envelopes/Envelopes"@.skip(2);
    assert(s.len() == 19);
    assert forall|i: int| 0 <= i < s.len() && i != 9 implies s[i] != '/' by {
        assert(i == 0 || i == 1 || i == 2 || i == 3 || i == 4 || i == 5 || i == 6 || i == 7
            || i == 8 || i == 9 || i == 10 || i == 11 || i == 12 || i == 13 || i == 14 || i == 15
            || i == 16 || i == 17 || i == 18);
    }
    assert(s[9] == '/');
    lemma_two_pieces(s, 9);
}

proof fn lemma_depths(k: int)
    requires
        0 <= k < clip_paths().len(),
    ensures
        leads_down(clip_paths()[k], 1) || leads_down(clip_paths()[k], 2),
{
    lemma_depth_of_name();
    lemma_depth_of_color();
    lemma_depth_of_currentstart();
    lemma_depth_of_loop_loopstart();
    lemma_depth_of_loop_hiddenloopstart();
    lemma_depth_of_currentend();
    lemma_depth_of_loop_loopend();
    lemma_depth_of_loop_outmarker();
    lemma_depth_of_loop_hiddenloopend();
    assert(k == 0 || k == 1 || k == 2 || k == 3 || k == 4 || k == 5 || k == 6 || k == 7 || k == 8);
}

/// What a path that leads no further down than a node leads to is not below that node.
proof fn lemma_not_below(d: Doc, path: Seq<char>, by: nat, over: Seq<char>)
    requires
        d.len() > 0,
        by <= 2,
        leads_down(path, by),
        leads_down(over, 2),
        find_in(d, 0, path) is Some,
        find_in(d, 0, over) is Some,
    ensures
        ({
            let i = find_in(d, 0, path)->0;
            let at = find_in(d, 0, over)->0;
            &&& 0 <= at < d.len()
            &&& d[at].depth == d[0].depth + 2
            &&& !(at < i < end_of(d, at))
        }),
{
    let i = find_in(d, 0, path)->0;
    let at = find_in(d, 0, over)->0;
    lemma_find(d, 0, path);
    lemma_find(d, 0, over);
    lemma_chain_depth(d, 0, pieces(path.skip(2)));
    lemma_chain_depth(d, 0, pieces(over.skip(2)));
    lemma_end(d, d[at].depth, at + 1);
}

proof fn lemma_keys_keep(d: Doc, at: int, notes: Seq<ClippedNote>, n: int, path: Seq<char>)
    requires
        0 <= at < d.len(),
        d[at].depth < usize::MAX,
        d[0].depth == 0,
        is_direct(path) && !is_deep(path),
        find_in(d, 0, path) is Some,
    ensures
        ({
            let e = with_key_tracks(d, at, notes, n);
            &&& e.len() > at
            &&& e[0] == d[0]
            &&& e[at] == d[at]
            &&& find_in(e, 0, path) is Some
            &&& value_at(e, 0, path) == value_at(d, 0, path)
        }),
    decreases n,
{
    if n > 0 {
        lemma_keys_keep(d, at, notes, n - 1, path);
        let e = with_key_tracks(d, at, notes, n - 1);
        let pitch = pitches_of(notes)[n - 1];
        let part = key_track(n - 1, pitch, notes_at(notes, pitch), first_note(notes, n - 1));
        law_paths_lead_past_new_parts(e, at, part, path);
        law_parts_are_put_last(e, at, part, part, 0);
    }
}

/// A value set where a path leads that another path does not lead to, as their names end
/// otherwise, leaves that other's.
proof fn lemma_other_value(d: Doc, path: Seq<char>, other: Seq<char>, value: Seq<char>)
    requires
        d.len() > 0,
        find_in(d, 0, path) is Some,
        find_in(d, 0, other) != find_in(d, 0, path),
    ensures
        with_value(d, 0, other, value) matches Some(e) ==> same_shape(d, e) && value_at(e, 0, path)
            == value_at(d, 0, path) && e.len() == d.len() && (find_in(d, 0, other) != Some(0int)
            ==> e[0] == d[0]),
{
    lemma_find(d, 0, path);
    lemma_find(d, 0, other);
    match with_value(d, 0, other, value) {
        None => {},
        Some(e) => {
            assert(same_shape(d, e));
            lemma_same_find(d, e, 0, path);
        },
    }
}

/// A clip, once it is made, begins and ends where it was to, is named and colored as it was to
/// be, and loops over all of itself.
pub proof fn law_made_clips_say_where_they_stand(
    template: Doc,
    title: Seq<char>,
    start: i64,
    end: i64,
    notes: Seq<ClippedNote>,
    index: int,
    color: int,
    k: int,
)
    requires
        template.len() > 0,
        template[0].depth == 0,
        lead_apart(template, 0, clip_paths()),
        0 <= k < clip_paths().len(),
    ensures
        clip_of(template, title, start, end, notes, index, color) matches Some(c) ==> value_at(
            c,
            0,
            clip_paths()[k],
        ) == Some(
            if k == 0 {
                title
            } else if k == 1 {
                decimal(color)
            } else if 2 <= k <= 4 {
                number_text(start as int)
            } else {
                number_text(end as int)
            },
        ),
{
    let path = clip_paths()[k];
    lemma_depths(k);
    lemma_depth_of_notes_keytracks();
    lemma_depth_of_envelopes_envelopes();
    let numbered = with_attribute(template, 0, "Id"@, decimal(index));
    let placed = with_attribute(numbered, 0, "Time"@, number_text(start as int));
    let values = clip_values(
        title,
        decimal(color),
        number_text(start as int),
        number_text(end as int),
    );
    assert(same_shape(template, placed));
    lemma_still_apart(template, placed, clip_paths());
    law_clips_are_placed(
        placed,
        0,
        title,
        decimal(color),
        number_text(start as int),
        number_text(end as int),
    );
    lemma_values_shape(placed, 0, values);
    match clip_of(template, title, start, end, notes, index, color) {
        None => {},
        Some(c) => {
            let valued = with_values(placed, 0, values)->0;
            assert(k == 0 || k == 1 || k == 2 || k == 3 || k == 4 || k == 5 || k == 6 || k == 7
                || k == 8);
            assert(value_at(valued, 0, path) is Some);
            assert(valued[0].depth == placed[0].depth);
            let by = pieces(path.skip(2)).len();
            lemma_made(valued, notes, path, by);
        },
    }
}

/// What is done to a clip once its values are set keeps them.
proof fn lemma_made(valued: Doc, notes: Seq<ClippedNote>, path: Seq<char>, by: nat)
    requires
        valued.len() > 0,
        valued[0].depth == 0,
        by <= 2,
        leads_down(path, by),
        leads_down("./Notes/KeyTracks"@, 2),
        leads_down("./Envelopes/Envelopes"@, 2),
        find_in(valued, 0, path) is Some,
    ensures
        finished(valued, notes) matches Some(c) ==> value_at(c, 0, path) == value_at(
            valued,
            0,
            path,
        ),
{
    match find_in(valued, 0, "./Notes/KeyTracks"@) {
        None => {},
        Some(at) => {
            lemma_not_below(valued, path, by, "./Notes/KeyTracks"@);
            law_paths_lead_past_what_is_cleared(valued, at, path);
            let cleared = without_children(valued, at);
            lemma_keys_keep(cleared, at, notes, pitches_of(notes).len() as int, path);
            let keyed = with_key_tracks(cleared, at, notes, pitches_of(notes).len() as int);
            let next = "./Notes/NoteIdGenerator/NextId"@;
            lemma_next_id(keyed, path, by);
            lemma_other_value(keyed, path, next, decimal(notes.len() as int + 1));
            match with_value(keyed, 0, next, decimal(notes.len() as int + 1)) {
                None => {},
                Some(counted) => {
                    lemma_same_find(keyed, counted, 0, path);
                    match find_in(counted, 0, "./Envelopes/Envelopes"@) {
                        None => {},
                        Some(envelopes) => {
                            lemma_not_below(counted, path, by, "./Envelopes/Envelopes"@);
                            law_paths_lead_past_what_is_cleared(counted, envelopes, path);
                        },
                    }
                },
            }
        },
    }
}

/// The generator of note numbers is further down than what a clip's values are.
proof fn lemma_next_id(d: Doc, path: Seq<char>, by: nat)
    requires
        d.len() > 0,
        by <= 2,
        leads_down(path, by),
        find_in(d, 0, path) is Some,
    ensures
        find_in(d, 0, "./Notes/NoteIdGenerator/NextId"@) != find_in(d, 0, path),
{
    let next = "./Notes/NoteIdGenerator/NextId"@;
    reveal_strlit("./Notes/NoteIdGenerator/NextId");
    let s = next.skip(2);
    assert(s.len() == 28);
    assert(s[5] == '/' && s[21] == '/');
    lemma_slashes(s.take(22), 5);
    lemma_longer(s, 22);
    lemma_find(d, 0, next);
    lemma_find(d, 0, path);
    lemma_chain_depth(d, 0, pieces(path.skip(2)));
    lemma_chain_depth(d, 0, pieces(s));
}

/// A slash at the end and one before it make three pieces at least.
proof fn lemma_slashes(s: Seq<char>, k: int)
    requires
        0 <= k < s.len() - 1,
        s[k] == '/',
        s.last() == '/',
    ensures
        pieces(s).len() >= 3,
{
    let t = s.drop_last();
    lemma_longer(t, k + 1);
    let u = t.take(k + 1);
    assert(u.last() == '/');
    lemma_pieces(u.drop_last());
    assert(pieces(u).len() >= 2);
}

/// A longer text has no fewer pieces.
proof fn lemma_longer(s: Seq<char>, k: int)
    requires
        0 <= k <= s.len(),
    ensures
        pieces(s.take(k)).len() <= pieces(s).len(),
    decreases s.len(),
{
    if k == s.len() {
        assert(s.take(k) =~= s);
    } else {
        let t = s.drop_last();
        lemma_longer(t, k);
        assert(t.take(k) =~= s.take(k));
        lemma_pieces(t);
    }
}

/// A clip whose values are set, with its notes in it and no envelopes.
spec fn finished(valued: Doc, notes: Seq<ClippedNote>) -> Option<Doc> {
    match find_in(valued, 0, "./Notes/KeyTracks"@) {
        None => None,
        Some(tracks) => {
            let keyed = with_key_tracks(
                without_children(valued, tracks),
                tracks,
                notes,
                pitches_of(notes).len() as int,
            );
            match with_value(
                keyed,
                0,
                "./Notes/NoteIdGenerator/NextId"@,
                decimal(notes.len() as int + 1),
            ) {
                None => None,
                Some(counted) => match find_in(counted, 0, "./Envelopes/Envelopes"@) {
                    None => None,
                    Some(envelopes) => Some(without_children(counted, envelopes)),
                },
            }
        },
    }
}

/// An audio clip, once it is made, stands from its start to its end and plays all of its file
/// once.
pub proof fn law_made_audio_clips_say_where_they_stand(
    template: Doc,
    id: int,
    start: i64,
    end: i64,
    name: Seq<char>,
    color: int,
    segment: AudioSegmentView,
    k: int,
)
    requires
        template.len() > 0,
        lead_apart(template, 0, audio_clip_paths()),
        0 <= k <= 7 || k == 9,
    ensures
        audio_clip(template, id, start, end, name, color, segment) matches Some(c) ==> value_at(
            c,
            0,
            audio_clip_paths()[k],
        ) == Some(
            if k == 0 {
                number_text(start as int)
            } else if k == 1 || k == 6 {
                number_text(end as int)
            } else if k == 2 || k == 4 {
                "0"@
            } else if k == 3 || k == 5 {
                number_text(second_micros(segment.frames) as int)
            } else if k == 7 {
                "false"@
            } else {
                decimal(color)
            },
        ),
{
    let path = audio_clip_paths()[k];
    let numbered = with_attribute(template, 0, "Id"@, decimal(id));
    let placed = with_attribute(numbered, 0, "Time"@, number_text(start as int));
    let length = number_text(second_micros(segment.frames) as int);
    let values = audio_clip_values(
        number_text(start as int),
        number_text(end as int),
        length,
        name,
        color,
    );
    assert(same_shape(template, placed));
    lemma_still_apart(template, placed, audio_clip_paths());
    law_audio_clips_are_placed(
        placed,
        0,
        number_text(start as int),
        number_text(end as int),
        length,
        name,
        color,
    );
    lemma_values_shape(placed, 0, values);
    lemma_audio_ends(k, segment);
    match with_values(placed, 0, values) {
        None => {},
        Some(d) => {
            assert(k == 0 || k == 1 || k == 2 || k == 3 || k == 4 || k == 5 || k == 6 || k == 7
                || k == 9);
            assert(value_at(d, 0, path) is Some);
            lemma_find(d, 0, path);
            let i = find_in(d, 0, path)->0;
            let named = d[i].content->name;
            assert(d[i].is_named(named));
            lemma_leads_to_its_name(d, 0, path, i, named);
            lemma_end(d, d[0].depth, 1);
            let list = named_up_to(d, 1, end_of(d, 0), "FileRef"@);
            lemma_named_places(d, 1, end_of(d, 0), "FileRef"@);
            lemma_values_at_keep(
                d,
                list,
                file_values(segment.wav, segment.file),
                path,
                i,
                named,
            );
            match with_file(d, 0, segment.wav, segment.file) {
                None => {},
                Some(e) => {
                    assert(e[i].is_named(named) == d[i].is_named(named));
                    let sound = sound_values(segment.frames as int, segment.file.now);
                    law_other_values_are_kept(e, 0, sound, path, i, named);
                    match with_values(e, 0, sound) {
                        None => {},
                        Some(f) => {
                            lemma_shape_chain(d, e, f);
                            lemma_same_find(d, f, 0, path);
                        },
                    }
                },
            }
        },
    }
}

proof fn lemma_audio_ends(k: int, segment: AudioSegmentView)
    requires
        0 <= k <= 7 || k == 9,
    ensures
        ends_in_name(audio_clip_paths()[k]),
        end_otherwise(file_values(segment.wav, segment.file), audio_clip_paths()[k]),
        end_otherwise(
            sound_values(segment.frames as int, segment.file.now),
            audio_clip_paths()[k],
        ),
{
    reveal_strlit("./CurrentStart");
    reveal_strlit("./CurrentEnd");
    reveal_strlit("./Loop/LoopStart");
    reveal_strlit("./Loop/LoopEnd");
    reveal_strlit("./Loop/HiddenLoopStart");
    reveal_strlit("./Loop/HiddenLoopEnd");
    reveal_strlit("./Loop/OutMarker");
    reveal_strlit("./Loop/LoopOn");
    reveal_strlit("./Color");
    reveal_strlit("./RelativePathType");
    reveal_strlit("./RelativePath");
    reveal_strlit("./Path");
    reveal_strlit("./Type");
    reveal_strlit("./LivePackName");
    reveal_strlit("./LivePackId");
    reveal_strlit("./OriginalFileSize");
    reveal_strlit("./OriginalCrc");
    reveal_strlit("./SampleRef/LastModDate");
    reveal_strlit("./SampleRef/DefaultDuration");
    reveal_strlit("./SampleRef/DefaultSampleRate");
    reveal_strlit("./SampleRef/SamplesToAutoWarp");
    assert(k == 0 || k == 1 || k == 2 || k == 3 || k == 4 || k == 5 || k == 6 || k == 7 || k == 9);
}

} // verus!
