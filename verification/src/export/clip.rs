//! MIDI clips of the Arrangement.
use crate::export::automation::{
    add_element, attr1, element_at, fmt_number, number_text, with_attr,
};
use crate::text::{count_text, decimal, decimal_string};
use crate::xmlutil::{
    find, find_in, is_tree, pairs, set_value, set_values, with_attribute, with_child, with_value,
    with_values, without_children, Doc, Document, NodeView,
};
use vstd::prelude::*;

verus! {

/// A clip holds fewer notes than this.
pub const MAX_NOTES: usize = 0xffff_ffff;

/// A note of a clip, with its times in millionths of a beat. They count from the start of the
/// song, not of the clip.
#[derive(Debug, Clone, Copy, PartialEq, Eq, Structural)]
pub struct ClippedNote {
    pub start: i64,
    pub duration: i64,
    pub velocity: i32,
    pub pitch: i32,
}

/// The pitch put into an ascending list, unless it is there.
pub open spec fn insert_pitch(s: Seq<i32>, x: i32) -> Seq<i32>
    decreases s.len(),
{
    if s.len() == 0 || s.last() < x {
        s.push(x)
    } else if s.last() == x {
        s
    } else {
        insert_pitch(s.drop_last(), x).push(s.last())
    }
}

/// The pitches of the notes, ascending, each once.
pub open spec fn pitches_of(notes: Seq<ClippedNote>) -> Seq<i32>
    decreases notes.len(),
{
    if notes.len() == 0 {
        Seq::empty()
    } else {
        insert_pitch(pitches_of(notes.drop_last()), notes.last().pitch)
    }
}

/// The notes of a pitch, in order.
pub open spec fn notes_at(notes: Seq<ClippedNote>, pitch: i32) -> Seq<ClippedNote>
    decreases notes.len(),
{
    if notes.len() == 0 {
        Seq::empty()
    } else if notes.last().pitch == pitch {
        notes_at(notes.drop_last(), pitch).push(notes.last())
    } else {
        notes_at(notes.drop_last(), pitch)
    }
}

fn add_pitch(list: &mut Vec<i32>, x: i32)
    ensures
        final(list)@ == insert_pitch(old(list)@, x),
{
    let ghost start = list@;
    let mut i: usize = list.len();
    let ghost mut tail: Seq<i32> = Seq::empty();
    proof {
        assert(start.take(i as int) =~= start);
        assert(insert_pitch(start, x) + tail =~= insert_pitch(start, x));
        assert(start.take(i as int) + tail =~= start);
    }
    while i > 0 && list[i - 1] > x
        invariant
            i <= list.len(),
            list@ == start,
            start.take(i as int) + tail == start,
            insert_pitch(start.take(i as int), x) + tail == insert_pitch(start, x),
        decreases i,
    {
        proof {
            let cur = start.take(i as int);
            assert(cur.last() == list[i - 1]);
            assert(cur.drop_last() =~= start.take(i - 1));
            assert(insert_pitch(cur.drop_last(), x).push(cur.last()) + tail =~= insert_pitch(
                start.take(i - 1),
                x,
            ) + (seq![cur.last()] + tail));
            assert(start.take(i - 1) + (seq![cur.last()] + tail) =~= start.take(i as int) + tail);
            tail = seq![cur.last()] + tail;
        }
        i -= 1;
    }
    if i > 0 && list[i - 1] == x {
        assert(start.take(i as int).last() == x);
        return ;
    }
    proof {
        let cur = start.take(i as int);
        if i > 0 {
            assert(cur.last() == list[i - 1]);
        }
        assert(insert_pitch(cur, x) == cur.push(x));
        assert(cur.push(x) + tail =~= start.insert(i as int, x));
    }
    list.insert(i, x);
}

fn collect_pitches(notes: &Vec<ClippedNote>) -> (r: Vec<i32>)
    ensures
        r@ == pitches_of(notes@),
{
    let mut list: Vec<i32> = Vec::new();
    let mut i: usize = 0;
    assert(notes@.take(0) =~= Seq::<ClippedNote>::empty());
    while i < notes.len()
        invariant
            i <= notes.len(),
            list@ == pitches_of(notes@.take(i as int)),
        decreases notes.len() - i,
    {
        proof {
            assert(notes@.take(i + 1).drop_last() =~= notes@.take(i as int));
            assert(notes@.take(i + 1).last() == notes[i as int]);
        }
        add_pitch(&mut list, notes[i].pitch);
        i += 1;
    }
    assert(notes@.take(i as int) =~= notes@);
    list
}

proof fn lemma_pitches(notes: Seq<ClippedNote>)
    ensures
        ({
            let p = pitches_of(notes);
            &&& forall|i: int, j: int| 0 <= i < j < p.len() ==> p[i] < p[j]
            &&& forall|x: i32| #[trigger]
                p.contains(x) <==> exists|k: int|
                    0 <= k < notes.len() && (#[trigger] notes[k]).pitch == x
        }),
    decreases notes.len(),
{
    if notes.len() > 0 {
        let d = notes.drop_last();
        lemma_pitches(d);
        lemma_insert_pitch(pitches_of(d), notes.last().pitch);
        let p = pitches_of(notes);
        assert forall|x: i32| #[trigger] p.contains(x) <==> exists|k: int|
            0 <= k < notes.len() && (#[trigger] notes[k]).pitch == x by {
            if pitches_of(d).contains(x) {
                let k = choose|k: int| 0 <= k < d.len() && (#[trigger] d[k]).pitch == x;
                assert(notes[k].pitch == x);
            }
            if x == notes.last().pitch {
                assert(notes[notes.len() - 1].pitch == x);
            }
            if exists|k: int| 0 <= k < notes.len() && (#[trigger] notes[k]).pitch == x {
                let k = choose|k: int| 0 <= k < notes.len() && (#[trigger] notes[k]).pitch == x;
                if k < d.len() {
                    assert(d[k].pitch == x);
                }
            }
        }
    }
}

proof fn lemma_insert_pitch(s: Seq<i32>, x: i32)
    requires
        forall|i: int, j: int| 0 <= i < j < s.len() ==> s[i] < s[j],
    ensures
        ({
            let r = insert_pitch(s, x);
            &&& forall|i: int, j: int| 0 <= i < j < r.len() ==> r[i] < r[j]
            &&& forall|y: i32| #[trigger] r.contains(y) <==> s.contains(y) || y == x
        }),
    decreases s.len(),
{
    let r = insert_pitch(s, x);
    if s.len() == 0 || s.last() < x {
        assert forall|y: i32| #[trigger] r.contains(y) <==> s.contains(y) || y == x by {
            if r.contains(y) {
                let i = choose|i: int| 0 <= i < r.len() && r[i] == y;
                if i < s.len() {
                    assert(s[i] == y);
                }
            }
            if s.contains(y) {
                let i = choose|i: int| 0 <= i < s.len() && s[i] == y;
                assert(r[i] == y);
            }
            if y == x {
                assert(r[s.len() as int] == y);
            }
        }
    } else if s.last() == x {
        assert(s[s.len() - 1] == x);
    } else {
        let d = s.drop_last();
        lemma_insert_pitch(d, x);
        let p = insert_pitch(d, x);
        assert forall|i: int, j: int| 0 <= i < j < r.len() implies r[i] < r[j] by {
            if j == p.len() {
                assert(p.contains(p[i]));
                if d.contains(p[i]) {
                    let q = choose|q: int| 0 <= q < d.len() && d[q] == p[i];
                    assert(s[q] < s[s.len() - 1]);
                }
            }
        }
        assert forall|y: i32| #[trigger] r.contains(y) <==> s.contains(y) || y == x by {
            if r.contains(y) {
                let i = choose|i: int| 0 <= i < r.len() && r[i] == y;
                if i < p.len() {
                    assert(p.contains(y));
                    if d.contains(y) {
                        let q = choose|q: int| 0 <= q < d.len() && d[q] == y;
                        assert(s[q] == y);
                    }
                } else {
                    assert(s[s.len() - 1] == y);
                }
            }
            if s.contains(y) {
                let i = choose|i: int| 0 <= i < s.len() && s[i] == y;
                if i < d.len() {
                    assert(d[i] == y);
                    assert(p.contains(y));
                    let q = choose|q: int| 0 <= q < p.len() && p[q] == y;
                    assert(r[q] == y);
                } else {
                    assert(r[p.len() as int] == y);
                }
            }
            if y == x {
                assert(p.contains(y));
                let q = choose|q: int| 0 <= q < p.len() && p[q] == y;
                assert(r[q] == y);
            }
        }
    }
}

/// The key tracks of a clip stand in the order of their pitches, one for every pitch that has
/// a note and none for another.
pub proof fn law_key_tracks_by_pitch(notes: Seq<ClippedNote>)
    ensures
        forall|i: int, j: int|
            0 <= i < j < pitches_of(notes).len() ==> pitches_of(notes)[i] < pitches_of(notes)[j],
        forall|x: i32| #[trigger]
            pitches_of(notes).contains(x) <==> exists|k: int|
                0 <= k < notes.len() && (#[trigger] notes[k]).pitch == x,
{
    lemma_pitches(notes);
}

/// A note as an element of a key track.
pub open spec fn note_event(n: ClippedNote, id: int) -> NodeView {
    element_at(
        2,
        "MidiNoteEvent"@,
        attr1("Time"@, number_text(n.start as int)).insert(
            "Duration"@,
            number_text(n.duration as int),
        ).insert("Velocity"@, decimal(n.velocity as int)).insert("OffVelocity"@, "64"@).insert(
            "NoteId"@,
            decimal(id),
        ),
    )
}

/// The notes of a key track, numbered from `first` on.
pub open spec fn note_nodes(notes: Seq<ClippedNote>, first: int) -> Doc
    decreases notes.len(),
{
    if notes.len() == 0 {
        Seq::empty()
    } else {
        note_nodes(notes.drop_last(), first).push(
            note_event(notes.last(), first + notes.len() - 1),
        )
    }
}

/// The key track of a pitch.
pub open spec fn key_track(id: int, pitch: i32, notes: Seq<ClippedNote>, first: int) -> Doc {
    seq![
        element_at(0, "KeyTrack"@, attr1("Id"@, decimal(id))),
        element_at(1, "Notes"@, Map::empty()),
    ] + note_nodes(notes, first) + seq![
        element_at(1, "MidiKey"@, attr1("Value"@, decimal(pitch as int))),
    ]
}

/// The number of the first note of key track `k`: notes are numbered from 1, key track after
/// key track.
pub open spec fn first_note(notes: Seq<ClippedNote>, k: int) -> int
    decreases k,
{
    if k <= 0 {
        1
    } else {
        first_note(notes, k - 1) + notes_at(notes, pitches_of(notes)[k - 1]).len()
    }
}

/// The clip with the first `k` key tracks put below the list of them at `at`.
pub open spec fn with_key_tracks(d: Doc, at: int, notes: Seq<ClippedNote>, k: int) -> Doc
    decreases k,
{
    if k <= 0 {
        d
    } else {
        let pitch = pitches_of(notes)[k - 1];
        with_child(
            with_key_tracks(d, at, notes, k - 1),
            at,
            key_track(k - 1, pitch, notes_at(notes, pitch), first_note(notes, k - 1)),
        )
    }
}

/// The values of a clip. Its bounds are times of the Arrangement, not of the clip: left at the
/// template's, all clips of a track would lie over each other at the start.
pub open spec fn clip_values(name: Seq<char>, color: Seq<char>, start: Seq<char>, end: Seq<char>) -> Seq<
    (Seq<char>, Seq<char>),
> {
    seq![
        ("./Name"@, name),
        ("./Color"@, color),
        ("./CurrentStart"@, start),
        ("./Loop/LoopStart"@, start),
        ("./Loop/HiddenLoopStart"@, start),
        ("./CurrentEnd"@, end),
        ("./Loop/LoopEnd"@, end),
        ("./Loop/OutMarker"@, end),
        ("./Loop/HiddenLoopEnd"@, end),
    ]
}

/// A clip made of the template's: its place and name, and its notes by pitch. It has no
/// envelopes of its own; those are not read for a clip of the Arrangement. None where the
/// template lacks a part, or where there are more notes than a clip can number.
pub open spec fn clip_of(
    template: Doc,
    name: Seq<char>,
    start: i64,
    end: i64,
    notes: Seq<ClippedNote>,
    index: int,
    color: int,
) -> Option<Doc> {
    let placed = with_attribute(
        with_attribute(template, 0, "Id"@, decimal(index)),
        0,
        "Time"@,
        number_text(start as int),
    );
    match with_values(
        placed,
        0,
        clip_values(name, decimal(color), number_text(start as int), number_text(end as int)),
    ) {
        None => None,
        Some(_) if notes.len() >= MAX_NOTES => None,
        Some(valued) => match find_in(valued, 0, "./Notes/KeyTracks"@) {
            None => None,
            Some(tracks) => {
                let keyed = with_key_tracks(
                    without_children(valued, tracks),
                    tracks,
                    notes,
                    pitches_of(notes).len() as int,
                );
                match with_value(
                    keyed,
                    0,
                    "./Notes/NoteIdGenerator/NextId"@,
                    decimal(notes.len() as int + 1),
                ) {
                    None => None,
                    Some(counted) => match find_in(counted, 0, "./Envelopes/Envelopes"@) {
                        None => None,
                        Some(envelopes) => Some(without_children(counted, envelopes)),
                    },
                }
            },
        },
    }
}

fn add_note(doc: &mut Document, n: &ClippedNote, id: u64)
    ensures
        final(doc)@ == old(doc)@.push(note_event(*n, id as int)),
        old(doc)@.len() > 0 && is_tree(old(doc)@) && 1 <= old(doc)@.last().depth
            && old(doc)@.last().content is Element ==> is_tree(final(doc)@),
{
    let ghost start = doc@;
    let time: String = fmt_number(n.start);
    let duration: String = fmt_number(n.duration);
    let velocity: String = decimal_string(n.velocity as i64);
    let number: String = count_text(id);
    add_element(doc, 2, "MidiNoteEvent");
    with_attr(doc, "Time", time.as_str());
    with_attr(doc, "Duration", duration.as_str());
    with_attr(doc, "Velocity", velocity.as_str());
    with_attr(doc, "OffVelocity", "64");
    with_attr(doc, "NoteId", number.as_str());
    assert(doc@ =~= start.push(note_event(*n, id as int)));
}

proof fn lemma_notes_at_len(notes: Seq<ClippedNote>, pitch: i32)
    ensures
        notes_at(notes, pitch).len() <= notes.len(),
    decreases notes.len(),
{
    if notes.len() > 0 {
        lemma_notes_at_len(notes.drop_last(), pitch);
    }
}

/// Builds the key track of a pitch; says how many notes it has.
fn build_key_track(id: u64, pitch: i32, notes: &Vec<ClippedNote>, first: u64) -> (r: (Document, u64))
    requires
        first + notes.len() <= u64::MAX,
    ensures
        r.0@ == key_track(id as int, pitch, notes_at(notes@, pitch), first as int),
        r.1 == notes_at(notes@, pitch).len(),
        is_tree(r.0@),
{
    let mut doc: Document = Document::new("KeyTrack");
    let id_text: String = count_text(id);
    with_attr(&mut doc, "Id", id_text.as_str());
    add_element(&mut doc, 1, "Notes");
    let ghost head = doc@;
    assert(head =~= seq![
        element_at(0, "KeyTrack"@, attr1("Id"@, decimal(id as int))),
        element_at(1, "Notes"@, Map::empty()),
    ]);
    let mut count: u64 = 0;
    let mut i: usize = 0;
    assert(notes@.take(0) =~= Seq::<ClippedNote>::empty());
    assert(head + note_nodes(notes_at(notes@.take(0), pitch), first as int) =~= head);
    while i < notes.len()
        invariant
            i <= notes.len(),
            first + notes.len() <= u64::MAX,
            count == notes_at(notes@.take(i as int), pitch).len(),
            count <= i,
            head.len() == 2,
            doc@ == head + note_nodes(notes_at(notes@.take(i as int), pitch), first as int),
            is_tree(doc@),
            doc@.len() >= 2,
            doc@.last().depth >= 1,
            doc@.last().content is Element,
        decreases notes.len() - i,
    {
        let n: ClippedNote = notes[i];
        let ghost past = notes_at(notes@.take(i as int), pitch);
        proof {
            assert(notes@.take(i + 1).drop_last() =~= notes@.take(i as int));
            assert(notes@.take(i + 1).last() == n);
        }
        if n.pitch == pitch {
            let ghost before = doc@;
            add_note(&mut doc, &n, first + count);
            count += 1;
            proof {
                assert(past.push(n).drop_last() =~= past);
                assert(doc@ =~= head + note_nodes(past.push(n), first as int));
            }
        }
        i += 1;
    }
    assert(notes@.take(i as int) =~= notes@);
    let ghost middle = doc@;
    let pitch_text: String = decimal_string(pitch as i64);
    add_element(&mut doc, 1, "MidiKey");
    with_attr(&mut doc, "Value", pitch_text.as_str());
    assert(doc@ =~= middle + seq![
        element_at(1, "MidiKey"@, attr1("Value"@, decimal(pitch as int))),
    ]);
    (doc, count)
}

proof fn lemma_first_note(notes: Seq<ClippedNote>, k: int)
    requires
        0 <= k <= pitches_of(notes).len(),
    ensures
        1 <= first_note(notes, k) <= notes.len() + 1,
    decreases notes.len(), k,
{
    lemma_group_sizes(notes, k);
}

/// The sizes of the first groups.
pub open spec fn grouped(notes: Seq<ClippedNote>, list: Seq<i32>, k: int) -> int
    decreases k,
{
    if k <= 0 {
        0
    } else {
        grouped(notes, list, k - 1) + notes_at(notes, list[k - 1]).len()
    }
}

proof fn lemma_group_sizes(notes: Seq<ClippedNote>, k: int)
    requires
        0 <= k <= pitches_of(notes).len(),
    ensures
        first_note(notes, k) == 1 + grouped(notes, pitches_of(notes), k),
        0 <= grouped(notes, pitches_of(notes), k) <= notes.len(),
    decreases k,
{
    lemma_pitches(notes);
    if k > 0 {
        lemma_group_sizes(notes, k - 1);
    }
    lemma_grouped_bound(notes, pitches_of(notes), k);
}

proof fn lemma_grouped_bound(notes: Seq<ClippedNote>, list: Seq<i32>, k: int)
    requires
        0 <= k <= list.len(),
        forall|i: int, j: int| 0 <= i < j < list.len() ==> list[i] < list[j],
    ensures
        0 <= grouped(notes, list, k) <= notes.len(),
    decreases notes.len(),
{
    if notes.len() == 0 {
        lemma_grouped_empty(notes, list, k);
    } else {
        lemma_grouped_bound(notes.drop_last(), list, k);
        lemma_grouped_step(notes, list, k);
    }
}

proof fn lemma_grouped_empty(notes: Seq<ClippedNote>, list: Seq<i32>, k: int)
    requires
        notes.len() == 0,
    ensures
        grouped(notes, list, k) == 0,
    decreases k,
{
    if k > 0 {
        lemma_grouped_empty(notes, list, k - 1);
    }
}

/// A note more adds one to at most one group.
proof fn lemma_grouped_step(notes: Seq<ClippedNote>, list: Seq<i32>, k: int)
    requires
        notes.len() > 0,
        0 <= k <= list.len(),
        forall|i: int, j: int| 0 <= i < j < list.len() ==> list[i] < list[j],
    ensures
        0 <= grouped(notes, list, k) <= grouped(notes.drop_last(), list, k) + 1,
        (forall|i: int| 0 <= i < k ==> list[i] != notes.last().pitch) ==> grouped(notes, list, k)
            == grouped(notes.drop_last(), list, k),
    decreases k,
{
    if k > 0 {
        lemma_grouped_step(notes, list, k - 1);
        if list[k - 1] == notes.last().pitch {
            assert forall|i: int| 0 <= i < k - 1 implies list[i] != notes.last().pitch by {
                assert(list[i] < list[k - 1]);
            }
        }
    }
}

/// Builds a clip of the template's.
pub fn build_clip(
    template: &Document,
    name: &str,
    start: i64,
    end: i64,
    notes: &Vec<ClippedNote>,
    index: usize,
    color: i64,
) -> (r: Option<Document>)
    requires
        template.nodes.len() > 0,
    ensures
        match r {
            Some(d) => clip_of(template@, name@, start, end, notes@, index as int, color as int)
                == Some(d@) && (is_tree(template@) ==> is_tree(d@)) && d.nodes.len() > 0,
            None => clip_of(
                template@,
                name@,
                start,
                end,
                notes@,
                index as int,
                color as int,
            ) is None,
        },
{
    let mut clip: Document = template.clone();
    assert(clip.nodes.len() == clip@.len() && template.nodes.len() == template@.len());
    let id: String = count_text(index as u64);
    let start_text: String = fmt_number(start);
    let end_text: String = fmt_number(end);
    let color_text: String = decimal_string(color);
    clip.set_attribute(0, "Id", id.as_str());
    clip.set_attribute(0, "Time", start_text.as_str());
    let values: Vec<(&str, &str)> = vec![
        ("./Name", name),
        ("./Color", color_text.as_str()),
        ("./CurrentStart", start_text.as_str()),
        ("./Loop/LoopStart", start_text.as_str()),
        ("./Loop/HiddenLoopStart", start_text.as_str()),
        ("./CurrentEnd", end_text.as_str()),
        ("./Loop/LoopEnd", end_text.as_str()),
        ("./Loop/OutMarker", end_text.as_str()),
        ("./Loop/HiddenLoopEnd", end_text.as_str()),
    ];
    assert(pairs(values@) =~= clip_values(
        name@,
        decimal(color as int),
        number_text(start as int),
        number_text(end as int),
    ));
    if !set_values(&mut clip, 0, &values) {
        return None;
    }
    if notes.len() >= MAX_NOTES {
        return None;
    }
    let tracks: usize = match find(&clip, 0, "./Notes/KeyTracks") {
        Some(i) => i,
        None => {
            return None;
        },
    };
    clip.clear_children(tracks);
    let ghost cleared = clip@;
    let pitches: Vec<i32> = collect_pitches(notes);
    let mut first: u64 = 1;
    let mut k: usize = 0;
    let total: usize = notes.len();
    while k < pitches.len()
        invariant
            k <= pitches.len(),
            total == notes.len(),
            total < MAX_NOTES,
            pitches@ == pitches_of(notes@),
            first == first_note(notes@, k as int),
            tracks < clip.nodes.len(),
            clip@ == with_key_tracks(cleared, tracks as int, notes@, k as int),
            clip@[tracks as int].content is Element,
            is_tree(cleared) ==> is_tree(clip@),
        decreases pitches.len() - k,
    {
        proof {
            lemma_first_note(notes@, k as int);
            lemma_first_note(notes@, k + 1);
        }
        let (track, count) = build_key_track(k as u64, pitches[k], notes, first);
        let ghost before = clip@;
        clip.append_child(tracks, track);
        proof {
            crate::xmlutil::lemma_end(before, before[tracks as int].depth, tracks + 1);
            assert(clip@[tracks as int] == before[tracks as int]);
        }
        first = first + count;
        k += 1;
    }
    let next_text: String = count_text(total as u64 + 1);
    if !set_value(&mut clip, 0, "./Notes/NoteIdGenerator/NextId", next_text.as_str()) {
        return None;
    }
    match find(&clip, 0, "./Envelopes/Envelopes") {
        Some(i) => {
            clip.clear_children(i);
            Some(clip)
        },
        None => None,
    }
}

} // verus!
