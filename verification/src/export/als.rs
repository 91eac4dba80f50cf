//! Live sets made of tracker modules.
use crate::export::automation::{
    clamp64, clamped, float_event, fmt_number, number_text, AUTOMATION_SENTINEL_TIME,
};
use crate::export::clock::{bpm_micros, tempo_bpm_micros};
use crate::export::curves::{AmigaPanning, LiveNote};
use crate::export::ids::{after, largest_id, max_id, IdCounter};
use crate::export::notes::{event_views, NoteEvent, NoteEventView, SongEvents};
use crate::export::sampler::{
    bend_views, bends_fit, build_group_track, build_track, color_index_for_sample, color_of,
    display_name, ensure_loopable, group_of, highest_voice, loopable, notes_of_voice, playable, row_micros, row_time, track_name, track_of, voice_count,
    voice_notes, SampleFile, SampleFileView,
};
use crate::export::tempo::{Segment, Tempo, TempoChange};
use crate::formats::base::{Module, ModuleView, Sample, SampleView};
use crate::gzip::{gunzip, gunzipped, gzip};
use crate::text::{decimal, push_decimal, same_text};
use crate::xml::{as_written, is_plain, padded, parsed_xml, read_document, write_document};
use crate::xmlutil::{
    children_named, find, find_all_children, find_in, is_tree, part_at, positions, set_value,
    with_attribute, with_child, with_value, without_children, ContentView, Doc, Document,
};
use vstd::prelude::*;

verus! {

/// How long before a change of tempo the old tempo is set once more, in millionths of a beat:
/// Live would glide from one to the other.
pub const TEMPO_STEP_EPSILON: i64 = 1_000;

/// A time and a value, as texts.
pub type TimedText = (Seq<char>, Seq<char>);

/// A tempo as text. A speed of zero has no tempo.
pub open spec fn tempo_text(t: Tempo) -> Seq<char> {
    match bpm_micros(t) {
        Some(m) => number_text(clamped(m) as int),
        None => if t.tracker_bpm == 0 {
            "NaN"@
        } else {
            "inf"@
        },
    }
}

fn text_of_tempo(t: &Tempo) -> (r: String)
    ensures
        r@ == tempo_text(*t),
{
    match tempo_bpm_micros(t) {
        Some(m) => fmt_number(clamp64(m)),
        None => if t.tracker_bpm == 0 {
            "NaN".to_owned()
        } else {
            "inf".to_owned()
        },
    }
}

/// The points of a tempo that never changes.
pub open spec fn steady(value: Seq<char>) -> Seq<TimedText> {
    seq![(AUTOMATION_SENTINEL_TIME@, value), ("0"@, value)]
}

/// The points of a song's tempo: from the start on its first, and at every later change a
/// jump from the one before.
pub open spec fn tempo_points(changes: Seq<TempoChange>) -> Seq<TimedText>
    decreases changes.len(),
{
    if changes.len() == 0 {
        Seq::empty()
    } else if changes.len() == 1 {
        steady(tempo_text(changes[0].tempo))
    } else {
        let n = changes.len() as int;
        tempo_points(changes.drop_last()).push(
            (
                number_text(clamped(row_micros(changes.last().row) - TEMPO_STEP_EPSILON) as int),
                tempo_text(changes[n - 2].tempo),
            ),
        ).push(
            (number_text(row_micros(changes.last().row) as int), tempo_text(changes.last().tempo)),
        )
    }
}

/// The texts of points.
pub open spec fn point_views(points: Seq<(String, String)>) -> Seq<TimedText> {
    points.map_values(|p: (String, String)| (p.0@, p.1@))
}

pub(crate) fn steady_points(value: &String) -> (r: Vec<(String, String)>)
    ensures
        point_views(r@) == steady(value@),
{
    let mut out: Vec<(String, String)> = Vec::new();
    out.push((AUTOMATION_SENTINEL_TIME.to_owned(), value.clone()));
    out.push(("0".to_owned(), value.clone()));
    assert(point_views(out@) =~= steady(value@));
    out
}

fn points_of_tempo(changes: &Vec<TempoChange>) -> (r: Vec<(String, String)>)
    ensures
        point_views(r@) == tempo_points(changes@),
{
    let mut out: Vec<(String, String)> = Vec::new();
    if changes.len() == 0 {
        assert(point_views(out@) =~= tempo_points(changes@));
        return out;
    }
    let first: String = text_of_tempo(&changes[0].tempo);
    out = steady_points(&first);
    assert(changes@.take(1)[0] == changes[0]);
    let mut i: usize = 1;
    while i < changes.len()
        invariant
            1 <= i <= changes.len(),
            point_views(out@) == tempo_points(changes@.take(i as int)),
        decreases changes.len() - i,
    {
        let ghost before = point_views(out@);
        let at: i64 = row_time(changes[i].row);
        let eve: String = fmt_number(clamp64(at as i128 - TEMPO_STEP_EPSILON as i128));
        let old_text: String = text_of_tempo(&changes[i - 1].tempo);
        let time: String = fmt_number(at);
        let new_text: String = text_of_tempo(&changes[i].tempo);
        out.push((eve, old_text));
        out.push((time, new_text));
        proof {
            let cur = changes@.take(i + 1);
            assert(cur.drop_last() =~= changes@.take(i as int));
            assert(cur.last() == changes[i as int]);
            assert(cur[cur.len() - 2] == changes[i - 1]);
            assert(point_views(out@) =~= before.push((eve@, old_text@)).push((time@, new_text@)));
        }
        i += 1;
    }
    assert(changes@.take(i as int) =~= changes@);
    out
}

/// The first points put below an element, numbered from 0 on.
pub open spec fn with_points(d: Doc, at: int, points: Seq<TimedText>) -> Doc
    decreases points.len(),
{
    if points.len() == 0 {
        d
    } else {
        with_child(
            with_points(d, at, points.drop_last()),
            at,
            seq![
                float_event(0, decimal(points.len() - 1), points.last().0, points.last().1),
            ],
        )
    }
}

/// The envelope at `at` drives the element with this number.
pub open spec fn drives(d: Doc, at: int, target: Seq<char>) -> bool {
    match find_in(d, at, "./EnvelopeTarget/PointeeId"@) {
        Some(i) => d[i].attribute("Value"@) == Some(target),
        None => false,
    }
}

/// The envelope at `at` with these points in place of its own, if it drives the target.
pub open spec fn with_new_points(d: Doc, at: int, target: Seq<char>, points: Seq<TimedText>) -> Doc {
    if drives(d, at, target) {
        match find_in(d, at, ".//Automation/Events"@) {
            Some(i) => with_points(without_children(d, i), i, points),
            None => d,
        }
    } else {
        d
    }
}

/// The same for several envelopes. The last comes first, so that the others keep their places.
pub open spec fn with_new_points_in(
    d: Doc,
    envelopes: Seq<int>,
    target: Seq<char>,
    points: Seq<TimedText>,
) -> Doc
    decreases envelopes.len(),
{
    if envelopes.len() == 0 {
        d
    } else {
        with_new_points_in(
            with_new_points(d, envelopes.last(), target, points),
            envelopes.drop_last(),
            target,
            points,
        )
    }
}

/// The set, whose LiveSet stands at `at`, with this tempo shown.
pub open spec fn with_shown_tempo(d: Doc, at: int, value: Seq<char>) -> Doc {
    match find_in(d, at, ".//Tempo/Manual"@) {
        Some(i) => with_attribute(d, i, "Value"@, value),
        None => d,
    }
}

/// The set with these points of the tempo. The main track's own automation of the tempo, which
/// Live follows rather than the tempo shown, is replaced.
#[verifier::opaque]
pub open spec fn with_tempo(d: Doc, at: int, value: Seq<char>, points: Seq<TimedText>) -> Doc {
    let shown = with_shown_tempo(d, at, value);
    match find_in(shown, at, ".//Tempo/AutomationTarget"@) {
        None => shown,
        Some(t) => match shown[t].attribute("Id"@) {
            None => shown,
            Some(target) => match find_in(shown, at, ".//MainTrack"@) {
                None => shown,
                Some(main) => match find_in(shown, main, "./AutomationEnvelopes/Envelopes"@) {
                    None => shown,
                    Some(list) => with_new_points_in(
                        shown,
                        children_named(shown, list, "AutomationEnvelope"@),
                        target,
                        points,
                    ),
                },
            },
        },
    }
}

fn add_points(doc: &mut Document, at: usize, points: &Vec<(String, String)>)
    requires
        at < old(doc).nodes.len(),
        old(doc)@[at as int].content is Element,
    ensures
        final(doc)@ == with_points(old(doc)@, at as int, point_views(points@)),
        final(doc).nodes.len() >= old(doc).nodes.len(),
        is_tree(old(doc)@) ==> is_tree(final(doc)@),
{
    let ghost d = doc@;
    let ghost views = point_views(points@);
    let mut i: usize = 0;
    assert(views.take(0) =~= Seq::<TimedText>::empty());
    while i < points.len()
        invariant
            i <= points.len(),
            at < doc.nodes.len(),
            old(doc).nodes.len() <= doc.nodes.len(),
            d == old(doc)@,
            doc@[at as int].content is Element,
            views == point_views(points@),
            doc@ == with_points(d, at as int, views.take(i as int)),
            is_tree(d) ==> is_tree(doc@),
        decreases points.len() - i,
    {
        let ghost before = doc@;
        let mut id: String = String::new();
        push_decimal(&mut id, i as u64);
        assert(id@ =~= decimal(i as int));
        let mut event: Document = Document::new("FloatEvent");
        event.set_attribute(0, "Id", id.as_str());
        event.set_attribute(0, "Time", points[i].0.as_str());
        event.set_attribute(0, "Value", points[i].1.as_str());
        proof {
            assert(views.take(i + 1).drop_last() =~= views.take(i as int));
            assert(views.take(i + 1).last() == (points[i as int].0@, points[i as int].1@));
            assert(event@ =~= seq![
                float_event(0, decimal(i as int), points[i as int].0@, points[i as int].1@),
            ]);
        }
        doc.append_child(at, event);
        proof {
            crate::xmlutil::lemma_end(before, before[at as int].depth, at + 1);
            assert(doc@[at as int] == before[at as int]);
        }
        i += 1;
    }
    assert(views.take(i as int) =~= views);
}

fn replace_points(doc: &mut Document, at: usize, target: &String, points: &Vec<(String, String)>)
    requires
        at < old(doc).nodes.len(),
    ensures
        final(doc)@ == with_new_points(old(doc)@, at as int, target@, point_views(points@)),
        final(doc).nodes.len() > at,
        is_tree(old(doc)@) ==> is_tree(final(doc)@),
{
    let driven: bool = match find(doc, at, "./EnvelopeTarget/PointeeId") {
        Some(i) => match doc.attribute(i, "Value") {
            Some(v) => same_text(v.as_str(), target.as_str()),
            None => false,
        },
        None => false,
    };
    if driven {
        match find(doc, at, ".//Automation/Events") {
            Some(i) => {
                let ghost d = doc@;
                doc.clear_children(i);
                proof {
                    crate::xmlutil::lemma_end(d, d[i as int].depth, i + 1);
                    assert(doc@[i as int] == d[i as int]);
                }
                add_points(doc, i, points);
            },
            None => {},
        }
    }
}

/// Sets the tempo of the set whose LiveSet stands at `at`.
pub(crate) fn set_tempo(doc: &mut Document, at: usize, value: &String, points: &Vec<(String, String)>)
    requires
        at < old(doc).nodes.len(),
    ensures
        final(doc)@ == with_tempo(old(doc)@, at as int, value@, point_views(points@)),
        final(doc).nodes.len() > at,
        is_tree(old(doc)@) ==> is_tree(final(doc)@),
{
    proof {
        reveal(with_tempo);
    }
    match find(doc, at, ".//Tempo/Manual") {
        Some(i) => doc.set_attribute(i, "Value", value.as_str()),
        None => {},
    }
    let ghost shown = doc@;
    assert(shown == with_shown_tempo(old(doc)@, at as int, value@));
    let t: usize = match find(doc, at, ".//Tempo/AutomationTarget") {
        Some(i) => i,
        None => {
            return ;
        },
    };
    let target: String = match doc.attribute(t, "Id") {
        Some(s) => s,
        None => {
            return ;
        },
    };
    let main: usize = match find(doc, at, ".//MainTrack") {
        Some(i) => i,
        None => {
            return ;
        },
    };
    let list: usize = match find(doc, main, "./AutomationEnvelopes/Envelopes") {
        Some(i) => i,
        None => {
            return ;
        },
    };
    let envelopes: Vec<usize> = find_all_children(doc, list, "AutomationEnvelope");
    let ghost views = point_views(points@);
    let ghost whole = positions(envelopes@);
    let mut i: usize = envelopes.len();
    assert(whole.take(i as int) =~= whole);
    while i > 0
        invariant
            i <= envelopes.len(),
            at <= list < doc.nodes.len(),
            views == point_views(points@),
            whole == positions(envelopes@),
            forall|k: int| 0 <= k < i ==> list < (#[trigger] envelopes[k]) < doc.nodes.len(),
            forall|k: int, j: int| 0 <= k < j < envelopes.len() ==> envelopes[k] < envelopes[j],
            with_new_points_in(doc@, whole.take(i as int), target@, views) == with_new_points_in(
                shown,
                whole,
                target@,
                views,
            ),
            is_tree(old(doc)@) ==> is_tree(doc@),
        decreases i,
    {
        i -= 1;
        proof {
            let cur = whole.take(i + 1);
            assert(cur.drop_last() =~= whole.take(i as int));
            assert(cur.last() == envelopes[i as int] as int);
        }
        replace_points(doc, envelopes[i], &target, points);
    }
    assert(whole.take(0) =~= Seq::<int>::empty());
}

/// A set to start from, and its track that others are made of.
#[derive(Debug)]
pub struct Template {
    pub root: Document,
    pub track: Document,
}

pub open spec fn no_sampler_text() -> Seq<char> {
    "The template .als has no MidiTrack with both a Sampler (MultiSampler) device holding a sample and its content laid out as a clip in the Arrangement (not a Session clip slot) — load a sample into a Sampler on a MIDI track, lay out a clip in Arrangement view, and re-save the template project."@
}

/// The track at `at` has a Sampler, and a clip in the Arrangement.
pub open spec fn is_sampler_track(d: Doc, at: int) -> bool {
    &&& find_in(d, at, ".//MultiSampler"@) is Some
    &&& find_in(d, at, ".//ClipTimeable/ArrangerAutomation/Events/MidiClip"@) is Some
}

/// The first of the tracks that is one to make others of.
pub open spec fn first_sampler_track(d: Doc, tracks: Seq<int>) -> Option<int>
    decreases tracks.len(),
{
    if tracks.len() == 0 {
        None
    } else {
        match first_sampler_track(d, tracks.drop_last()) {
            Some(i) => Some(i),
            None => if is_sampler_track(d, tracks.last()) {
                Some(tracks.last())
            } else {
                None
            },
        }
    }
}

/// The track of a set that others are made of, or what the set lacks.
pub open spec fn sampler_track(root: Doc) -> Result<Doc, Seq<char>> {
    match find_in(root, 0, "./LiveSet"@) {
        None => Err("template .als has no LiveSet element"@),
        Some(live) => match find_in(root, live, "./Tracks"@) {
            None => Err("template .als has no Tracks element"@),
            Some(tracks) => match first_sampler_track(
                root,
                children_named(root, tracks, "MidiTrack"@),
            ) {
                None => Err(no_sampler_text()),
                Some(i) => Ok(part_at(root, i)),
            },
        },
    }
}

/// Finds the track of a set that others are made of.
pub fn find_sampler_track_template(root: &Document) -> (r: Result<Document, String>)
    requires
        root.nodes.len() > 0,
    ensures
        match r {
            Ok(d) => sampler_track(root@) == Ok::<Doc, Seq<char>>(d@) && d.nodes.len() > 0 && (
            is_tree(root@) ==> is_tree(d@)),
            Err(e) => sampler_track(root@) == Err::<Doc, Seq<char>>(e@),
        },
{
    let live: usize = match find(root, 0, "./LiveSet") {
        Some(i) => i,
        None => {
            return Err("template .als has no LiveSet element".to_owned());
        },
    };
    let tracks: usize = match find(root, live, "./Tracks") {
        Some(i) => i,
        None => {
            return Err("template .als has no Tracks element".to_owned());
        },
    };
    let list: Vec<usize> = find_all_children(root, tracks, "MidiTrack");
    let ghost whole = positions(list@);
    let mut i: usize = 0;
    assert(whole.take(0) =~= Seq::<int>::empty());
    while i < list.len()
        invariant
            i <= list.len(),
            whole == positions(list@),
            forall|k: int|
                0 <= k < list.len() ==> (#[trigger] list[k]) < root.nodes.len()
                    && root@[list[k] as int].is_named("MidiTrack"@),
            first_sampler_track(root@, whole.take(i as int)) is None,
            find_in(root@, 0, "./LiveSet"@) == Some(live as int),
            find_in(root@, live as int, "./Tracks"@) == Some(tracks as int),
            whole == children_named(root@, tracks as int, "MidiTrack"@),
        decreases list.len() - i,
    {
        let at: usize = list[i];
        proof {
            assert(whole.take(i + 1).drop_last() =~= whole.take(i as int));
            assert(whole.take(i + 1).last() == at as int);
        }
        let sampler: Option<usize> = find(root, at, ".//MultiSampler");
        let clip: Option<usize> = find(
            root,
            at,
            ".//ClipTimeable/ArrangerAutomation/Events/MidiClip",
        );
        if sampler.is_some() && clip.is_some() {
            proof {
                lemma_first_found(root@, whole, i + 1);
                assert(root@[at as int].content is Element);
            }
            return Ok(root.copy(at));
        }
        i += 1;
    }
    assert(whole.take(i as int) =~= whole);
    Err(
        "The template .als has no MidiTrack with both a Sampler (MultiSampler) device holding a sample and its content laid out as a clip in the Arrangement (not a Session clip slot) — load a sample into a Sampler on a MIDI track, lay out a clip in Arrangement view, and re-save the template project.".to_owned(),
    )
}

proof fn lemma_first_found(d: Doc, tracks: Seq<int>, k: int)
    requires
        0 <= k <= tracks.len(),
        first_sampler_track(d, tracks.take(k)) is Some,
    ensures
        first_sampler_track(d, tracks) == first_sampler_track(d, tracks.take(k)),
    decreases tracks.len(),
{
    if k == tracks.len() {
        assert(tracks.take(k) =~= tracks);
    } else {
        assert(tracks.drop_last().take(k) =~= tracks.take(k));
        lemma_first_found(d, tracks.drop_last(), k);
    }
}

/// `std::str::from_utf8`: whether the bytes are UTF-8.
#[verifier::external_body]
pub(crate) fn is_utf8(bytes: &[u8]) -> (r: bool)
    ensures
        r == vstd::utf8::valid_utf8(bytes@),
{
    std::str::from_utf8(bytes).is_ok()
}

/// The document in a gzipped file, or why there is none.
pub open spec fn document_in(bytes: Seq<u8>) -> Result<Doc, Seq<char>> {
    match gunzipped(bytes) {
        Err(e) => Err("failed to gunzip template: "@ + e),
        Ok(xml) => if !vstd::utf8::valid_utf8(xml) {
            Err("failed to gunzip template: stream did not contain valid UTF-8"@)
        } else {
            match parsed_xml(xml) {
                Err(e) => Err("failed to parse template XML: "@ + e),
                Ok(d) => Ok(d),
            }
        },
    }
}

/// Reads a gzipped set.
pub fn read_set(bytes: &[u8]) -> (r: Result<Document, String>)
    ensures
        match r {
            Ok(d) => document_in(bytes@) == Ok::<Doc, Seq<char>>(d@) && is_tree(d@),
            Err(e) => document_in(bytes@) == Err::<Doc, Seq<char>>(e@),
        },
{
    let xml: Vec<u8> = match gunzip(bytes) {
        Ok(v) => v,
        Err(e) => {
            let mut text: String = "failed to gunzip template: ".to_owned();
            text.append(e.as_str());
            return Err(text);
        },
    };
    if !is_utf8(xml.as_slice()) {
        return Err("failed to gunzip template: stream did not contain valid UTF-8".to_owned());
    }
    match read_document(xml.as_slice()) {
        Ok(d) => Ok(d),
        Err(e) => {
            let mut text: String = "failed to parse template XML: ".to_owned();
            text.append(e.as_str());
            Err(text)
        },
    }
}

/// Opens a template: a gzipped set with a track to make others of.
pub fn open_template(bytes: &[u8]) -> (r: Result<Template, String>)
    ensures
        match document_in(bytes@) {
            Err(e) => r matches Err(x) && x@ == e,
            Ok(root) => match sampler_track(root) {
                Err(e) => r matches Err(x) && x@ == e,
                Ok(track) => r matches Ok(t) && t.root@ == root && t.track@ == track && is_tree(
                    root,
                ) && is_tree(track),
            },
        },
{
    match read_set(bytes) {
        Err(e) => Err(e),
        Ok(root) => {
            assert(root.nodes.len() == root@.len());
            match find_sampler_track_template(&root) {
                Err(e) => Err(e),
                Ok(track) => Ok(Template { root, track }),
            }
        },
    }
}

/// What the tracks of a set are made of.
#[verifier::ext_equal]
pub struct Plan {
    pub template: Doc,
    pub group: Doc,
    pub samples: Seq<SampleView>,
    /// The WAV file of each sample.
    pub files: Seq<SampleFileView>,
    /// The notes of each sample.
    pub events: Seq<Seq<NoteEventView>>,
    /// The values of their bends, in millionths of a semitone.
    pub bends: Seq<Seq<Seq<i64>>>,
    pub segments: Seq<Segment>,
    pub panning: AmigaPanning,
}

/// The tracks made so far, and the next number.
#[verifier::ext_equal]
pub struct Progress {
    pub tracks: Seq<Doc>,
    pub next: u64,
    /// The first track of the set is the one that is armed.
    pub armed: bool,
}

/// A track put into its group, and armed.
pub open spec fn finished_track(d: Doc, group: Option<Seq<char>>, arm: bool) -> Option<Doc> {
    let grouped = match group {
        Some(id) => with_value(d, 0, "./TrackGroupId"@, id),
        None => Some(d),
    };
    match grouped {
        None => None,
        Some(e) => if arm {
            with_value(e, 0, "./DeviceChain/MainSequencer/Recorder/IsArmed"@, "true"@)
        } else {
            Some(e)
        },
    }
}

/// Behind voice `v` of sample `i`.
pub open spec fn with_voice(
    p: Progress,
    plan: Plan,
    i: int,
    group: Option<Seq<char>>,
    v: int,
) -> Option<Progress> {
    match track_of(
        plan.template,
        loopable(plan.samples[i]),
        p.next,
        plan.files[i],
        voice_notes(plan.events[i], plan.bends[i], v),
        plan.segments,
        plan.panning,
        v,
    ) {
        None => None,
        Some((d, next)) => match finished_track(d, group, !p.armed) {
            None => None,
            Some(e) => Some(Progress { tracks: p.tracks.push(e), next, armed: true }),
        },
    }
}

/// Behind the first `v` voices of sample `i`.
pub open spec fn with_voices(
    p: Progress,
    plan: Plan,
    i: int,
    group: Option<Seq<char>>,
    v: int,
) -> Option<Progress>
    decreases v,
{
    if v <= 0 {
        Some(p)
    } else {
        match with_voices(p, plan, i, group, v - 1) {
            None => None,
            Some(q) => with_voice(q, plan, i, group, v - 1),
        }
    }
}

/// Behind sample `i`: a track for each of its voices, in a group if there are several. The
/// group stands before its tracks.
pub open spec fn with_sample_tracks(p: Progress, plan: Plan, i: int) -> Option<Progress> {
    let s = loopable(plan.samples[i]);
    let voices = voice_count(plan.events[i]);
    if plan.samples[i].is_empty() {
        Some(p)
    } else if voices > usize::MAX {
        None
    } else if voices > 1 {
        match group_of(plan.group, track_name(s, 0), color_of(s), p.next) {
            None => None,
            Some((d, next)) => with_voices(
                Progress { tracks: p.tracks.push(d), next, armed: p.armed },
                plan,
                i,
                Some(decimal(p.next as int)),
                voices,
            ),
        }
    } else {
        with_voices(p, plan, i, None, voices)
    }
}

/// Behind the first `k` samples.
pub open spec fn tracks_up_to(plan: Plan, next: u64, k: int) -> Option<Progress>
    decreases k,
{
    if k <= 0 {
        Some(Progress { tracks: Seq::empty(), next, armed: false })
    } else {
        match tracks_up_to(plan, next, k - 1) {
            None => None,
            Some(p) => with_sample_tracks(p, plan, k - 1),
        }
    }
}

/// How many tracks the first `k` samples get: one for each voice of a sample that sounds.
pub open spec fn voice_tracks(
    samples: Seq<SampleView>,
    events: Seq<Seq<NoteEventView>>,
    k: int,
) -> int
    decreases k,
{
    if k <= 0 {
        0
    } else {
        voice_tracks(samples, events, k - 1) + if samples[k - 1].is_empty() {
            0
        } else {
            voice_count(events[k - 1])
        }
    }
}

/// How many of the first `k` samples have their tracks in a group: those with several voices.
pub open spec fn grouped_samples(
    samples: Seq<SampleView>,
    events: Seq<Seq<NoteEventView>>,
    k: int,
) -> int
    decreases k,
{
    if k <= 0 {
        0
    } else {
        grouped_samples(samples, events, k - 1) + if !samples[k - 1].is_empty() && voice_count(
            events[k - 1],
        ) > 1 {
            1int
        } else {
            0
        }
    }
}

proof fn lemma_voices_are_counted(
    p: Progress,
    plan: Plan,
    i: int,
    group: Option<Seq<char>>,
    v: int,
)
    requires
        0 <= v,
        with_voices(p, plan, i, group, v) is Some,
    ensures
        with_voices(p, plan, i, group, v)->0.tracks.len() == p.tracks.len() + v,
    decreases v,
{
    if v > 0 {
        lemma_voices_are_counted(p, plan, i, group, v - 1);
    }
}

pub proof fn lemma_a_voice_at_least(events: Seq<NoteEventView>)
    ensures
        voice_count(events) >= 1,
    decreases events.len(),
{
    if events.len() > 0 {
        lemma_a_voice_at_least(events.drop_last());
    }
}

/// A set has one track for every voice of every sample that sounds, and one group for every
/// sample with several voices.
pub proof fn law_tracks_are_counted(plan: Plan, next: u64, k: int)
    requires
        0 <= k <= plan.samples.len(),
        tracks_up_to(plan, next, k) is Some,
    ensures
        tracks_up_to(plan, next, k)->0.tracks.len() == voice_tracks(plan.samples, plan.events, k)
            + grouped_samples(plan.samples, plan.events, k),
    decreases k,
{
    if k > 0 {
        law_tracks_are_counted(plan, next, k - 1);
        let p = tracks_up_to(plan, next, k - 1)->0;
        let i = k - 1;
        if !plan.samples[i].is_empty() {
            let s = loopable(plan.samples[i]);
            let voices = voice_count(plan.events[i]);
            lemma_a_voice_at_least(plan.events[i]);
            if voices > 1 {
                match group_of(plan.group, track_name(s, 0), color_of(s), p.next) {
                    Some((d, n)) => lemma_voices_are_counted(
                        Progress { tracks: p.tracks.push(d), next: n, armed: p.armed },
                        plan,
                        i,
                        Some(decimal(p.next as int)),
                        voices,
                    ),
                    None => {},
                }
            } else {
                lemma_voices_are_counted(p, plan, i, None, voices);
            }
        }
    }
}

/// A track that is armed when it is finished says so.
pub proof fn law_armed_tracks_say_so(d: Doc, group: Option<Seq<char>>)
    requires
        d.len() > 0,
        finished_track(d, group, true) is Some,
    ensures
        ({
            let e = finished_track(d, group, true)->0;
            let at = find_in(e, 0, "./DeviceChain/MainSequencer/Recorder/IsArmed"@);
            at is Some && e[at->0].attribute("Value"@) == Some("true"@)
        }),
{
    let path = "./DeviceChain/MainSequencer/Recorder/IsArmed"@;
    let e = match group {
        Some(id) => with_value(d, 0, "./TrackGroupId"@, id)->0,
        None => d,
    };
    crate::xmlutil::lemma_find(d, 0, "./TrackGroupId"@);
    assert(e.len() == d.len());
    crate::xmlutil::law_value_is_read_back(e, 0, path, "true"@);
}

proof fn lemma_voices_arm(p: Progress, plan: Plan, i: int, group: Option<Seq<char>>, v: int)
    requires
        with_voices(p, plan, i, group, v) is Some,
    ensures
        with_voices(p, plan, i, group, v)->0.armed == (p.armed || v > 0),
    decreases v,
{
    if v > 0 {
        lemma_voices_arm(p, plan, i, group, v - 1);
    }
}

/// One track of a set is armed, the first: behind it no other is.
pub proof fn law_one_track_is_armed(plan: Plan, next: u64, k: int)
    requires
        0 <= k <= plan.samples.len(),
        tracks_up_to(plan, next, k) is Some,
    ensures
        tracks_up_to(plan, next, k)->0.armed <==> voice_tracks(plan.samples, plan.events, k) > 0,
        voice_tracks(plan.samples, plan.events, k) >= 0,
    decreases k,
{
    if k > 0 {
        law_one_track_is_armed(plan, next, k - 1);
        let p = tracks_up_to(plan, next, k - 1)->0;
        let i = k - 1;
        if !plan.samples[i].is_empty() {
            let s = loopable(plan.samples[i]);
            let voices = voice_count(plan.events[i]);
            lemma_a_voice_at_least(plan.events[i]);
            if voices > 1 {
                match group_of(plan.group, track_name(s, 0), color_of(s), p.next) {
                    Some((d, n)) => lemma_voices_arm(
                        Progress { tracks: p.tracks.push(d), next: n, armed: p.armed },
                        plan,
                        i,
                        Some(decimal(p.next as int)),
                        voices,
                    ),
                    None => {},
                }
            } else {
                lemma_voices_arm(p, plan, i, None, voices);
            }
        }
    }
}

/// The documents put below an element.
pub open spec fn with_parts(d: Doc, at: int, parts: Seq<Doc>) -> Doc
    decreases parts.len(),
{
    if parts.len() == 0 {
        d
    } else {
        with_child(with_parts(d, at, parts.drop_last()), at, parts.last())
    }
}

/// The return tracks of a set.
pub open spec fn return_tracks(d: Doc, at: int) -> Seq<Doc> {
    children_named(d, at, "ReturnTrack"@).map_values(|i: int| part_at(d, i))
}

/// The set with these tracks in place of its own, which but for the return tracks are gone,
/// and with the next number noted down.
#[verifier::opaque]
pub open spec fn with_tracks(d: Doc, live: int, tracks: Seq<Doc>, next: u64) -> Option<Doc> {
    match find_in(d, live, "./Tracks"@) {
        None => None,
        Some(at) => {
            let e = with_parts(without_children(d, at), at, tracks + return_tracks(d, at));
            match find_in(e, live, "./NextPointeeId"@) {
                Some(i) => Some(with_attribute(e, i, "Value"@, decimal(after(next) as int))),
                None => Some(e),
            }
        },
    }
}

/// The set with the tempo of a song.
pub open spec fn timed(root: Doc, live: int, changes: Seq<TempoChange>) -> Doc {
    if changes.len() > 0 {
        with_tempo(root, live, tempo_text(changes[0].tempo), tempo_points(changes))
    } else {
        root
    }
}

/// The first number that a set does not use.
pub open spec fn first_free(d: Doc) -> u64 {
    (largest_id(d, d.len() as int) + 1) as u64
}

/// The set of a song.
pub open spec fn set_of(root: Doc, plan: Plan, changes: Seq<TempoChange>) -> Option<Doc> {
    match find_in(root, 0, "./LiveSet"@) {
        None => None,
        Some(live) => {
            let d = timed(root, live, changes);
            match tracks_up_to(plan, first_free(d), plan.samples.len() as int) {
                None => None,
                Some(p) => with_tracks(d, live, p.tracks, p.next),
            }
        },
    }
}

/// What documents hold.
pub open spec fn doc_views(docs: Seq<Document>) -> Seq<Doc> {
    docs.map_values(|d: Document| d@)
}

/// All of them are trees.
pub open spec fn all_trees(docs: Seq<Document>) -> bool {
    forall|i: int| 0 <= i < docs.len() ==> is_tree((#[trigger] docs[i])@)
}

fn add_parts(doc: &mut Document, at: usize, parts: Vec<Document>)
    requires
        at < old(doc).nodes.len(),
        old(doc)@[at as int].content is Element,
    ensures
        final(doc)@ == with_parts(old(doc)@, at as int, doc_views(parts@)),
        final(doc).nodes.len() >= old(doc).nodes.len(),
        is_tree(old(doc)@) && all_trees(parts@) ==> is_tree(final(doc)@),
{
    let ghost d = doc@;
    let ghost views = doc_views(parts@);
    let mut i: usize = 0;
    assert(views.take(0) =~= Seq::<Doc>::empty());
    while i < parts.len()
        invariant
            i <= parts.len(),
            at < doc.nodes.len(),
            old(doc).nodes.len() <= doc.nodes.len(),
            d == old(doc)@,
            doc@[at as int].content is Element,
            views == doc_views(parts@),
            doc@ == with_parts(d, at as int, views.take(i as int)),
            is_tree(d) && all_trees(parts@) ==> is_tree(doc@),
        decreases parts.len() - i,
    {
        let ghost before = doc@;
        proof {
            assert(views.take(i + 1).drop_last() =~= views.take(i as int));
            assert(views.take(i + 1).last() == parts[i as int]@);
        }
        doc.append_child(at, parts[i].clone());
        proof {
            crate::xmlutil::lemma_end(before, before[at as int].depth, at + 1);
            assert(doc@[at as int] == before[at as int]);
        }
        i += 1;
    }
    assert(views.take(i as int) =~= views);
}

fn copy_return_tracks(doc: &Document, at: usize) -> (r: Vec<Document>)
    requires
        at < doc.nodes.len(),
    ensures
        doc_views(r@) == return_tracks(doc@, at as int),
        is_tree(doc@) ==> all_trees(r@),
{
    let list: Vec<usize> = find_all_children(doc, at, "ReturnTrack");
    let ghost whole = return_tracks(doc@, at as int);
    assert(positions(list@).len() == list.len());
    let mut out: Vec<Document> = Vec::new();
    let mut i: usize = 0;
    assert(doc_views(out@) =~= whole.take(0));
    while i < list.len()
        invariant
            i <= list.len(),
            whole == return_tracks(doc@, at as int),
            positions(list@) == children_named(doc@, at as int, "ReturnTrack"@),
            whole.len() == list.len(),
            forall|k: int|
                0 <= k < list.len() ==> (#[trigger] list[k]) < doc.nodes.len()
                    && doc@[list[k] as int].is_named("ReturnTrack"@),
            doc_views(out@) == whole.take(i as int),
            is_tree(doc@) ==> all_trees(out@),
        decreases list.len() - i,
    {
        let ghost before = out@;
        let part: Document = doc.copy(list[i]);
        proof {
            assert(positions(list@)[i as int] == list[i as int] as int);
            assert(part@ == whole[i as int]);
            assert(doc_views(before.push(part)) =~= doc_views(before).push(part@));
            assert(whole.take(i + 1) =~= whole.take(i as int).push(whole[i as int]));
        }
        out.push(part);
        i += 1;
    }
    assert(whole.take(i as int) =~= whole);
    out
}

/// Puts the tracks into the set whose LiveSet stands at `live`.
pub(crate) fn replace_tracks(doc: &mut Document, live: usize, tracks: Vec<Document>, next: u64) -> (r:
    bool)
    requires
        live < old(doc).nodes.len(),
    ensures
        ({
            let out = with_tracks(old(doc)@, live as int, doc_views(tracks@), next);
            &&& r == (out is Some)
            &&& r ==> out == Some(final(doc)@)
        }),
        final(doc).nodes.len() > live,
        is_tree(old(doc)@) && all_trees(tracks@) ==> is_tree(final(doc)@),
{
    proof {
        reveal(with_tracks);
    }
    let at: usize = match find(doc, live, "./Tracks") {
        Some(i) => i,
        None => {
            return false;
        },
    };
    let ghost d = doc@;
    let mut parts: Vec<Document> = tracks;
    let mut kept: Vec<Document> = copy_return_tracks(doc, at);
    let ghost first = parts@;
    let ghost second = kept@;
    parts.append(&mut kept);
    assert(doc_views(parts@) =~= doc_views(first) + doc_views(second));
    proof {
        if is_tree(d) && all_trees(first) {
            assert forall|i: int| 0 <= i < parts.len() implies is_tree((#[trigger] parts[i])@) by {
                if i < first.len() {
                    assert(parts[i] == first[i]);
                } else {
                    assert(parts[i] == second[i - first.len()]);
                }
            }
        }
    }
    doc.clear_children(at);
    proof {
        crate::xmlutil::lemma_end(d, d[at as int].depth, at + 1);
        assert(doc@[at as int] == d[at as int]);
    }
    add_parts(doc, at, parts);
    match find(doc, live, "./NextPointeeId") {
        Some(i) => {
            let mut ids = IdCounter { next };
            ids.take();
            let text: String = ids.take_text();
            doc.set_attribute(i, "Value", text.as_str());
        },
        None => {},
    }
    true
}

/// The tracks of a set while they are made.
#[derive(Debug)]
struct Assembly {
    tracks: Vec<Document>,
    ids: IdCounter,
    armed: bool,
}

impl Assembly {
    spec fn progress(self) -> Progress {
        Progress { tracks: doc_views(self.tracks@), next: self.ids.next, armed: self.armed }
    }

    fn push(&mut self, track: Document)
        ensures
            final(self).progress() == (Progress {
                tracks: old(self).progress().tracks.push(track@),
                ..old(self).progress()
            }),
            all_trees(old(self).tracks@) && is_tree(track@) ==> all_trees(final(self).tracks@),
    {
        let ghost before = self.tracks@;
        self.tracks.push(track);
        assert(doc_views(self.tracks@) =~= doc_views(before).push(track@));
    }
}

/// What the set of a module is made of.
pub open spec fn plan_of(
    template: Doc,
    group: Doc,
    m: ModuleView,
    files: Seq<SampleFile>,
    song: SongEvents,
    bends: Seq<Vec<Vec<i64>>>,
    panning: AmigaPanning,
) -> Plan {
    Plan {
        template,
        group,
        samples: m.samples,
        files: files.map_values(|f: SampleFile| f@),
        events: m.samples.map_values(|s: SampleView| song.notes_for(s.index)),
        bends: bends.map_values(|b: Vec<Vec<i64>>| bend_views(b@)),
        segments: song.segments@,
        panning,
    }
}

/// Every sample that sounds can be played, has a file, and values for its bends.
pub open spec fn can_export(
    m: ModuleView,
    files: Seq<SampleFile>,
    song: SongEvents,
    bends: Seq<Vec<Vec<i64>>>,
) -> bool {
    &&& files.len() == m.samples.len()
    &&& bends.len() == m.samples.len()
    &&& forall|i: int|
        0 <= i < m.samples.len() ==> (#[trigger] m.samples[i]).is_empty() || playable(m.samples[i])
    &&& forall|i: int|
        0 <= i < m.samples.len() ==> bends_fit(
            song.notes_for(m.samples[i].index),
            bend_views((#[trigger] bends[i])@),
        )
}

/// Whether every sample that sounds can be played.
pub fn check_samples(module: &Module) -> (r: bool)
    ensures
        r == (forall|i: int|
            0 <= i < module@.samples.len() ==> (#[trigger] module@.samples[i]).is_empty()
                || playable(module@.samples[i])),
{
    let mut i: usize = 0;
    while i < module.samples.len()
        invariant
            i <= module.samples.len(),
            forall|k: int|
                0 <= k < i ==> (#[trigger] module@.samples[k]).is_empty() || playable(
                    module@.samples[k],
                ),
        decreases module.samples.len() - i,
    {
        let s: &Sample = &module.samples[i];
        assert(module@.samples[i as int] == s@);
        if !s.is_empty() {
            let len: usize = s.pcm16.len();
            let end: u64 = s.loop_start as u64 + s.loop_length as u64;
            if len < 2 {
                return false;
            }
            if s.loop_length > 0 && end > u32::MAX as u64 {
                return false;
            }
            if s.loop_length > 0 && s.loop_length < crate::export::sampler::MIN_SAMPLER_LOOP_FRAMES
                && (2 * s.loop_start as u64 > u32::MAX as u64 || 2 * end > len as u64) {
                return false;
            }
        }
        i += 1;
    }
    true
}

pub open spec fn optional_text(o: Option<String>) -> Option<Seq<char>> {
    match o {
        Some(s) => Some(s@),
        None => None,
    }
}

fn finish_track(track: &mut Document, group: &Option<String>, arm: bool) -> (r: bool)
    requires
        old(track).nodes.len() > 0,
    ensures
        ({
            let out = finished_track(
                old(track)@,
                optional_text(*group),
                arm,
            );
            &&& r == (out is Some)
            &&& r ==> out == Some(final(track)@)
        }),
        is_tree(old(track)@) ==> is_tree(final(track)@),
{
    match group {
        Some(id) => {
            if !set_value(track, 0, "./TrackGroupId", id.as_str()) {
                return false;
            }
        },
        None => {},
    }
    if arm {
        set_value(track, 0, "./DeviceChain/MainSequencer/Recorder/IsArmed", "true")
    } else {
        true
    }
}

proof fn lemma_voices_stop(
    p: Progress,
    plan: Plan,
    i: int,
    group: Option<Seq<char>>,
    k: int,
    n: int,
)
    requires
        0 <= k <= n,
        with_voices(p, plan, i, group, k) is None,
    ensures
        with_voices(p, plan, i, group, n) is None,
    decreases n,
{
    if k < n {
        lemma_voices_stop(p, plan, i, group, k, n - 1);
    }
}

fn add_voice(
    out: &mut Assembly,
    template: &Document,
    sample: &Sample,
    file: &SampleFile,
    events: &Vec<NoteEvent>,
    bends: &Vec<Vec<i64>>,
    segments: &Vec<Segment>,
    panning: AmigaPanning,
    group: &Option<String>,
    v: usize,
    Ghost(plan): Ghost<Plan>,
    Ghost(i): Ghost<int>,
) -> (r: bool)
    requires
        is_tree(template@),
        playable(sample@),
        bends_fit(event_views(events@), bend_views(bends@)),
        plan.template == template@,
        sample@ == loopable(plan.samples[i]),
        plan.files[i] == file@,
        plan.events[i] == event_views(events@),
        plan.bends[i] == bend_views(bends@),
        plan.segments == segments@,
        plan.panning == panning,
        v < usize::MAX,
        all_trees(old(out).tracks@),
    ensures
        ({
            let made = with_voice(
                old(out).progress(),
                plan,
                i,
                optional_text(*group),
                v as int,
            );
            &&& r == (made is Some)
            &&& r ==> made == Some(final(out).progress())
        }),
        all_trees(final(out).tracks@),
{
    assert(template.nodes.len() == template@.len());
    let notes: Vec<LiveNote> = notes_of_voice(events, bends, v);
    let arm: bool = !out.armed;
    match build_track(template, sample, &mut out.ids, file, &notes, segments, panning, v) {
        None => false,
        Some(t) => {
            let mut track: Document = t;
            if !finish_track(&mut track, group, arm) {
                return false;
            }
            out.push(track);
            out.armed = true;
            true
        },
    }
}

fn add_voices(
    out: &mut Assembly,
    template: &Document,
    sample: &Sample,
    file: &SampleFile,
    events: &Vec<NoteEvent>,
    bends: &Vec<Vec<i64>>,
    segments: &Vec<Segment>,
    panning: AmigaPanning,
    group: &Option<String>,
    voices: usize,
    Ghost(plan): Ghost<Plan>,
    Ghost(i): Ghost<int>,
) -> (r: bool)
    requires
        is_tree(template@),
        playable(sample@),
        bends_fit(event_views(events@), bend_views(bends@)),
        plan.template == template@,
        sample@ == loopable(plan.samples[i]),
        plan.files[i] == file@,
        plan.events[i] == event_views(events@),
        plan.bends[i] == bend_views(bends@),
        plan.segments == segments@,
        plan.panning == panning,
        all_trees(old(out).tracks@),
    ensures
        ({
            let made = with_voices(
                old(out).progress(),
                plan,
                i,
                optional_text(*group),
                voices as int,
            );
            &&& r == (made is Some)
            &&& r ==> made == Some(final(out).progress())
        }),
        all_trees(final(out).tracks@),
{
    let ghost start = out.progress();
    let ghost id = optional_text(*group);
    let mut v: usize = 0;
    while v < voices
        invariant
            v <= voices,
            is_tree(template@),
            playable(sample@),
            bends_fit(event_views(events@), bend_views(bends@)),
            plan.template == template@,
            sample@ == loopable(plan.samples[i]),
            plan.files[i] == file@,
            plan.events[i] == event_views(events@),
            plan.bends[i] == bend_views(bends@),
            plan.segments == segments@,
            plan.panning == panning,
            start == old(out).progress(),
            id == optional_text(*group),
            with_voices(start, plan, i, id, v as int) == Some(out.progress()),
            all_trees(out.tracks@),
        decreases voices - v,
    {
        let done: bool = add_voice(
            out,
            template,
            sample,
            file,
            events,
            bends,
            segments,
            panning,
            group,
            v,
            Ghost(plan),
            Ghost(i),
        );
        if !done {
            proof {
                lemma_voices_stop(start, plan, i, id, v + 1, voices as int);
            }
            return false;
        }
        v += 1;
    }
    true
}

fn add_sample(
    out: &mut Assembly,
    template: &Document,
    group_template: &Document,
    sample: &Sample,
    file: &SampleFile,
    events: &Vec<NoteEvent>,
    bends: &Vec<Vec<i64>>,
    segments: &Vec<Segment>,
    panning: AmigaPanning,
    Ghost(plan): Ghost<Plan>,
    Ghost(i): Ghost<int>,
) -> (r: bool)
    requires
        is_tree(template@),
        is_tree(group_template@),
        sample@.is_empty() || playable(sample@),
        bends_fit(event_views(events@), bend_views(bends@)),
        0 <= i < plan.samples.len(),
        plan.template == template@,
        plan.group == group_template@,
        sample@ == plan.samples[i],
        plan.files[i] == file@,
        plan.events[i] == event_views(events@),
        plan.bends[i] == bend_views(bends@),
        plan.segments == segments@,
        plan.panning == panning,
        all_trees(old(out).tracks@),
    ensures
        ({
            let made = with_sample_tracks(old(out).progress(), plan, i);
            &&& r == (made is Some)
            &&& r ==> made == Some(final(out).progress())
        }),
        all_trees(final(out).tracks@),
{
    assert(template.nodes.len() == template@.len());
    assert(group_template.nodes.len() == group_template@.len());
    if sample.is_empty() {
        return true;
    }
    let ready: Sample = ensure_loopable(sample);
    let highest: usize = highest_voice(events);
    if highest == usize::MAX {
        return false;
    }
    let mut group: Option<String> = None;
    if highest > 0 {
        let name: String = display_name(&ready, 0);
        let color: i64 = color_index_for_sample(&ready);
        match build_group_track(group_template, name.as_str(), color, &mut out.ids) {
            Some((track, id)) => {
                out.push(track);
                group = Some(id);
            },
            None => {
                return false;
            },
        }
    }
    add_voices(
        out,
        template,
        &ready,
        file,
        events,
        bends,
        segments,
        panning,
        &group,
        highest + 1,
        Ghost(plan),
        Ghost(i),
    )
}

proof fn lemma_tracks_stop(plan: Plan, next: u64, k: int, n: int)
    requires
        0 <= k <= n,
        tracks_up_to(plan, next, k) is None,
    ensures
        tracks_up_to(plan, next, n) is None,
    decreases n,
{
    if k < n {
        lemma_tracks_stop(plan, next, k, n - 1);
    }
}

fn assemble(
    template: &Document,
    group_template: &Document,
    module: &Module,
    files: &Vec<SampleFile>,
    song: &SongEvents,
    bends: &Vec<Vec<Vec<i64>>>,
    panning: AmigaPanning,
    first: u64,
) -> (r: Option<Assembly>)
    requires
        is_tree(template@),
        is_tree(group_template@),
        can_export(module@, files@, *song, bends@),
    ensures
        ({
            let plan = plan_of(
                template@,
                group_template@,
                module@,
                files@,
                *song,
                bends@,
                panning,
            );
            match r {
                Some(out) => tracks_up_to(plan, first, plan.samples.len() as int) == Some(
                    out.progress(),
                ) && all_trees(out.tracks@),
                None => tracks_up_to(plan, first, plan.samples.len() as int) is None,
            }
        }),
{
    let ghost plan = plan_of(template@, group_template@, module@, files@, *song, bends@, panning);
    let mut out = Assembly { tracks: Vec::new(), ids: IdCounter { next: first }, armed: false };
    assert(doc_views(out.tracks@) =~= Seq::<Doc>::empty());
    let nobody: Vec<NoteEvent> = Vec::new();
    assert(event_views(nobody@) =~= Seq::<NoteEventView>::empty());
    let mut i: usize = 0;
    while i < module.samples.len()
        invariant
            i <= module.samples.len(),
            plan == plan_of(
                template@,
                group_template@,
                module@,
                files@,
                *song,
                bends@,
                panning,
            ),
            is_tree(template@),
            is_tree(group_template@),
            can_export(module@, files@, *song, bends@),
            event_views(nobody@) == Seq::<NoteEventView>::empty(),
            tracks_up_to(plan, first, i as int) == Some(out.progress()),
            all_trees(out.tracks@),
        decreases module.samples.len() - i,
    {
        let sample: &Sample = &module.samples[i];
        proof {
            assert(module@.samples[i as int] == sample@);
            assert(plan.files[i as int] == files[i as int]@);
            assert(plan.bends[i as int] == bend_views(bends[i as int]@));
            assert(plan.events[i as int] == song.notes_for(sample.index));
            assert(bends_fit(song.notes_for(sample.index), bend_views(bends[i as int]@)));
        }
        let events: &Vec<NoteEvent> = match song.notes_of(sample.index) {
            Some(v) => v,
            None => &nobody,
        };
        let done: bool = add_sample(
            &mut out,
            template,
            group_template,
            sample,
            &files[i],
            events,
            &bends[i],
            &song.segments,
            panning,
            Ghost(plan),
            Ghost(i as int),
        );
        if !done {
            proof {
                lemma_tracks_stop(plan, first, i + 1, module.samples.len() as int);
            }
            return None;
        }
        i += 1;
    }
    Some(out)
}

/// Builds the set of a module. None where the template lacks a part that tracks are made of.
pub fn build_set(
    template: &Template,
    group_template: &Document,
    module: &Module,
    files: &Vec<SampleFile>,
    song: &SongEvents,
    bends: &Vec<Vec<Vec<i64>>>,
    panning: AmigaPanning,
) -> (r: Option<Document>)
    requires
        is_tree(template.root@),
        is_tree(template.track@),
        is_tree(group_template@),
        can_export(module@, files@, *song, bends@),
    ensures
        ({
            let plan = plan_of(
                template.track@,
                group_template@,
                module@,
                files@,
                *song,
                bends@,
                panning,
            );
            match r {
                Some(d) => set_of(template.root@, plan, song.tempo_changes@) == Some(d@)
                    && is_tree(d@),
                None => set_of(template.root@, plan, song.tempo_changes@) is None,
            }
        }),
{
    let mut root: Document = template.root.clone();
    assert(root.nodes.len() == root@.len());
    let live: usize = match find(&root, 0, "./LiveSet") {
        Some(i) => i,
        None => {
            return None;
        },
    };
    if song.tempo_changes.len() > 0 {
        let value: String = text_of_tempo(&song.tempo_changes[0].tempo);
        let points: Vec<(String, String)> = points_of_tempo(&song.tempo_changes);
        set_tempo(&mut root, live, &value, &points);
    }
    let first: u64 = max_id(&root) + 1;
    match assemble(
        &template.track,
        group_template,
        module,
        files,
        song,
        bends,
        panning,
        first,
    ) {
        None => None,
        Some(out) => if replace_tracks(&mut root, live, out.tracks, out.ids.next) {
            Some(root)
        } else {
            None
        },
    }
}

/// The bytes hold a gzipped set: this document, where it is one that XML can hold.
pub open spec fn holds_set(bytes: Seq<u8>, d: Doc) -> bool {
    match gunzipped(bytes) {
        Ok(xml) => vstd::utf8::valid_utf8(xml) && (is_plain(d) ==> parsed_xml(xml) == Ok::<
            Doc,
            Seq<char>,
        >(as_written(d))),
        Err(_) => false,
    }
}

/// The comments of a document are set off by spaces.
pub open spec fn comments_are_spaced(d: Doc) -> bool {
    forall|i: int|
        0 <= i < d.len() ==> ((#[trigger] d[i]).content matches ContentView::Comment(s)
            ==> padded(s) == s)
}

/// A set that was written out is read back as it was, where it is one that XML can hold and its
/// comments are set off by spaces; where they are not, that is all that changes.
pub proof fn law_set_is_read_back(bytes: Seq<u8>, d: Doc)
    requires
        holds_set(bytes, d),
        is_plain(d),
    ensures
        document_in(bytes) == Ok::<Doc, Seq<char>>(as_written(d)),
        comments_are_spaced(d) ==> document_in(bytes) == Ok::<Doc, Seq<char>>(d),
{
    if comments_are_spaced(d) {
        assert(as_written(d) =~= d);
    }
}

/// Writes a set out, gzipped.
pub fn write_set(doc: &Document) -> (r: Result<Vec<u8>, String>)
    requires
        is_tree(doc@),
    ensures
        r matches Ok(bytes) && holds_set(bytes@, doc@),
{
    match write_document(doc) {
        Ok(xml) => match gzip(xml.as_slice()) {
            Ok(v) => Ok(v),
            Err(e) => {
                let mut text: String = "failed to finish gzip: ".to_owned();
                text.append(e.as_str());
                Err(text)
            },
        },
        Err(e) => Err(e),
    }
}

/// Why no set comes out.
#[derive(Debug)]
pub enum ExportError {
    /// The template lacks a part that tracks are made of.
    MissingPart,
    /// What the compressor said.
    Message(String),
}

/// Makes a module's set, ready to be saved.
pub fn export_als(
    template: &Template,
    group_template: &Document,
    module: &Module,
    files: &Vec<SampleFile>,
    song: &SongEvents,
    bends: &Vec<Vec<Vec<i64>>>,
    panning: AmigaPanning,
) -> (r: Result<Vec<u8>, ExportError>)
    requires
        is_tree(template.root@),
        is_tree(template.track@),
        is_tree(group_template@),
        can_export(module@, files@, *song, bends@),
    ensures
        ({
            let plan = plan_of(
                template.track@,
                group_template@,
                module@,
                files@,
                *song,
                bends@,
                panning,
            );
            match set_of(template.root@, plan, song.tempo_changes@) {
                None => r matches Err(ExportError::MissingPart),
                Some(d) => r matches Ok(bytes) && holds_set(bytes@, d),
            }
        }),
{
    match build_set(template, group_template, module, files, song, bends, panning) {
        None => Err(ExportError::MissingPart),
        Some(set) => match write_set(&set) {
            Ok(bytes) => Ok(bytes),
            Err(text) => Err(ExportError::Message(text)),
        },
    }
}

} // verus!
