//! The Live set of a chip rip: its tracks, in groups.
use crate::export::als::{
    all_trees, doc_views, first_free, holds_set, replace_tracks, set_tempo, steady, steady_points,
    with_tempo, with_tracks, write_set, ExportError,
};
use crate::export::automation::{clamp64, clamped, fmt_number, number_text};
use crate::export::ids::{max_id, IdCounter};
use crate::export::pace::Pace;
use crate::export::sampler::{build_group_track, group_of, SampleFile, SampleFileView};
use crate::export::vgm_als::{
    audio_track, build_audio_track, build_operator_track, build_wavetable_track, countable,
    frames_before, opl_track, part_views, parts_of, segment_views, split_point, stem_file_names,
    stem_files, stem_segments, wavetable_track, AudioSegment, AudioSegmentView,
};
use crate::export::vgm_operator::{operator_track_views, OperatorTrack, OperatorTrackView};
use crate::export::vgm_wavetable::{channel_track_views, ChannelTrack, ChannelTrackView};
use crate::text::{decimal, push_decimal, string_views};
use crate::xmlutil::{find, find_in, is_tree, set_value, with_value, Doc, Document};
use vstd::prelude::*;

verus! {

/// The audio of a stem.
#[derive(Debug)]
pub struct StemTrack {
    pub name: String,
    pub segments: Vec<AudioSegment>,
}

/// What a `StemTrack` holds.
#[verifier::ext_equal]
pub struct StemTrackView {
    pub name: Seq<char>,
    pub segments: Seq<AudioSegmentView>,
}

impl View for StemTrack {
    type V = StemTrackView;

    open spec fn view(&self) -> StemTrackView {
        StemTrackView { name: self.name@, segments: segment_views(self.segments@) }
    }
}

/// What stems hold.
pub open spec fn stem_views(stems: Seq<StemTrack>) -> Seq<StemTrackView> {
    stems.map_values(|s: StemTrack| s@)
}

/// What the set is to know of stem `index`, cut into its parts, each of which has its file.
pub open spec fn cut_stem(
    index: int,
    name: Seq<char>,
    split: Option<usize>,
    frames: usize,
    files: Seq<SampleFileView>,
) -> StemTrackView {
    let parts = parts_of(split, frames);
    StemTrackView {
        name,
        segments: Seq::new(
            parts.len(),
            |k: int|
                AudioSegmentView {
                    frames: (parts[k].1 - parts[k].0) as u32,
                    suffix: parts[k].2,
                    wav: stem_files(index, name, split is Some)[k],
                    file: files[k],
                },
        ),
    }
}

/// Puts together what the set is to know of a stem.
pub fn stem_track(
    index: u32,
    name: &str,
    split: Option<usize>,
    frames: usize,
    files: Vec<SampleFile>,
) -> (r: StemTrack)
    requires
        split matches Some(s) ==> 0 < s < frames,
        frames <= u32::MAX,
        files.len() == if split is Some {
            2int
        } else {
            1int
        },
    ensures
        r@ == cut_stem(index as int, name@, split, frames, files@.map_values(|f: SampleFile| f@)),
{
    let ghost views = files@.map_values(|f: SampleFile| f@);
    let ghost whole = cut_stem(index as int, name@, split, frames, views).segments;
    let mut parts: Vec<(usize, usize, String)> = stem_segments(split, frames);
    let mut names: Vec<String> = stem_file_names(index, name, split.is_some());
    let mut rest: Vec<SampleFile> = files;
    let mut segments: Vec<AudioSegment> = Vec::new();
    let ghost cuts = parts_of(split, frames);
    let ghost wavs = stem_files(index as int, name@, split is Some);
    proof {
        assert(part_views(parts@).len() == cuts.len());
        assert(string_views(names@).len() == wavs.len());
        assert(segment_views(segments@) =~= whole.take(0));
    }
    let mut k: usize = 0;
    while k < parts.len()
        invariant
            k <= parts.len(),
            parts.len() == whole.len(),
            parts.len() == names.len(),
            rest.len() == parts.len() - k,
            frames <= u32::MAX,
            split matches Some(s) ==> 0 < s < frames,
            cuts == parts_of(split, frames),
            wavs == stem_files(index as int, name@, split is Some),
            whole == cut_stem(index as int, name@, split, frames, views).segments,
            part_views(parts@) == cuts,
            string_views(names@) == wavs,
            forall|j: int| 0 <= j < rest.len() ==> (#[trigger] rest[j])@ == views[k + j],
            segment_views(segments@) == whole.take(k as int),
        decreases parts.len() - k,
    {
        let ghost before = segments@;
        proof {
            assert(part_views(parts@)[k as int] == cuts[k as int]);
            assert(string_views(names@)[k as int] == wavs[k as int]);
            assert(rest[0]@ == views[k as int]);
        }
        let file: SampleFile = rest.remove(0);
        let (from, to) = (parts[k].0, parts[k].1);
        let segment = AudioSegment {
            frames: (to - from) as u32,
            suffix: parts[k].2.clone(),
            wav: names[k].clone(),
            file,
        };
        assert(segment@ == whole[k as int]);
        segments.push(segment);
        k += 1;
        assert(segment_views(segments@) =~= segment_views(before).push(segment@));
        assert(segment_views(segments@) =~= whole.take(k as int));
    }
    assert(whole.take(k as int) =~= whole);
    StemTrack { name: name.to_owned(), segments }
}

/// With a loop point within the sound, every stem has two clips: an intro as long as the loop
/// point says, from the start, and right behind it a loop of the rest. Without one it has one
/// clip, which is the whole.
pub proof fn law_loop_point_cuts_stems(
    index: int,
    name: Seq<char>,
    loop_start: Option<u64>,
    frames: usize,
    files: Seq<SampleFileView>,
)
    requires
        frames <= u32::MAX,
    ensures
        ({
            let clips = cut_stem(index, name, split_point(loop_start, frames), frames, files).segments;
            match loop_start {
                Some(s) if 0 < s < frames => {
                    &&& clips.len() == 2
                    &&& clips[0].frames == s && clips[0].suffix == "intro"@
                    &&& clips[1].frames == frames - s && clips[1].suffix == "loop"@
                    &&& frames_before(clips, 0) == 0
                    &&& frames_before(clips, 1) == s
                    &&& frames_before(clips, 2) == frames
                },
                _ => clips.len() == 1 && clips[0].frames == frames && clips[0].suffix == ""@,
            }
        }),
{
    let clips = cut_stem(index, name, split_point(loop_start, frames), frames, files).segments;
    reveal_with_fuel(frames_before, 3);
}

/// The color of the track at a place: one after the other, starting over behind the last.
pub open spec fn color_at(i: int) -> int {
    (i + 1) % 70
}

fn track_color(i: usize) -> (r: i64)
    ensures
        r == color_at(i as int),
{
    ((i % 70 + 1) % 70) as i64
}

/// Tracks, and the next number behind them.
pub type Tracks = (Seq<Doc>, u64);

/// The tracks of the first `k` stems.
pub open spec fn stem_tracks(
    template: Doc,
    next: u64,
    stems: Seq<StemTrackView>,
    pace: Pace,
    k: int,
) -> Option<Tracks>
    decreases k,
{
    if k <= 0 {
        Some((Seq::empty(), next))
    } else {
        match stem_tracks(template, next, stems, pace, k - 1) {
            None => None,
            Some((tracks, n)) => match audio_track(
                template,
                n,
                stems[k - 1].name,
                color_at(k - 1),
                stems[k - 1].segments,
                pace,
            ) {
                Some((d, behind)) => Some((tracks.push(d), behind)),
                None => None,
            },
        }
    }
}

/// The name of a wavetable track, and that of its file.
pub open spec fn wavetable_name(i: int) -> Seq<char> {
    "SCC-"@ + decimal(i + 1) + " (Wavetable)"@
}

pub open spec fn wavetable_file(i: int) -> Seq<char> {
    "wt_scc"@ + decimal(i + 1) + ".wav"@
}

/// The tracks of the first `k` channels of the SCC, those that are heard.
pub open spec fn wavetable_tracks(
    template: Doc,
    next: u64,
    channels: Seq<ChannelTrackView>,
    files: Seq<SampleFileView>,
    end: i64,
    pace: Pace,
    k: int,
) -> Option<Tracks>
    decreases k,
{
    if k <= 0 {
        Some((Seq::empty(), next))
    } else {
        match wavetable_tracks(template, next, channels, files, end, pace, k - 1) {
            None => None,
            Some((tracks, n)) => if channels[k - 1].notes.len() == 0 {
                Some((tracks, n))
            } else {
                match wavetable_track(
                    template,
                    n,
                    wavetable_name(k - 1),
                    color_at(k - 1),
                    wavetable_file(k - 1),
                    files[k - 1],
                    channels[k - 1],
                    end,
                    pace,
                ) {
                    Some((d, behind)) => Some((tracks.push(d), behind)),
                    None => None,
                }
            },
        }
    }
}

/// The name of an Operator track.
pub open spec fn operator_name(label: Seq<char>, i: int) -> Seq<char> {
    label + "-"@ + decimal(i + 1) + " (Operator)"@
}

/// The tracks behind those of the first `k` channels of an OPL, those that are heard.
pub open spec fn opl_tracks(
    template: Doc,
    start: Tracks,
    label: Seq<char>,
    channels: Seq<OperatorTrackView>,
    end: i64,
    k: int,
) -> Option<Tracks>
    decreases k,
{
    if k <= 0 {
        Some(start)
    } else {
        match opl_tracks(template, start, label, channels, end, k - 1) {
            None => None,
            Some((tracks, n)) => if channels[k - 1].notes.len() == 0 {
                Some((tracks, n))
            } else {
                match opl_track(
                    template,
                    n,
                    operator_name(label, k - 1),
                    color_at(k - 1),
                    channels[k - 1],
                    end,
                ) {
                    Some((d, behind)) => Some((tracks.push(d), behind)),
                    None => None,
                }
            },
        }
    }
}

/// The tracks put into a group with this number.
pub open spec fn in_group(tracks: Seq<Doc>, id: Seq<char>, k: int) -> Option<Seq<Doc>>
    decreases k,
{
    if k <= 0 {
        Some(Seq::empty())
    } else {
        match in_group(tracks, id, k - 1) {
            None => None,
            Some(done) => match with_value(tracks[k - 1], 0, "./TrackGroupId"@, id) {
                Some(d) => Some(done.push(d)),
                None => None,
            },
        }
    }
}

/// A group and its tracks; nothing where there are no tracks.
pub open spec fn grouped(tracks: Tracks, group: Doc, name: Seq<char>) -> Option<Tracks> {
    let (list, next) = tracks;
    if list.len() == 0 {
        Some((Seq::empty(), next))
    } else {
        match group_of(group, name, 0, next) {
            None => None,
            Some((d, behind)) => match in_group(list, decimal(next as int), list.len() as int) {
                Some(members) => Some((seq![d] + members, behind)),
                None => None,
            },
        }
    }
}

proof fn lemma_stems_stop(
    template: Doc,
    next: u64,
    stems: Seq<StemTrackView>,
    pace: Pace,
    k: int,
    n: int,
)
    requires
        0 <= k <= n,
        stem_tracks(template, next, stems, pace, k) is None,
    ensures
        stem_tracks(template, next, stems, pace, n) is None,
    decreases n,
{
    if k < n {
        lemma_stems_stop(template, next, stems, pace, k, n - 1);
    }
}

/// Every stem's segments can be counted.
pub open spec fn all_countable(stems: Seq<StemTrack>) -> bool {
    forall|i: int| 0 <= i < stems.len() ==> countable(segment_views((#[trigger] stems[i]).segments@))
}

fn build_stem_tracks(
    template: &Document,
    ids: &mut IdCounter,
    stems: &Vec<StemTrack>,
    pace: &Pace,
) -> (r: Option<Vec<Document>>)
    requires
        is_tree(template@),
        pace.wf(),
        all_countable(stems@),
    ensures
        ({
            let out = stem_tracks(
                template@,
                old(ids).next,
                stem_views(stems@),
                *pace,
                stems.len() as int,
            );
            match r {
                Some(v) => out == Some((doc_views(v@), final(ids).next)) && all_trees(v@),
                None => out is None,
            }
        }),
{
    assert(template.nodes.len() == template@.len());
    let ghost next = ids.next;
    let ghost views = stem_views(stems@);
    let mut out: Vec<Document> = Vec::new();
    assert(doc_views(out@) =~= Seq::<Doc>::empty());
    let mut k: usize = 0;
    while k < stems.len()
        invariant
            k <= stems.len(),
            template.nodes.len() > 0,
            is_tree(template@),
            pace.wf(),
            all_countable(stems@),
            next == old(ids).next,
            views == stem_views(stems@),
            stem_tracks(template@, next, views, *pace, k as int) == Some(
                (doc_views(out@), ids.next),
            ),
            all_trees(out@),
        decreases stems.len() - k,
    {
        let stem: &StemTrack = &stems[k];
        assert(views[k as int] == stem@);
        let color: i64 = track_color(k);
        match build_audio_track(template, ids, stem.name.as_str(), color, &stem.segments, pace) {
            Some(d) => {
                let ghost before = out@;
                out.push(d);
                assert(doc_views(out@) =~= doc_views(before).push(d@));
            },
            None => {
                proof {
                    lemma_stems_stop(template@, next, views, *pace, k + 1, stems.len() as int);
                }
                return None;
            },
        }
        k += 1;
    }
    Some(out)
}

fn numbered(before: &str, i: usize, behind: &str) -> (r: String)
    requires
        i < 0xffff_ffff,
    ensures
        r@ == before@ + decimal(i + 1) + behind@,
{
    let mut text: String = before.to_owned();
    push_decimal(&mut text, i as u64 + 1);
    text.append(behind);
    text
}

/// The name of the WAV file of channel `i` of the SCC.
pub fn wavetable_file_name(i: usize) -> (r: String)
    requires
        i < 0xffff_ffff,
    ensures
        r@ == wavetable_file(i as int),
{
    numbered("wt_scc", i, ".wav")
}

proof fn lemma_wavetables_stop(
    template: Doc,
    next: u64,
    channels: Seq<ChannelTrackView>,
    files: Seq<SampleFileView>,
    end: i64,
    pace: Pace,
    k: int,
    n: int,
)
    requires
        0 <= k <= n,
        wavetable_tracks(template, next, channels, files, end, pace, k) is None,
    ensures
        wavetable_tracks(template, next, channels, files, end, pace, n) is None,
    decreases n,
{
    if k < n {
        lemma_wavetables_stop(template, next, channels, files, end, pace, k, n - 1);
    }
}

/// What files hold.
pub open spec fn file_views(files: Seq<SampleFile>) -> Seq<SampleFileView> {
    files.map_values(|f: SampleFile| f@)
}

/// There are few channels, each with few frames and with a file.
pub open spec fn channels_fit(channels: Seq<ChannelTrack>, files: Seq<SampleFile>) -> bool {
    &&& channels.len() < 0xffff_ffff
    &&& files.len() == channels.len()
    &&& forall|i: int|
        0 <= i < channels.len() ==> (#[trigger] channels[i]).frames.len() <= 0xffff_ffff
}

fn build_wavetable_tracks(
    template: &Document,
    ids: &mut IdCounter,
    channels: &Vec<ChannelTrack>,
    files: &Vec<SampleFile>,
    end: i64,
    pace: &Pace,
) -> (r: Option<Vec<Document>>)
    requires
        is_tree(template@),
        pace.wf(),
        channels_fit(channels@, files@),
    ensures
        ({
            let out = wavetable_tracks(
                template@,
                old(ids).next,
                channel_track_views(channels@),
                file_views(files@),
                end,
                *pace,
                channels.len() as int,
            );
            match r {
                Some(v) => out == Some((doc_views(v@), final(ids).next)) && all_trees(v@),
                None => out is None,
            }
        }),
{
    assert(template.nodes.len() == template@.len());
    let ghost next = ids.next;
    let ghost views = channel_track_views(channels@);
    let ghost paths = file_views(files@);
    let mut out: Vec<Document> = Vec::new();
    assert(doc_views(out@) =~= Seq::<Doc>::empty());
    let mut k: usize = 0;
    while k < channels.len()
        invariant
            k <= channels.len(),
            template.nodes.len() > 0,
            is_tree(template@),
            pace.wf(),
            channels_fit(channels@, files@),
            next == old(ids).next,
            views == channel_track_views(channels@),
            paths == file_views(files@),
            wavetable_tracks(template@, next, views, paths, end, *pace, k as int) == Some(
                (doc_views(out@), ids.next),
            ),
            all_trees(out@),
        decreases channels.len() - k,
    {
        let channel: &ChannelTrack = &channels[k];
        assert(views[k as int] == channel@);
        assert(paths[k as int] == files[k as int]@);
        if channel.notes.len() > 0 {
            let name: String = numbered("SCC-", k, " (Wavetable)");
            let wav: String = wavetable_file_name(k);
            let color: i64 = track_color(k);
            match build_wavetable_track(
                template,
                ids,
                name.as_str(),
                color,
                wav.as_str(),
                &files[k],
                channel,
                end,
                pace,
            ) {
                Some(d) => {
                    let ghost before = out@;
                    out.push(d);
                    assert(doc_views(out@) =~= doc_views(before).push(d@));
                },
                None => {
                    proof {
                        lemma_wavetables_stop(
                            template@,
                            next,
                            views,
                            paths,
                            end,
                            *pace,
                            k + 1,
                            channels.len() as int,
                        );
                    }
                    return None;
                },
            }
        }
        k += 1;
    }
    Some(out)
}

proof fn lemma_opl_stop(
    template: Doc,
    start: Tracks,
    label: Seq<char>,
    channels: Seq<OperatorTrackView>,
    end: i64,
    k: int,
    n: int,
)
    requires
        0 <= k <= n,
        opl_tracks(template, start, label, channels, end, k) is None,
    ensures
        opl_tracks(template, start, label, channels, end, n) is None,
    decreases n,
{
    if k < n {
        lemma_opl_stop(template, start, label, channels, end, k, n - 1);
    }
}

fn add_opl_tracks(
    out: &mut Vec<Document>,
    template: &Document,
    ids: &mut IdCounter,
    label: &str,
    channels: &Vec<OperatorTrack>,
    end: i64,
) -> (r: bool)
    requires
        is_tree(template@),
        channels.len() < 0xffff_ffff,
        all_trees(old(out)@),
    ensures
        ({
            let made = opl_tracks(
                template@,
                (doc_views(old(out)@), old(ids).next),
                label@,
                operator_track_views(channels@),
                end,
                channels.len() as int,
            );
            &&& r == (made is Some)
            &&& r ==> made == Some((doc_views(final(out)@), final(ids).next))
        }),
        all_trees(final(out)@),
{
    assert(template.nodes.len() == template@.len());
    let ghost start = (doc_views(out@), ids.next);
    let ghost views = operator_track_views(channels@);
    let mut prefix: String = label.to_owned();
    prefix.append("-");
    let mut k: usize = 0;
    while k < channels.len()
        invariant
            k <= channels.len(),
            channels.len() < 0xffff_ffff,
            template.nodes.len() > 0,
            is_tree(template@),
            prefix@ == label@ + "-"@,
            start == (doc_views(old(out)@), old(ids).next),
            views == operator_track_views(channels@),
            opl_tracks(template@, start, label@, views, end, k as int) == Some(
                (doc_views(out@), ids.next),
            ),
            all_trees(out@),
        decreases channels.len() - k,
    {
        let channel: &OperatorTrack = &channels[k];
        assert(views[k as int] == channel@);
        if channel.notes.len() > 0 {
            let name: String = numbered(prefix.as_str(), k, " (Operator)");
            let color: i64 = track_color(k);
            match build_operator_track(template, ids, name.as_str(), color, channel, end) {
                Some(d) => {
                    let ghost before = out@;
                    out.push(d);
                    assert(doc_views(out@) =~= doc_views(before).push(d@));
                },
                None => {
                    proof {
                        lemma_opl_stop(
                            template@,
                            start,
                            label@,
                            views,
                            end,
                            k + 1,
                            channels.len() as int,
                        );
                    }
                    return false;
                },
            }
        }
        k += 1;
    }
    true
}

proof fn lemma_group_stops(tracks: Seq<Doc>, id: Seq<char>, k: int, n: int)
    requires
        0 <= k <= n,
        in_group(tracks, id, k) is None,
    ensures
        in_group(tracks, id, n) is None,
    decreases n,
{
    if k < n {
        lemma_group_stops(tracks, id, k, n - 1);
    }
}

fn group_tracks(
    tracks: &Vec<Document>,
    group: &Document,
    name: &str,
    ids: &mut IdCounter,
) -> (r: Option<Vec<Document>>)
    requires
        is_tree(group@),
        all_trees(tracks@),
    ensures
        ({
            let out = grouped((doc_views(tracks@), old(ids).next), group@, name@);
            match r {
                Some(v) => out == Some((doc_views(v@), final(ids).next)) && all_trees(v@),
                None => out is None,
            }
        }),
{
    let mut out: Vec<Document> = Vec::new();
    if tracks.len() == 0 {
        assert(doc_views(out@) =~= Seq::<Doc>::empty());
        return Some(out);
    }
    assert(group.nodes.len() == group@.len());
    let ghost views = doc_views(tracks@);
    let (head, id): (Document, String) = match build_group_track(group, name, 0, ids) {
        Some(x) => x,
        None => {
            return None;
        },
    };
    out.push(head);
    assert(doc_views(out@) =~= seq![head@]);
    let mut k: usize = 0;
    assert(doc_views(out@) =~= seq![head@] + Seq::<Doc>::empty());
    while k < tracks.len()
        invariant
            k <= tracks.len(),
            all_trees(tracks@),
            views == doc_views(tracks@),
            in_group(views, id@, k as int) is Some,
            doc_views(out@) == seq![head@] + in_group(views, id@, k as int)->Some_0,
            all_trees(out@),
            id@ == decimal(old(ids).next as int),
            group_of(group@, name@, 0, old(ids).next) == Some((head@, ids.next)),
            views.len() > 0,
        decreases tracks.len() - k,
    {
        let mut track: Document = tracks[k].clone();
        assert(views[k as int] == tracks[k as int]@);
        assert(is_tree(tracks[k as int]@));
        assert(track.nodes.len() == track@.len());
        if !set_value(&mut track, 0, "./TrackGroupId", id.as_str()) {
            proof {
                lemma_group_stops(views, id@, k + 1, tracks.len() as int);
            }
            return None;
        }
        let ghost before = out@;
        let ghost done = in_group(views, id@, k as int)->Some_0;
        out.push(track);
        k += 1;
        proof {
            assert(doc_views(out@) =~= doc_views(before).push(track@));
            assert(in_group(views, id@, k as int) == Some(done.push(track@)));
            assert(seq![head@] + done.push(track@) =~= (seq![head@] + done).push(track@));
        }
    }
    Some(out)
}

/// The tracks that others are made of.
#[derive(Debug)]
pub struct VgmTemplates {
    pub audio: Document,
    pub group: Document,
    pub wavetable: Document,
    pub operator: Document,
}

impl VgmTemplates {
    pub open spec fn wf(self) -> bool {
        &&& is_tree(self.audio@)
        &&& is_tree(self.group@)
        &&& is_tree(self.wavetable@)
        &&& is_tree(self.operator@)
    }
}

/// What a set is made of. Where there are to be no tracks for Live's instruments, their lists
/// are empty.
#[derive(Debug)]
pub struct VgmParts {
    pub stems: Vec<StemTrack>,
    pub wavetables: Vec<ChannelTrack>,
    pub wavetable_files: Vec<SampleFile>,
    pub opl: Vec<OperatorTrack>,
    pub opl2: Vec<OperatorTrack>,
    /// How many samples the song has.
    pub samples: u64,
    pub pace: Pace,
}

impl VgmParts {
    pub open spec fn wf(self) -> bool {
        &&& self.pace.wf()
        &&& all_countable(self.stems@)
        &&& channels_fit(self.wavetables@, self.wavetable_files@)
        &&& self.opl.len() < 0xffff_ffff
        &&& self.opl2.len() < 0xffff_ffff
    }

    /// When the song ends.
    pub open spec fn end(self) -> i64 {
        self.pace.micros(self.samples as int)
    }
}

/// The group of the stems' tracks.
pub open spec fn wav_group(t: VgmTemplates, p: VgmParts, next: u64) -> Option<Tracks> {
    match stem_tracks(t.audio@, next, stem_views(p.stems@), p.pace, p.stems.len() as int) {
        Some(tracks) => grouped(tracks, t.group@, "WAV"@),
        None => None,
    }
}

/// The group of the SCC's tracks.
pub open spec fn wavetable_group(t: VgmTemplates, p: VgmParts, next: u64) -> Option<Tracks> {
    match wavetable_tracks(
        t.wavetable@,
        next,
        channel_track_views(p.wavetables@),
        file_views(p.wavetable_files@),
        p.end(),
        p.pace,
        p.wavetables.len() as int,
    ) {
        Some(tracks) => grouped(tracks, t.group@, "Wavetable"@),
        None => None,
    }
}

/// The group of the OPLs' tracks.
pub open spec fn operator_group(t: VgmTemplates, p: VgmParts, next: u64) -> Option<Tracks> {
    match opl_tracks(
        t.operator@,
        (Seq::empty(), next),
        "OPL"@,
        operator_track_views(p.opl@),
        p.end(),
        p.opl.len() as int,
    ) {
        None => None,
        Some(first) => match opl_tracks(
            t.operator@,
            first,
            "OPL2"@,
            operator_track_views(p.opl2@),
            p.end(),
            p.opl2.len() as int,
        ) {
            None => None,
            Some(tracks) => grouped(tracks, t.group@, "Operator"@),
        },
    }
}

proof fn lemma_stems_are_counted(
    template: Doc,
    next: u64,
    stems: Seq<StemTrackView>,
    pace: Pace,
    k: int,
)
    requires
        0 <= k,
        stem_tracks(template, next, stems, pace, k) is Some,
    ensures
        (stem_tracks(template, next, stems, pace, k)->0).0.len() == k,
    decreases k,
{
    if k > 0 {
        lemma_stems_are_counted(template, next, stems, pace, k - 1);
    }
}

proof fn lemma_members_are_counted(tracks: Seq<Doc>, id: Seq<char>, k: int)
    requires
        0 <= k,
        in_group(tracks, id, k) is Some,
    ensures
        in_group(tracks, id, k)->0.len() == k,
    decreases k,
{
    if k > 0 {
        lemma_members_are_counted(tracks, id, k - 1);
    }
}

/// There is one track for every stem, behind the group that they are in; without stems there
/// is no group either.
pub proof fn law_a_track_for_every_stem(t: VgmTemplates, p: VgmParts, next: u64)
    requires
        wav_group(t, p, next) is Some,
    ensures
        (wav_group(t, p, next)->0).0.len() == if p.stems.len() == 0 {
            0
        } else {
            p.stems.len() + 1
        },
{
    let stems = stem_views(p.stems@);
    lemma_stems_are_counted(t.audio@, next, stems, p.pace, p.stems.len() as int);
    let (list, n) = stem_tracks(t.audio@, next, stems, p.pace, p.stems.len() as int)->0;
    if list.len() > 0 {
        lemma_members_are_counted(list, decimal(n as int), list.len() as int);
    }
}

/// All groups, one behind the other.
pub open spec fn all_groups(t: VgmTemplates, p: VgmParts, next: u64) -> Option<Tracks> {
    match wav_group(t, p, next) {
        None => None,
        Some((a, n1)) => match wavetable_group(t, p, n1) {
            None => None,
            Some((b, n2)) => match operator_group(t, p, n2) {
                None => None,
                Some((c, n3)) => Some((a + b + c, n3)),
            },
        },
    }
}

/// The tempo of a pace, as text.
pub open spec fn pace_text(pace: Pace) -> Seq<char> {
    number_text(clamped(pace.bpm()) as int)
}

/// The set of a chip rip: its tracks, and a tempo that never changes.
pub open spec fn vgm_set(root: Doc, t: VgmTemplates, p: VgmParts) -> Option<Doc> {
    match find_in(root, 0, "./LiveSet"@) {
        None => None,
        Some(live) => match all_groups(t, p, first_free(root)) {
            None => None,
            Some((tracks, next)) => match with_tracks(root, live, tracks, next) {
                None => None,
                Some(d) => Some(with_tempo(d, live, pace_text(p.pace), steady(pace_text(p.pace)))),
            },
        },
    }
}

fn build_wav_group(t: &VgmTemplates, p: &VgmParts, ids: &mut IdCounter) -> (r: Option<Vec<Document>>)
    requires
        t.wf(),
        p.wf(),
    ensures
        match r {
            Some(v) => wav_group(*t, *p, old(ids).next) == Some((doc_views(v@), final(ids).next))
                && all_trees(v@),
            None => wav_group(*t, *p, old(ids).next) is None,
        },
{
    match build_stem_tracks(&t.audio, ids, &p.stems, &p.pace) {
        Some(tracks) => group_tracks(&tracks, &t.group, "WAV", ids),
        None => None,
    }
}

fn build_wavetable_group(t: &VgmTemplates, p: &VgmParts, ids: &mut IdCounter) -> (r: Option<
    Vec<Document>,
>)
    requires
        t.wf(),
        p.wf(),
    ensures
        match r {
            Some(v) => wavetable_group(*t, *p, old(ids).next) == Some(
                (doc_views(v@), final(ids).next),
            ) && all_trees(v@),
            None => wavetable_group(*t, *p, old(ids).next) is None,
        },
{
    let end: i64 = p.pace.samples_to_beats(p.samples);
    match build_wavetable_tracks(
        &t.wavetable,
        ids,
        &p.wavetables,
        &p.wavetable_files,
        end,
        &p.pace,
    ) {
        Some(tracks) => group_tracks(&tracks, &t.group, "Wavetable", ids),
        None => None,
    }
}

fn build_operator_group(t: &VgmTemplates, p: &VgmParts, ids: &mut IdCounter) -> (r: Option<
    Vec<Document>,
>)
    requires
        t.wf(),
        p.wf(),
    ensures
        match r {
            Some(v) => operator_group(*t, *p, old(ids).next) == Some(
                (doc_views(v@), final(ids).next),
            ) && all_trees(v@),
            None => operator_group(*t, *p, old(ids).next) is None,
        },
{
    let end: i64 = p.pace.samples_to_beats(p.samples);
    let mut tracks: Vec<Document> = Vec::new();
    assert(doc_views(tracks@) =~= Seq::<Doc>::empty());
    if !add_opl_tracks(&mut tracks, &t.operator, ids, "OPL", &p.opl, end) {
        return None;
    }
    if !add_opl_tracks(&mut tracks, &t.operator, ids, "OPL2", &p.opl2, end) {
        return None;
    }
    group_tracks(&tracks, &t.group, "Operator", ids)
}

proof fn lemma_joined_trees(a: Seq<Document>, b: Seq<Document>)
    requires
        all_trees(a),
        all_trees(b),
    ensures
        all_trees(a + b),
        doc_views(a + b) == doc_views(a) + doc_views(b),
{
    assert forall|i: int| 0 <= i < (a + b).len() implies is_tree((#[trigger] (a + b)[i])@) by {
        if i < a.len() {
            assert((a + b)[i] == a[i]);
        } else {
            assert((a + b)[i] == b[i - a.len()]);
        }
    }
    assert(doc_views(a + b) =~= doc_views(a) + doc_views(b));
}

fn build_groups(t: &VgmTemplates, p: &VgmParts, ids: &mut IdCounter) -> (r: Option<Vec<Document>>)
    requires
        t.wf(),
        p.wf(),
    ensures
        match r {
            Some(v) => all_groups(*t, *p, old(ids).next) == Some((doc_views(v@), final(ids).next))
                && all_trees(v@),
            None => all_groups(*t, *p, old(ids).next) is None,
        },
{
    let mut tracks: Vec<Document> = match build_wav_group(t, p, ids) {
        Some(v) => v,
        None => {
            return None;
        },
    };
    let mut more: Vec<Document> = match build_wavetable_group(t, p, ids) {
        Some(v) => v,
        None => {
            return None;
        },
    };
    proof {
        lemma_joined_trees(tracks@, more@);
    }
    tracks.append(&mut more);
    let mut last: Vec<Document> = match build_operator_group(t, p, ids) {
        Some(v) => v,
        None => {
            return None;
        },
    };
    proof {
        lemma_joined_trees(tracks@, last@);
    }
    tracks.append(&mut last);
    Some(tracks)
}

/// Builds the set of a chip rip. None where a template lacks a part.
pub fn build_vgm_set(root: &Document, t: &VgmTemplates, p: &VgmParts) -> (r: Option<Document>)
    requires
        is_tree(root@),
        t.wf(),
        p.wf(),
    ensures
        match r {
            Some(d) => vgm_set(root@, *t, *p) == Some(d@) && is_tree(d@),
            None => vgm_set(root@, *t, *p) is None,
        },
{
    let mut set: Document = root.clone();
    assert(set.nodes.len() == set@.len());
    let live: usize = match find(&set, 0, "./LiveSet") {
        Some(i) => i,
        None => {
            return None;
        },
    };
    let mut ids = IdCounter { next: max_id(&set) + 1 };
    let tracks: Vec<Document> = match build_groups(t, p, &mut ids) {
        Some(v) => v,
        None => {
            return None;
        },
    };
    if !replace_tracks(&mut set, live, tracks, ids.next) {
        return None;
    }
    let value: String = fmt_number(clamp64(p.pace.bpm_micros()));
    let points: Vec<(String, String)> = steady_points(&value);
    set_tempo(&mut set, live, &value, &points);
    Some(set)
}

/// The tempo that a template shows, as text; or what it lacks.
pub open spec fn shown_tempo(root: Doc) -> Result<Option<Seq<char>>, Seq<char>> {
    match find_in(root, 0, "./LiveSet"@) {
        None => Err("template .als has no LiveSet element"@),
        Some(live) => match find_in(root, live, ".//Tempo/Manual"@) {
            None => Err("template .als has no Tempo element"@),
            Some(i) => Ok(root[i].attribute("Value"@)),
        },
    }
}

pub fn template_tempo(root: &Document) -> (r: Result<Option<String>, String>)
    requires
        root.nodes.len() > 0,
    ensures
        match r {
            Ok(Some(s)) => shown_tempo(root@) == Ok::<Option<Seq<char>>, Seq<char>>(Some(s@)),
            Ok(None) => shown_tempo(root@) == Ok::<Option<Seq<char>>, Seq<char>>(None),
            Err(e) => shown_tempo(root@) == Err::<Option<Seq<char>>, Seq<char>>(e@),
        },
{
    match find(root, 0, "./LiveSet") {
        None => Err("template .als has no LiveSet element".to_owned()),
        Some(live) => match find(root, live, ".//Tempo/Manual") {
            None => Err("template .als has no Tempo element".to_owned()),
            Some(i) => Ok(root.attribute(i, "Value")),
        },
    }
}

/// Makes a chip rip's set, ready to be saved.
pub fn export_als(root: &Document, t: &VgmTemplates, p: &VgmParts) -> (r: Result<
    Vec<u8>,
    ExportError,
>)
    requires
        is_tree(root@),
        t.wf(),
        p.wf(),
    ensures
        match vgm_set(root@, *t, *p) {
            None => r matches Err(ExportError::MissingPart),
            Some(d) => r matches Ok(bytes) && holds_set(bytes@, d),
        },
{
    match build_vgm_set(root, t, p) {
        None => Err(ExportError::MissingPart),
        Some(set) => match write_set(&set) {
            Ok(bytes) => Ok(bytes),
            Err(text) => Err(ExportError::Message(text)),
        },
    }
}

} // verus!
