//! Which tracks a set has, and how fast it plays.
use crate::export::als::{
    finished_track, return_tracks, tempo_points, tempo_text, timed, with_parts, with_sample_tracks,
    with_shown_tempo, with_tempo, with_voice, with_voices, Plan, Progress,
};
use crate::export::automation::number_text;
use crate::export::clock::{law_nearest_is_near, nearest};
use crate::export::pace::Pace;
use crate::export::sampler::{
    color_of, group_of, loopable, track_name, track_of, voice_count, voice_notes,
};
use crate::export::tempo::TempoChange;
use crate::export::vgm_set::{
    all_groups, grouped, in_group, operator_group, pace_text, wav_group, wavetable_group,
    VgmParts, VgmTemplates,
};
use crate::laws::parts::{has_part, law_parts_are_put_last, stands_at};
use crate::laws::values::value_at;
use crate::text::decimal;
use crate::xmlutil::{
    end_of, find_in, law_value_is_read_back, lemma_end, lemma_find, same_shape,
    with_child, with_value, without_children, Doc,
};
use vstd::prelude::*;

verus! {

proof fn lemma_parts(d: Doc, at: int, parts: Seq<Doc>, k: int)
    requires
        0 <= at < d.len(),
        d[at].depth < usize::MAX,
        k < parts.len(),
    ensures
        ({
            let e = with_parts(d, at, parts);
            &&& at < e.len()
            &&& e[at] == d[at]
            &&& 0 <= k ==> exists|i: int| #[trigger]
                stands_at(e, i, parts[k]) && i + parts[k].len() <= end_of(e, at)
        }),
    decreases parts.len(),
{
    if parts.len() > 0 {
        let rest = parts.drop_last();
        let e = with_parts(d, at, rest);
        let new = parts.last();
        if k < rest.len() {
            lemma_parts(d, at, rest, k);
            if 0 <= k {
                assert(rest[k] == parts[k]);
                let i = choose|i: int| #[trigger]
                    stands_at(e, i, parts[k]) && i + parts[k].len() <= end_of(e, at);
                law_parts_are_put_last(e, at, new, parts[k], i);
                assert(stands_at(with_child(e, at, new), i, parts[k]));
            } else {
                law_parts_are_put_last(e, at, new, new, 0);
            }
        } else {
            lemma_parts(d, at, rest, -1);
            law_parts_are_put_last(e, at, new, new, 0);
            assert(stands_at(with_child(e, at, new), end_of(e, at), new));
        }
    }
}

/// A set has every track that it is given, and keeps the returns of its template.
pub proof fn law_sets_have_their_tracks(d: Doc, live: int, tracks: Seq<Doc>, next: u64, k: int)
    requires
        0 <= live < d.len(),
        forall|j: int| 0 <= j < d.len() ==> (#[trigger] d[j]).depth < usize::MAX,
        find_in(d, live, "./Tracks"@) is Some,
        ({
            let at = find_in(d, live, "./Tracks"@)->0;
            0 <= k < (tracks + return_tracks(d, at)).len()
        }),
    ensures
        ({
            let at = find_in(d, live, "./Tracks"@)->0;
            let all = tracks + return_tracks(d, at);
            has_part(with_parts(without_children(d, at), at, all), all[k])
        }),
{
    lemma_find(d, live, "./Tracks"@);
    let at = find_in(d, live, "./Tracks"@)->0;
    lemma_end(d, d[at].depth, at + 1);
    let cleared = without_children(d, at);
    assert(cleared[at] == d[at]);
    lemma_parts(cleared, at, tracks + return_tracks(d, at), k);
}

/// The track of a voice is made of the template, of the sample in the form that the sampler can
/// loop, of its file, and of the notes of that voice and no other; it follows the tracks before.
pub proof fn law_tracks_are_of_their_voice(
    p: Progress,
    plan: Plan,
    i: int,
    group: Option<Seq<char>>,
    v: int,
)
    ensures
        with_voice(p, plan, i, group, v) matches Some(q) ==> {
            let made = track_of(
                plan.template,
                loopable(plan.samples[i]),
                p.next,
                plan.files[i],
                voice_notes(plan.events[i], plan.bends[i], v),
                plan.segments,
                plan.panning,
                v,
            );
            &&& made is Some
            &&& q.next == (made->0).1
            &&& q.tracks.len() == p.tracks.len() + 1
            &&& q.tracks.drop_last() == p.tracks
            &&& finished_track((made->0).0, group, !p.armed) == Some(q.tracks.last())
        },
{
    match with_voice(p, plan, i, group, v) {
        None => {},
        Some(q) => assert(q.tracks.drop_last() =~= p.tracks),
    }
}

/// The voices of a sample follow each other, from the first one on.
pub proof fn law_voices_follow_each_other(
    p: Progress,
    plan: Plan,
    i: int,
    group: Option<Seq<char>>,
    v: int,
)
    requires
        0 <= v,
    ensures
        with_voices(p, plan, i, group, 0) == Some(p),
        with_voices(p, plan, i, group, v + 1) == match with_voices(p, plan, i, group, v) {
            Some(q) => with_voice(q, plan, i, group, v),
            None => None,
        },
{
}

/// A sample without sound has no track, one voice has a track by itself, and several are put
/// into a group that is named and colored after the sample, and that they refer to by its number.
pub proof fn law_samples_have_their_tracks(p: Progress, plan: Plan, i: int)
    requires
        voice_count(plan.events[i]) <= usize::MAX,
    ensures
        ({
            let s = plan.samples[i];
            let n = voice_count(plan.events[i]);
            let r = with_sample_tracks(p, plan, i);
            &&& s.pcm16.len() == 0 ==> r == Some(p)
            &&& s.pcm16.len() > 0 && n <= 1 ==> r == with_voices(p, plan, i, None, n)
            &&& s.pcm16.len() > 0 && n > 1 ==> (r is Some ==> {
                let g = group_of(
                    plan.group,
                    track_name(loopable(s), 0),
                    color_of(loopable(s)),
                    p.next,
                );
                &&& g is Some
                &&& r == with_voices(
                    Progress { tracks: p.tracks.push((g->0).0), next: (g->0).1, ..p },
                    plan,
                    i,
                    Some(decimal(p.next as int)),
                    n,
                )
            })
        }),
{
}

/// The members of a group refer to it.
pub proof fn law_members_refer_to_their_group(tracks: Seq<Doc>, id: Seq<char>, n: int, k: int)
    requires
        0 <= k < n <= tracks.len(),
        tracks[k].len() > 0,
    ensures
        in_group(tracks, id, n) matches Some(done) ==> {
            &&& done.len() == n
            &&& value_at(done[k], 0, "./TrackGroupId"@) == Some(id)
            &&& same_shape(tracks[k], done[k])
        },
    decreases n,
{
    if k < n - 1 {
        law_members_refer_to_their_group(tracks, id, n - 1, k);
    } else {
        lemma_grouped_len(tracks, id, n - 1);
        match with_value(tracks[k], 0, "./TrackGroupId"@, id) {
            None => {},
            Some(d) => {
                law_value_is_read_back(tracks[k], 0, "./TrackGroupId"@, id);
                lemma_find(tracks[k], 0, "./TrackGroupId"@);
            },
        }
    }
}

proof fn lemma_grouped_len(tracks: Seq<Doc>, id: Seq<char>, n: int)
    requires
        0 <= n,
    ensures
        in_group(tracks, id, n) matches Some(done) ==> done.len() == n,
    decreases n,
{
    if n > 0 {
        lemma_grouped_len(tracks, id, n - 1);
    }
}

/// The tracks of a group come behind the group, which has the number that they refer to; a group
/// without tracks is left out.
pub proof fn law_groups_lead_their_tracks(tracks: Seq<Doc>, next: u64, group: Doc, name: Seq<char>)
    ensures
        tracks.len() == 0 ==> grouped((tracks, next), group, name) == Some(
            (Seq::<Doc>::empty(), next),
        ),
        tracks.len() > 0 ==> (grouped((tracks, next), group, name) matches Some((all, n)) ==> {
            let g = group_of(group, name, 0, next);
            &&& g == Some((all[0], n))
            &&& in_group(tracks, decimal(next as int), tracks.len() as int) == Some(
                all.drop_first(),
            )
        }),
{
    if tracks.len() > 0 {
        match grouped((tracks, next), group, name) {
            None => {},
            Some((all, n)) => {
                let members = in_group(tracks, decimal(next as int), tracks.len() as int)->0;
                assert(all.drop_first() =~= members);
            },
        }
    }
}

/// A rip's set has its rendered stems first, then the wavetables, then the operators.
pub proof fn law_groups_of_rips_are_in_order(t: VgmTemplates, p: VgmParts, next: u64)
    ensures
        all_groups(t, p, next) matches Some((all, n)) ==> {
            let a = wav_group(t, p, next);
            let b = wavetable_group(t, p, (a->0).1);
            let c = operator_group(t, p, (b->0).1);
            &&& a is Some && b is Some && c is Some
            &&& all == (a->0).0 + (b->0).0 + (c->0).0
            &&& n == (c->0).1
        },
{
}

/// The tempo of a rip, in millionths of beats to the minute, which has 2646000 samples.
pub proof fn law_paces_are_written(p: Pace)
    requires
        p.wf(),
    ensures
        exists|m: int| #[trigger]
            number_text(m) == pace_text(p)
                && (m < i64::MAX ==> -(p.samples as int) <= 2 * (p.samples
                * m - 1_000_000 * (2_646_000 * p.beats)) <= p.samples),
{
    let num = 2_646_000_000_000 * p.beats as int;
    law_nearest_is_near(num, p.samples as int);
    let m = nearest(num, p.samples as int);
    assert(2 * p.samples * m == 2 * (p.samples * m)) by (nonlinear_arith);
    assert(m >= 0) by (nonlinear_arith)
        requires
            2 * (p.samples * m) >= 2 * num - p.samples,
            num >= 0,
            p.samples > 0,
    ;
    let shown = crate::export::automation::clamped(m) as int;
    assert(shown < i64::MAX ==> shown == m);
    assert(1_000_000 * (2_646_000 * p.beats) == num);
    assert(shown == m ==> p.samples * shown == p.samples * m);
    assert(number_text(shown) == pace_text(p));
}

/// The tempo that a set shows is the one it is given; a song shows its first.
pub proof fn law_sets_show_their_tempo(d: Doc, at: int, value: Seq<char>)
    requires
        0 <= at < d.len(),
        find_in(d, at, ".//Tempo/Manual"@) is Some,
    ensures
        value_at(with_shown_tempo(d, at, value), at, ".//Tempo/Manual"@) == Some(value),
{
    law_value_is_read_back(d, at, ".//Tempo/Manual"@, value);
}

/// A song's set plays by its changes of tempo, and shows the first.
pub proof fn law_songs_begin_with_their_first_tempo(root: Doc, live: int, changes: Seq<TempoChange>)
    ensures
        changes.len() > 0 ==> timed(root, live, changes) == with_tempo(
            root,
            live,
            tempo_text(changes[0].tempo),
            tempo_points(changes),
        ),
        changes.len() == 0 ==> timed(root, live, changes) == root,
{
}

} // verus!
