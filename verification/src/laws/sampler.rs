//! What the track of a sample says.
use crate::export::automation::number_text;
use crate::export::clock::{law_nearest_is_near, nearest};
use crate::export::curves::{fader_gain, joint_pan};
use crate::export::ids::{law_decimal_reads_back, Renumbering};
use crate::export::sampler::{
    clamped_pan, file_values, group_values, loopable, resting_pan, sample_values, track_name,
    track_values, SampleFileView,
};
use crate::formats::base::SampleView;
use crate::laws::values::{law_values_are_read_back, lead_apart, paths_of, value_at};
use crate::text::{decimal, trimmed, zero_padded};
use crate::xmlutil::{with_values, Doc, NodeView};
use vstd::prelude::*;

verus! {

/// Where the parts of a sampler track stand that differ from track to track.
pub open spec fn sampler_paths() -> Seq<Seq<char>> {
    seq![
        "./TrackUnfolded"@,
        "./DeviceChain/MainSequencer/Recorder/IsArmed"@,
        "./Name/EffectiveName"@,
        "./Name/UserName"@,
        "./Color"@,
        ".//MultiSampler/UserName"@,
        ".//MultiSampler/Pitch/TransposeKey/Manual"@,
        ".//MultiSampler/Pitch/TransposeFine/Manual"@,
        ".//MultiSampler/VolumeAndPan/Volume/Manual"@,
        "./DeviceChain/Mixer/Volume/Manual"@,
        ".//MultiSampler/VolumeAndPan/Panorama/Manual"@,
        ".//MultiSampler/Player/LoopModulators/SampleLength/Manual"@,
        ".//MultiSampler/Player/Snap/Manual"@,
        ".//MultiSampler/Globals/PortamentoMode/Manual"@,
        ".//MultiSampler/Filter/IsOn/Manual"@,
        ".//MultiSampler/VolumeAndPan/Envelope/DecayTime/Manual"@,
        ".//MultiSampler/VolumeAndPan/Envelope/ReleaseTime/Manual"@,
        ".//MultiSamplePart/RootKey"@,
        ".//MultiSamplePart/SampleStart"@,
        ".//MultiSamplePart/SampleEnd"@,
        ".//MultiSamplePart/SustainLoop/Start"@,
        ".//MultiSamplePart/SustainLoop/End"@,
        ".//MultiSamplePart/SustainLoop/Mode"@,
        ".//MultiSamplePart/ReleaseLoop/Start"@,
        ".//MultiSamplePart/ReleaseLoop/End"@,
    ]
}

/// A sample that loops is looped by its track, from the first frame of the loop to its last, and
/// one that does not is played once, from its first frame to its last. It is played at its own
/// pitch on its own key, from where its notes start, up to its last frame.
pub proof fn law_loops_are_looped(d: Doc, s: SampleView, voice: int, offset: u32)
    requires
        d.len() > 0,
        lead_apart(d, 0, sampler_paths()),
        s.loop_start + s.loop_length <= u32::MAX,
        2 <= s.pcm16.len() < 0x1_0000_0000,
    ensures
        with_values(d, 0, track_values(s, voice, offset)) matches Some(e) ==> {
            &&& value_at(e, 0, ".//MultiSamplePart/SustainLoop/Mode"@) == Some(
                if s.loop_length > 0 {
                    "1"@
                } else {
                    "0"@
                },
            )
            &&& s.loop_length > 0 ==> {
                &&& value_at(e, 0, ".//MultiSamplePart/SustainLoop/Start"@) == Some(
                    decimal(s.loop_start as int),
                )
                &&& value_at(e, 0, ".//MultiSamplePart/SustainLoop/End"@) == Some(
                    decimal(s.loop_start + s.loop_length - 1),
                )
            }
            &&& s.loop_length == 0 ==> {
                &&& value_at(e, 0, ".//MultiSamplePart/SustainLoop/Start"@) == Some(decimal(0))
                &&& value_at(e, 0, ".//MultiSamplePart/SustainLoop/End"@) == Some(
                    decimal(s.pcm16.len() / 2 - 1),
                )
            }
            &&& value_at(e, 0, ".//MultiSamplePart/ReleaseLoop/Start"@) == value_at(
                e,
                0,
                ".//MultiSamplePart/SustainLoop/Start"@,
            )
            &&& value_at(e, 0, ".//MultiSamplePart/ReleaseLoop/End"@) == value_at(
                e,
                0,
                ".//MultiSamplePart/SustainLoop/End"@,
            )
            &&& value_at(e, 0, ".//MultiSamplePart/RootKey"@) == Some(decimal(s.base_note as int))
            &&& value_at(e, 0, ".//MultiSamplePart/SampleStart"@) == Some(decimal(offset as int))
            &&& value_at(e, 0, ".//MultiSamplePart/SampleEnd"@) == Some(
                decimal(s.pcm16.len() / 2 - 1),
            )
        },
{
    let list = track_values(s, voice, offset);
    assert(paths_of(list) =~= sampler_paths());
    law_values_are_read_back(d, 0, list);
    match with_values(d, 0, list) {
        None => {},
        Some(e) => {
            assert(list[17].0 == ".//MultiSamplePart/RootKey"@);
            assert(list[18].0 == ".//MultiSamplePart/SampleStart"@);
            assert(list[19].0 == ".//MultiSamplePart/SampleEnd"@);
            assert(list[20].0 == ".//MultiSamplePart/SustainLoop/Start"@);
            assert(list[21].0 == ".//MultiSamplePart/SustainLoop/End"@);
            assert(list[22].0 == ".//MultiSamplePart/SustainLoop/Mode"@);
            assert(list[23].0 == ".//MultiSamplePart/ReleaseLoop/Start"@);
            assert(list[24].0 == ".//MultiSamplePart/ReleaseLoop/End"@);
        },
    }
}

/// A track is named after its sample and voice, in all three places; it has the sample's color; it
/// is folded and not armed; and what envelopes drive is at rest: no transposition, the fader at the
/// gain of full volume, which is twelve decibels down, and the panorama where the sample stands.
/// Filter, glide and snapping are off.
pub proof fn law_tracks_rest(d: Doc, s: SampleView, voice: int, offset: u32)
    requires
        d.len() > 0,
        lead_apart(d, 0, sampler_paths()),
        -127 <= s.pan <= 127,
    ensures
        with_values(d, 0, track_values(s, voice, offset)) matches Some(e) ==> {
            &&& value_at(e, 0, "./TrackUnfolded"@) == Some("false"@)
            &&& value_at(e, 0, "./DeviceChain/MainSequencer/Recorder/IsArmed"@) == Some("false"@)
            &&& value_at(e, 0, "./Name/EffectiveName"@) == Some(track_name(s, voice))
            &&& value_at(e, 0, "./Name/UserName"@) == Some(track_name(s, voice))
            &&& value_at(e, 0, ".//MultiSampler/UserName"@) == Some(track_name(s, voice))
            &&& value_at(e, 0, "./Color"@) == Some(decimal((s.index - 1) % 70))
            &&& value_at(e, 0, ".//MultiSampler/Pitch/TransposeKey/Manual"@) == Some("0"@)
            &&& value_at(e, 0, ".//MultiSampler/Pitch/TransposeFine/Manual"@) == Some("0"@)
            &&& value_at(e, 0, ".//MultiSampler/VolumeAndPan/Volume/Manual"@) == Some("0"@)
            &&& value_at(e, 0, "./DeviceChain/Mixer/Volume/Manual"@) == Some(number_text(251_189))
            &&& exists|p: int| #[trigger]
                rests_at(p, s.pan as int) && value_at(
                    e,
                    0,
                    ".//MultiSampler/VolumeAndPan/Panorama/Manual"@,
                ) == Some(number_text(p))
            &&& value_at(
                e,
                0,
                ".//MultiSampler/Player/LoopModulators/SampleLength/Manual"@,
            ) == Some("1"@)
            &&& value_at(e, 0, ".//MultiSampler/Player/Snap/Manual"@) == Some("false"@)
            &&& value_at(e, 0, ".//MultiSampler/Globals/PortamentoMode/Manual"@) == Some("0"@)
            &&& value_at(e, 0, ".//MultiSampler/Filter/IsOn/Manual"@) == Some("false"@)
            &&& value_at(e, 0, ".//MultiSampler/VolumeAndPan/Envelope/DecayTime/Manual"@) == Some(
                "1"@,
            )
            &&& value_at(e, 0, ".//MultiSampler/VolumeAndPan/Envelope/ReleaseTime/Manual"@) == Some(
                "1"@,
            )
        },
{
    let list = track_values(s, voice, offset);
    assert(paths_of(list) =~= sampler_paths());
    law_values_are_read_back(d, 0, list);
    assert(fader_gain(4096) == 251_189) by {
        assert((2 * (251_188_643_150_958int * 4096) + 4_096_000_000_000) / (2
            * 4_096_000_000_000int) == 251_189) by (nonlinear_arith);
    }
    lemma_resting(s);
    match with_values(d, 0, list) {
        None => {},
        Some(e) => {
            assert(list[0].0 == "./TrackUnfolded"@);
            assert(list[1].0 == "./DeviceChain/MainSequencer/Recorder/IsArmed"@);
            assert(list[2].0 == "./Name/EffectiveName"@);
            assert(list[3].0 == "./Name/UserName"@);
            assert(list[4].0 == "./Color"@);
            assert(list[5].0 == ".//MultiSampler/UserName"@);
            assert(list[6].0 == ".//MultiSampler/Pitch/TransposeKey/Manual"@);
            assert(list[7].0 == ".//MultiSampler/Pitch/TransposeFine/Manual"@);
            assert(list[8].0 == ".//MultiSampler/VolumeAndPan/Volume/Manual"@);
            assert(list[9].0 == "./DeviceChain/Mixer/Volume/Manual"@);
            assert(list[10].0 == ".//MultiSampler/VolumeAndPan/Panorama/Manual"@);
            assert(list[11].0 == ".//MultiSampler/Player/LoopModulators/SampleLength/Manual"@);
            assert(list[12].0 == ".//MultiSampler/Player/Snap/Manual"@);
            assert(list[13].0 == ".//MultiSampler/Globals/PortamentoMode/Manual"@);
            assert(list[14].0 == ".//MultiSampler/Filter/IsOn/Manual"@);
            assert(list[15].0 == ".//MultiSampler/VolumeAndPan/Envelope/DecayTime/Manual"@);
            assert(list[16].0 == ".//MultiSampler/VolumeAndPan/Envelope/ReleaseTime/Manual"@);
            assert(rests_at(resting_pan(s) as int, s.pan as int));
        },
    }
}

/// The panorama, in millionths, is nearest to where the sample stands, in 127ths.
pub open spec fn rests_at(micros: int, pan: int) -> bool {
    -127 <= 2 * (127 * micros - 1_000_000 * pan) <= 127
}

proof fn lemma_resting(s: SampleView)
    requires
        -127 <= s.pan <= 127,
    ensures
        rests_at(resting_pan(s) as int, s.pan as int),
{
    let num = 1_000_000 * (2048 * (256 * s.pan as int));
    law_nearest_is_near(num, 66_584_576);
    let x = nearest(num, 66_584_576);
    assert(256 * clamped_pan(s) == 256 * s.pan);
    assert(0 * (32_512 - (if s.pan < 0 {
        -(256 * s.pan)
    } else {
        256 * s.pan
    })) == 0);
    assert(joint_pan(256 * s.pan, 0) == x);
    assert(2 * 66_584_576 * x == 133_169_152 * x);
}

/// The name of a track: the number of the sample in two digits, its name, and the number of the
/// voice where it is not the first.
pub proof fn law_tracks_are_named(s: SampleView, voice: int)
    requires
        0 <= voice,
        s.index < 100,
    ensures
        ({
            let number = if s.index < 10 {
                seq!['0'] + decimal(s.index as int)
            } else {
                decimal(s.index as int)
            };
            let name = trimmed(number + seq![' '] + s.name);
            &&& voice == 0 ==> track_name(s, voice) == name
            &&& voice > 0 ==> track_name(s, voice) == name + seq![' ', '('] + decimal(voice + 1)
                + seq![')']
        }),
{
    reveal_strlit(" ");
    reveal_strlit(" (");
    reveal_strlit(")");
    assert(" "@ =~= seq![' ']);
    assert(" ("@ =~= seq![' ', '(']);
    assert(")"@ =~= seq![')']);
    let n = s.index as int;
    if n < 10 {
        assert(decimal(n).len() == 1);
        assert(zero_padded(decimal(n), 2) =~= seq!['0'] + decimal(n));
    } else {
        assert(crate::text::digits(n / 10, 10, false).len() == 1);
        assert(decimal(n).len() == 2);
    }
}

/// Where a reference to a sound file stands.
pub open spec fn file_paths() -> Seq<Seq<char>> {
    seq![
        "./RelativePathType"@,
        "./RelativePath"@,
        "./Path"@,
        "./Type"@,
        "./LivePackName"@,
        "./LivePackId"@,
        "./OriginalFileSize"@,
        "./OriginalCrc"@,
    ]
}

/// A reference to a sound file names it below the folder of imported samples, by that way and by
/// its whole path, with its size, and as a file of no pack.
pub proof fn law_files_are_referred_to(
    d: Doc,
    at: int,
    name: Seq<char>,
    file: SampleFileView,
)
    requires
        0 <= at < d.len(),
        lead_apart(d, at, file_paths()),
    ensures
        with_values(d, at, file_values(name, file)) matches Some(e) ==> {
            &&& value_at(e, at, "./RelativePath"@) == Some("Samples/Imported/"@ + name)
            &&& value_at(e, at, "./RelativePathType"@) == Some("1"@)
            &&& value_at(e, at, "./Path"@) == Some(file.path)
            &&& value_at(e, at, "./Type"@) == Some("2"@)
            &&& value_at(e, at, "./LivePackName"@) == Some(""@)
            &&& value_at(e, at, "./LivePackId"@) == Some(""@)
            &&& value_at(e, at, "./OriginalFileSize"@) == Some(decimal(file.size as int))
            &&& value_at(e, at, "./OriginalCrc"@) == Some("0"@)
        },
{
    let list = file_values(name, file);
    assert(paths_of(list) =~= file_paths());
    law_values_are_read_back(d, at, list);
    assert(list[0].0 == "./RelativePathType"@);
    assert(list[1].0 == "./RelativePath"@);
    assert(list[2].0 == "./Path"@);
    assert(list[3].0 == "./Type"@);
    assert(list[4].0 == "./LivePackName"@);
    assert(list[5].0 == "./LivePackId"@);
    assert(list[6].0 == "./OriginalFileSize"@);
    assert(list[7].0 == "./OriginalCrc"@);
}

/// Where the data of a sample stand.
pub open spec fn sample_paths() -> Seq<Seq<char>> {
    seq![
        ".//MultiSamplePart/SampleRef/LastModDate"@,
        ".//MultiSamplePart/SampleRef/DefaultDuration"@,
        ".//MultiSamplePart/SampleRef/DefaultSampleRate"@,
        ".//MultiSamplePart/SampleRef/SamplesToAutoWarp"@,
    ]
}

/// A track knows how many frames its sample has and at what rate they are played.
pub proof fn law_samples_are_described(d: Doc, s: SampleView, file: SampleFileView)
    requires
        d.len() > 0,
        lead_apart(d, 0, sample_paths()),
    ensures
        with_values(d, 0, sample_values(s, file)) matches Some(e) ==> {
            &&& value_at(e, 0, ".//MultiSamplePart/SampleRef/DefaultDuration"@) == Some(
                decimal(s.pcm16.len() as int / 2),
            )
            &&& value_at(e, 0, ".//MultiSamplePart/SampleRef/DefaultSampleRate"@) == Some(
                decimal(s.sample_rate_hz as int),
            )
            &&& value_at(e, 0, ".//MultiSamplePart/SampleRef/LastModDate"@) == Some(
                decimal(file.now as int),
            )
            &&& value_at(e, 0, ".//MultiSamplePart/SampleRef/SamplesToAutoWarp"@) == Some("0"@)
        },
{
    let list = sample_values(s, file);
    assert(paths_of(list) =~= sample_paths());
    law_values_are_read_back(d, 0, list);
    assert(list[0].0 == ".//MultiSamplePart/SampleRef/LastModDate"@);
    assert(list[1].0 == ".//MultiSamplePart/SampleRef/DefaultDuration"@);
    assert(list[2].0 == ".//MultiSamplePart/SampleRef/DefaultSampleRate"@);
    assert(list[3].0 == ".//MultiSamplePart/SampleRef/SamplesToAutoWarp"@);
}

/// Where the values of a group stand.
pub open spec fn group_paths() -> Seq<Seq<char>> {
    seq!["./Name/EffectiveName"@, "./Name/UserName"@, "./Color"@, "./TrackUnfolded"@]
}

/// A group has its name in both places, its color, and is folded.
pub proof fn law_groups_are_named(d: Doc, name: Seq<char>, color: int)
    requires
        d.len() > 0,
        lead_apart(d, 0, group_paths()),
    ensures
        with_values(d, 0, group_values(name, color)) matches Some(e) ==> {
            &&& value_at(e, 0, "./Name/EffectiveName"@) == Some(name)
            &&& value_at(e, 0, "./Name/UserName"@) == Some(name)
            &&& value_at(e, 0, "./Color"@) == Some(decimal(color))
            &&& value_at(e, 0, "./TrackUnfolded"@) == Some("false"@)
        },
{
    let list = group_values(name, color);
    assert(paths_of(list) =~= group_paths());
    law_values_are_read_back(d, 0, list);
    assert(list[0].0 == "./Name/EffectiveName"@);
    assert(list[1].0 == "./Name/UserName"@);
    assert(list[2].0 == "./Color"@);
    assert(list[3].0 == "./TrackUnfolded"@);
}

/// A loop that the sampler can play has 48 frames at least: a shorter one is played out as often
/// as that takes, and no oftener; any other sample is as it was.
pub proof fn law_loops_are_long_enough(s: SampleView)
    requires
        s.loop_length > 0,
        s.loop_length < 48 || s.loop_length + s.loop_start <= u32::MAX,
    ensures
        s.loop_length >= 48 ==> loopable(s) == s,
        s.loop_length < 48 ==> {
            let n = loopable(s).loop_length as int;
            &&& 48 <= n < 48 + s.loop_length
            &&& n % (s.loop_length as int) == 0
            &&& loopable(s).loop_start == s.loop_start
        },
{
    let l = s.loop_length as int;
    if l < 48 {
        let r = (48 + l - 1) / l;
        assert(l * r <= 47 + l && 47 < l * r) by (nonlinear_arith)
            requires
                r == (48 + l - 1) / l,
                0 < l < 48,
        ;
        assert((l * r) % l == 0) by (nonlinear_arith)
            requires
                l > 0,
        ;
    }
}

/// An identity from 1000 on is made anew in a copy of a track, and a smaller one is kept.
pub proof fn law_global_identities_are_made_anew(r: Renumbering, n: NodeView, id: int)
    requires
        0 <= id <= i64::MAX,
        n.attribute("Id"@) == Some(decimal(id)),
    ensures
        id < 1000 ==> r.step(n).nodes == r.nodes.push(n) && r.step(n).next == r.next,
        id >= 1000 ==> r.step(n).nodes == r.nodes.push(
            n.with_attribute("Id"@, decimal(r.next as int)),
        ) && (r.next < u64::MAX ==> r.step(n).next == r.next + 1),
{
    law_decimal_reads_back(id);
}

} // verus!
