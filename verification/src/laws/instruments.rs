//! What is set in the clips and instruments of a set, by the paths of their values.
use crate::export::automation::number_text;
use crate::export::clip::clip_values;
use crate::export::vgm_als::{
    audio_clip_values, audio_track_values, instrument_values, operator_values, patch_values,
    sound_values, table_values, voice_values, wavetable_values, with_patch,
};
use crate::export::vgm_operator::{
    feedback_percent, level_gain, rate_time, sustain_gain, OperatorRegs, OplRegisters,
};
use crate::laws::values::{law_values_are_read_back, lead_apart, paths_of, value_at};
use crate::text::decimal;
use crate::xmlutil::{with_values, Doc};
use vstd::prelude::*;

verus! {

pub open spec fn clip_paths() -> Seq<Seq<char>> {
    seq![
        "./Name"@,
        "./Color"@,
        "./CurrentStart"@,
        "./Loop/LoopStart"@,
        "./Loop/HiddenLoopStart"@,
        "./CurrentEnd"@,
        "./Loop/LoopEnd"@,
        "./Loop/OutMarker"@,
        "./Loop/HiddenLoopEnd"@,
    ]
}

/// A clip is named and colored, and stands, shows and loops from its start to its end.
pub proof fn law_clips_are_placed(
    d: Doc,
    at: int,
    name: Seq<char>,
    color: Seq<char>,
    start: Seq<char>,
    end: Seq<char>,
)
    requires
        0 <= at < d.len(),
        lead_apart(d, at, clip_paths()),
    ensures
        with_values(d, at, clip_values(name, color, start, end)) matches Some(e) ==> {
            &&& value_at(e, at, "./Name"@) == Some(name)
            &&& value_at(e, at, "./Color"@) == Some(color)
            &&& value_at(e, at, "./CurrentStart"@) == Some(start)
            &&& value_at(e, at, "./Loop/LoopStart"@) == Some(start)
            &&& value_at(e, at, "./Loop/HiddenLoopStart"@) == Some(start)
            &&& value_at(e, at, "./CurrentEnd"@) == Some(end)
            &&& value_at(e, at, "./Loop/LoopEnd"@) == Some(end)
            &&& value_at(e, at, "./Loop/OutMarker"@) == Some(end)
            &&& value_at(e, at, "./Loop/HiddenLoopEnd"@) == Some(end)
        },
{
    let list = clip_values(name, color, start, end);
    assert(paths_of(list) =~= clip_paths());
    law_values_are_read_back(d, at, list);
    match with_values(d, at, list) {
        None => {},
        Some(e) => {
            assert(list[0].0 == "./Name"@);
            assert(list[1].0 == "./Color"@);
            assert(list[2].0 == "./CurrentStart"@);
            assert(list[3].0 == "./Loop/LoopStart"@);
            assert(list[4].0 == "./Loop/HiddenLoopStart"@);
            assert(list[5].0 == "./CurrentEnd"@);
            assert(list[6].0 == "./Loop/LoopEnd"@);
            assert(list[7].0 == "./Loop/OutMarker"@);
            assert(list[8].0 == "./Loop/HiddenLoopEnd"@);
        },
    }
}

pub open spec fn audio_clip_paths() -> Seq<Seq<char>> {
    seq![
        "./CurrentStart"@,
        "./CurrentEnd"@,
        "./Loop/LoopStart"@,
        "./Loop/LoopEnd"@,
        "./Loop/HiddenLoopStart"@,
        "./Loop/HiddenLoopEnd"@,
        "./Loop/OutMarker"@,
        "./Loop/LoopOn"@,
        "./Name"@,
        "./Color"@,
        "./ScrollerTimePreserver/LeftTime"@,
        "./ScrollerTimePreserver/RightTime"@,
    ]
}

/// An audio clip stands from its start to its end and plays its file once from beginning to end.
pub proof fn law_audio_clips_are_placed(
    d: Doc,
    at: int,
    start: Seq<char>,
    end: Seq<char>,
    length: Seq<char>,
    name: Seq<char>,
    color: int,
)
    requires
        0 <= at < d.len(),
        lead_apart(d, at, audio_clip_paths()),
    ensures
        with_values(d, at, audio_clip_values(start, end, length, name, color)) matches Some(e) ==> {
            &&& value_at(e, at, "./CurrentStart"@) == Some(start)
            &&& value_at(e, at, "./CurrentEnd"@) == Some(end)
            &&& value_at(e, at, "./Loop/LoopStart"@) == Some("0"@)
            &&& value_at(e, at, "./Loop/LoopEnd"@) == Some(length)
            &&& value_at(e, at, "./Loop/HiddenLoopStart"@) == Some("0"@)
            &&& value_at(e, at, "./Loop/HiddenLoopEnd"@) == Some(length)
            &&& value_at(e, at, "./Loop/OutMarker"@) == Some(end)
            &&& value_at(e, at, "./Loop/LoopOn"@) == Some("false"@)
            &&& value_at(e, at, "./Name"@) == Some(name)
            &&& value_at(e, at, "./Color"@) == Some(decimal(color))
            &&& value_at(e, at, "./ScrollerTimePreserver/LeftTime"@) == Some("0"@)
            &&& value_at(e, at, "./ScrollerTimePreserver/RightTime"@) == Some(length)
        },
{
    let list = audio_clip_values(start, end, length, name, color);
    assert(paths_of(list) =~= audio_clip_paths());
    law_values_are_read_back(d, at, list);
    match with_values(d, at, list) {
        None => {},
        Some(e) => {
            assert(list[0].0 == "./CurrentStart"@);
            assert(list[1].0 == "./CurrentEnd"@);
            assert(list[2].0 == "./Loop/LoopStart"@);
            assert(list[3].0 == "./Loop/LoopEnd"@);
            assert(list[4].0 == "./Loop/HiddenLoopStart"@);
            assert(list[5].0 == "./Loop/HiddenLoopEnd"@);
            assert(list[6].0 == "./Loop/OutMarker"@);
            assert(list[7].0 == "./Loop/LoopOn"@);
            assert(list[8].0 == "./Name"@);
            assert(list[9].0 == "./Color"@);
            assert(list[10].0 == "./ScrollerTimePreserver/LeftTime"@);
            assert(list[11].0 == "./ScrollerTimePreserver/RightTime"@);
        },
    }
}

pub open spec fn sound_paths() -> Seq<Seq<char>> {
    seq![
        "./SampleRef/LastModDate"@,
        "./SampleRef/DefaultDuration"@,
        "./SampleRef/DefaultSampleRate"@,
        "./SampleRef/SamplesToAutoWarp"@,
    ]
}

/// The sound of a clip is as many frames at 44100 Hz, dated when the set is made.
pub proof fn law_sounds_are_described(d: Doc, at: int, frames: int, now: u64)
    requires
        0 <= at < d.len(),
        lead_apart(d, at, sound_paths()),
    ensures
        with_values(d, at, sound_values(frames, now)) matches Some(e) ==> {
            &&& value_at(e, at, "./SampleRef/LastModDate"@) == Some(decimal(now as int))
            &&& value_at(e, at, "./SampleRef/DefaultDuration"@) == Some(decimal(frames))
            &&& value_at(e, at, "./SampleRef/DefaultSampleRate"@) == Some("44100"@)
            &&& value_at(e, at, "./SampleRef/SamplesToAutoWarp"@) == Some("0"@)
        },
{
    let list = sound_values(frames, now);
    assert(paths_of(list) =~= sound_paths());
    law_values_are_read_back(d, at, list);
    match with_values(d, at, list) {
        None => {},
        Some(e) => {
            assert(list[0].0 == "./SampleRef/LastModDate"@);
            assert(list[1].0 == "./SampleRef/DefaultDuration"@);
            assert(list[2].0 == "./SampleRef/DefaultSampleRate"@);
            assert(list[3].0 == "./SampleRef/SamplesToAutoWarp"@);
        },
    }
}

pub open spec fn audio_track_paths() -> Seq<Seq<char>> {
    seq![
        "./Name/EffectiveName"@,
        "./Name/UserName"@,
        "./Color"@,
        "./TrackUnfolded"@,
        "./DeviceChain/MainSequencer/Recorder/IsArmed"@,
        "./DeviceChain/FreezeSequencer/Recorder/IsArmed"@,
        "./DeviceChain/Mixer/Volume/Manual"@,
    ]
}

/// An audio track is named and colored, folded and not armed, and six decibels down.
pub proof fn law_audio_tracks_are_named(d: Doc, at: int, name: Seq<char>, color: int)
    requires
        0 <= at < d.len(),
        lead_apart(d, at, audio_track_paths()),
    ensures
        with_values(d, at, audio_track_values(name, color)) matches Some(e) ==> {
            &&& value_at(e, at, "./Name/EffectiveName"@) == Some(name)
            &&& value_at(e, at, "./Name/UserName"@) == Some(name)
            &&& value_at(e, at, "./Color"@) == Some(decimal(color))
            &&& value_at(e, at, "./TrackUnfolded"@) == Some("false"@)
            &&& value_at(e, at, "./DeviceChain/MainSequencer/Recorder/IsArmed"@) == Some("false"@)
            &&& value_at(e, at, "./DeviceChain/FreezeSequencer/Recorder/IsArmed"@) == Some("false"@)
            &&& value_at(e, at, "./DeviceChain/Mixer/Volume/Manual"@) == Some(number_text(501_187))
        },
{
    let list = audio_track_values(name, color);
    assert(paths_of(list) =~= audio_track_paths());
    law_values_are_read_back(d, at, list);
    match with_values(d, at, list) {
        None => {},
        Some(e) => {
            assert(list[0].0 == "./Name/EffectiveName"@);
            assert(list[1].0 == "./Name/UserName"@);
            assert(list[2].0 == "./Color"@);
            assert(list[3].0 == "./TrackUnfolded"@);
            assert(list[4].0 == "./DeviceChain/MainSequencer/Recorder/IsArmed"@);
            assert(list[5].0 == "./DeviceChain/FreezeSequencer/Recorder/IsArmed"@);
            assert(list[6].0 == "./DeviceChain/Mixer/Volume/Manual"@);
        },
    }
}

pub open spec fn instrument_paths() -> Seq<Seq<char>> {
    seq![
        "./Name/EffectiveName"@,
        "./Name/UserName"@,
        "./Color"@,
        "./TrackUnfolded"@,
        ".//DeviceChain/MainSequencer/Recorder/IsArmed"@,
        ".//DeviceChain/FreezeSequencer/Recorder/IsArmed"@,
        "./DeviceChain/Mixer/Volume/Manual"@,
    ]
}

/// The track of an instrument is named and colored, folded and not armed, and six decibels down.
pub proof fn law_instruments_are_named(d: Doc, at: int, name: Seq<char>, color: int)
    requires
        0 <= at < d.len(),
        lead_apart(d, at, instrument_paths()),
    ensures
        with_values(d, at, instrument_values(name, color)) matches Some(e) ==> {
            &&& value_at(e, at, "./Name/EffectiveName"@) == Some(name)
            &&& value_at(e, at, "./Name/UserName"@) == Some(name)
            &&& value_at(e, at, "./Color"@) == Some(decimal(color))
            &&& value_at(e, at, "./TrackUnfolded"@) == Some("false"@)
            &&& value_at(e, at, ".//DeviceChain/MainSequencer/Recorder/IsArmed"@) == Some("false"@)
            &&& value_at(e, at, ".//DeviceChain/FreezeSequencer/Recorder/IsArmed"@)
                == Some("false"@)
            &&& value_at(e, at, "./DeviceChain/Mixer/Volume/Manual"@) == Some(number_text(501_187))
        },
{
    let list = instrument_values(name, color);
    assert(paths_of(list) =~= instrument_paths());
    law_values_are_read_back(d, at, list);
    match with_values(d, at, list) {
        None => {},
        Some(e) => {
            assert(list[0].0 == "./Name/EffectiveName"@);
            assert(list[1].0 == "./Name/UserName"@);
            assert(list[2].0 == "./Color"@);
            assert(list[3].0 == "./TrackUnfolded"@);
            assert(list[4].0 == ".//DeviceChain/MainSequencer/Recorder/IsArmed"@);
            assert(list[5].0 == ".//DeviceChain/FreezeSequencer/Recorder/IsArmed"@);
            assert(list[6].0 == "./DeviceChain/Mixer/Volume/Manual"@);
        },
    }
}

pub open spec fn wavetable_paths() -> Seq<Seq<char>> {
    seq![
        ".//Voice_Filter1_On/Manual"@,
        ".//Voice_Modulators_AmpEnvelope_Times_Attack/Manual"@,
        ".//Voice_Modulators_AmpEnvelope_Times_Decay/Manual"@,
        ".//Voice_Modulators_AmpEnvelope_Sustain/Manual"@,
        ".//Voice_Modulators_AmpEnvelope_Times_Release/Manual"@,
        ".//Voice_Unison_Amount/Manual"@,
        ".//Voice_Oscillator1_Wavetables_WavePosition/Manual"@,
    ]
}

/// A wavetable plays its waves as they are: no filter, no unison, the first wave, a short attack
/// and release.
pub proof fn law_wavetables_sound_plainly(d: Doc, at: int)
    requires
        0 <= at < d.len(),
        lead_apart(d, at, wavetable_paths()),
    ensures
        with_values(d, at, wavetable_values()) matches Some(e) ==> {
            &&& value_at(e, at, ".//Voice_Filter1_On/Manual"@) == Some("false"@)
            &&& value_at(e, at, ".//Voice_Modulators_AmpEnvelope_Times_Attack/Manual"@)
                == Some("0.008"@)
            &&& value_at(e, at, ".//Voice_Modulators_AmpEnvelope_Times_Decay/Manual"@)
                == Some("0.12"@)
            &&& value_at(e, at, ".//Voice_Modulators_AmpEnvelope_Sustain/Manual"@) == Some("0.65"@)
            &&& value_at(e, at, ".//Voice_Modulators_AmpEnvelope_Times_Release/Manual"@)
                == Some("0.08"@)
            &&& value_at(e, at, ".//Voice_Unison_Amount/Manual"@) == Some("0"@)
            &&& value_at(e, at, ".//Voice_Oscillator1_Wavetables_WavePosition/Manual"@)
                == Some("0"@)
        },
{
    let list = wavetable_values();
    assert(paths_of(list) =~= wavetable_paths());
    law_values_are_read_back(d, at, list);
    match with_values(d, at, list) {
        None => {},
        Some(e) => {
            assert(list[0].0 == ".//Voice_Filter1_On/Manual"@);
            assert(list[1].0 == ".//Voice_Modulators_AmpEnvelope_Times_Attack/Manual"@);
            assert(list[2].0 == ".//Voice_Modulators_AmpEnvelope_Times_Decay/Manual"@);
            assert(list[3].0 == ".//Voice_Modulators_AmpEnvelope_Sustain/Manual"@);
            assert(list[4].0 == ".//Voice_Modulators_AmpEnvelope_Times_Release/Manual"@);
            assert(list[5].0 == ".//Voice_Unison_Amount/Manual"@);
            assert(list[6].0 == ".//Voice_Oscillator1_Wavetables_WavePosition/Manual"@);
        },
    }
}

pub open spec fn table_paths() -> Seq<Seq<char>> {
    seq![
        "./LastModDate"@,
        "./DefaultDuration"@,
        "./DefaultSampleRate"@,
        "./SamplesToAutoWarp"@,
    ]
}

/// The file of a wavetable has 1024 frames at 44100 Hz for every wave.
pub proof fn law_tables_are_described(d: Doc, at: int, frames: int, now: u64)
    requires
        0 <= at < d.len(),
        lead_apart(d, at, table_paths()),
    ensures
        with_values(d, at, table_values(frames, now)) matches Some(e) ==> {
            &&& value_at(e, at, "./LastModDate"@) == Some(decimal(now as int))
            &&& value_at(e, at, "./DefaultDuration"@) == Some(decimal(1024 * frames))
            &&& value_at(e, at, "./DefaultSampleRate"@) == Some("44100"@)
            &&& value_at(e, at, "./SamplesToAutoWarp"@) == Some("0"@)
        },
{
    let list = table_values(frames, now);
    assert(paths_of(list) =~= table_paths());
    law_values_are_read_back(d, at, list);
    match with_values(d, at, list) {
        None => {},
        Some(e) => {
            assert(list[0].0 == "./LastModDate"@);
            assert(list[1].0 == "./DefaultDuration"@);
            assert(list[2].0 == "./DefaultSampleRate"@);
            assert(list[3].0 == "./SamplesToAutoWarp"@);
        },
    }
}

pub open spec fn operator_paths() -> Seq<Seq<char>> {
    seq![
        ".//Globals/Algorithm/Manual"@,
        ".//Operator.2/IsOn/Manual"@,
        ".//Operator.3/IsOn/Manual"@,
    ]
}

/// An OPL voice is two operators, the second modulating the first: the other two are off.
pub proof fn law_operators_stand_in_line(d: Doc, at: int)
    requires
        0 <= at < d.len(),
        lead_apart(d, at, operator_paths()),
    ensures
        with_values(d, at, operator_values()) matches Some(e) ==> {
            &&& value_at(e, at, ".//Globals/Algorithm/Manual"@) == Some("0"@)
            &&& value_at(e, at, ".//Operator.2/IsOn/Manual"@) == Some("false"@)
            &&& value_at(e, at, ".//Operator.3/IsOn/Manual"@) == Some("false"@)
        },
{
    let list = operator_values();
    assert(paths_of(list) =~= operator_paths());
    law_values_are_read_back(d, at, list);
    match with_values(d, at, list) {
        None => {},
        Some(e) => {
            assert(list[0].0 == ".//Globals/Algorithm/Manual"@);
            assert(list[1].0 == ".//Operator.2/IsOn/Manual"@);
            assert(list[2].0 == ".//Operator.3/IsOn/Manual"@);
        },
    }
}

pub open spec fn carrier_paths() -> Seq<Seq<char>> {
    seq![
        ".//Operator.0/IsOn/Manual"@,
        ".//Operator.0/WaveForm/Manual"@,
        ".//Operator.0/Tune/Coarse/Manual"@,
        ".//Operator.0/Tune/Fine/Manual"@,
        ".//Operator.0/Envelope/AttackTime/Manual"@,
        ".//Operator.0/Envelope/AttackLevel/Manual"@,
        ".//Operator.0/Envelope/DecayTime/Manual"@,
        ".//Operator.0/Envelope/DecayLevel/Manual"@,
        ".//Operator.0/Envelope/SustainLevel/Manual"@,
        ".//Operator.0/Envelope/ReleaseTime/Manual"@,
        ".//Operator.0/Envelope/ReleaseLevel/Manual"@,
    ]
}

/// The carrier of a patch is the first operator: it is on, a sine, with its own multiple, rates
/// and levels.
pub proof fn law_carriers_are_set(d: Doc, at: int, r: OperatorRegs)
    requires
        0 <= at < d.len(),
        lead_apart(d, at, carrier_paths()),
    ensures
        with_values(d, at, voice_values(true, r)) matches Some(e) ==> {
            &&& value_at(e, at, ".//Operator.0/IsOn/Manual"@) == Some("true"@)
            &&& value_at(e, at, ".//Operator.0/WaveForm/Manual"@) == Some("0"@)
            &&& value_at(e, at, ".//Operator.0/Tune/Coarse/Manual"@)
                == Some(decimal(r.multiple as int))
            &&& value_at(e, at, ".//Operator.0/Tune/Fine/Manual"@) == Some("0"@)
            &&& value_at(e, at, ".//Operator.0/Envelope/AttackTime/Manual"@)
                == Some(number_text(rate_time(r.attack_rate) as int))
            &&& value_at(e, at, ".//Operator.0/Envelope/AttackLevel/Manual"@) == Some("1"@)
            &&& value_at(e, at, ".//Operator.0/Envelope/DecayTime/Manual"@)
                == Some(number_text(rate_time(r.decay_rate) as int))
            &&& value_at(e, at, ".//Operator.0/Envelope/DecayLevel/Manual"@)
                == Some(number_text(sustain_gain(r.sustain_level) as int))
            &&& value_at(e, at, ".//Operator.0/Envelope/SustainLevel/Manual"@)
                == Some(number_text(sustain_gain(r.sustain_level) as int))
            &&& value_at(e, at, ".//Operator.0/Envelope/ReleaseTime/Manual"@)
                == Some(number_text(rate_time(r.release_rate) as int))
            &&& value_at(e, at, ".//Operator.0/Envelope/ReleaseLevel/Manual"@)
                == Some("0.0003162277571"@)
        },
{
    reveal(voice_values);
    let list = voice_values(true, r);
    assert(paths_of(list) =~= carrier_paths());
    law_values_are_read_back(d, at, list);
    match with_values(d, at, list) {
        None => {},
        Some(e) => {
            assert(list[0].0 == ".//Operator.0/IsOn/Manual"@);
            assert(list[1].0 == ".//Operator.0/WaveForm/Manual"@);
            assert(list[2].0 == ".//Operator.0/Tune/Coarse/Manual"@);
            assert(list[3].0 == ".//Operator.0/Tune/Fine/Manual"@);
            assert(list[4].0 == ".//Operator.0/Envelope/AttackTime/Manual"@);
            assert(list[5].0 == ".//Operator.0/Envelope/AttackLevel/Manual"@);
            assert(list[6].0 == ".//Operator.0/Envelope/DecayTime/Manual"@);
            assert(list[7].0 == ".//Operator.0/Envelope/DecayLevel/Manual"@);
            assert(list[8].0 == ".//Operator.0/Envelope/SustainLevel/Manual"@);
            assert(list[9].0 == ".//Operator.0/Envelope/ReleaseTime/Manual"@);
            assert(list[10].0 == ".//Operator.0/Envelope/ReleaseLevel/Manual"@);
        },
    }
}

pub open spec fn modulator_paths() -> Seq<Seq<char>> {
    seq![
        ".//Operator.1/IsOn/Manual"@,
        ".//Operator.1/WaveForm/Manual"@,
        ".//Operator.1/Tune/Coarse/Manual"@,
        ".//Operator.1/Tune/Fine/Manual"@,
        ".//Operator.1/Envelope/AttackTime/Manual"@,
        ".//Operator.1/Envelope/AttackLevel/Manual"@,
        ".//Operator.1/Envelope/DecayTime/Manual"@,
        ".//Operator.1/Envelope/DecayLevel/Manual"@,
        ".//Operator.1/Envelope/SustainLevel/Manual"@,
        ".//Operator.1/Envelope/ReleaseTime/Manual"@,
        ".//Operator.1/Envelope/ReleaseLevel/Manual"@,
    ]
}

/// The modulator of a patch is the second operator: it is on, a sine, with its own multiple,
/// rates and levels.
pub proof fn law_modulators_are_set(d: Doc, at: int, r: OperatorRegs)
    requires
        0 <= at < d.len(),
        lead_apart(d, at, modulator_paths()),
    ensures
        with_values(d, at, voice_values(false, r)) matches Some(e) ==> {
            &&& value_at(e, at, ".//Operator.1/IsOn/Manual"@) == Some("true"@)
            &&& value_at(e, at, ".//Operator.1/WaveForm/Manual"@) == Some("0"@)
            &&& value_at(e, at, ".//Operator.1/Tune/Coarse/Manual"@)
                == Some(decimal(r.multiple as int))
            &&& value_at(e, at, ".//Operator.1/Tune/Fine/Manual"@) == Some("0"@)
            &&& value_at(e, at, ".//Operator.1/Envelope/AttackTime/Manual"@)
                == Some(number_text(rate_time(r.attack_rate) as int))
            &&& value_at(e, at, ".//Operator.1/Envelope/AttackLevel/Manual"@) == Some("1"@)
            &&& value_at(e, at, ".//Operator.1/Envelope/DecayTime/Manual"@)
                == Some(number_text(rate_time(r.decay_rate) as int))
            &&& value_at(e, at, ".//Operator.1/Envelope/DecayLevel/Manual"@)
                == Some(number_text(sustain_gain(r.sustain_level) as int))
            &&& value_at(e, at, ".//Operator.1/Envelope/SustainLevel/Manual"@)
                == Some(number_text(sustain_gain(r.sustain_level) as int))
            &&& value_at(e, at, ".//Operator.1/Envelope/ReleaseTime/Manual"@)
                == Some(number_text(rate_time(r.release_rate) as int))
            &&& value_at(e, at, ".//Operator.1/Envelope/ReleaseLevel/Manual"@)
                == Some("0.0003162277571"@)
        },
{
    reveal(voice_values);
    let list = voice_values(false, r);
    assert(paths_of(list) =~= modulator_paths());
    law_values_are_read_back(d, at, list);
    match with_values(d, at, list) {
        None => {},
        Some(e) => {
            assert(list[0].0 == ".//Operator.1/IsOn/Manual"@);
            assert(list[1].0 == ".//Operator.1/WaveForm/Manual"@);
            assert(list[2].0 == ".//Operator.1/Tune/Coarse/Manual"@);
            assert(list[3].0 == ".//Operator.1/Tune/Fine/Manual"@);
            assert(list[4].0 == ".//Operator.1/Envelope/AttackTime/Manual"@);
            assert(list[5].0 == ".//Operator.1/Envelope/AttackLevel/Manual"@);
            assert(list[6].0 == ".//Operator.1/Envelope/DecayTime/Manual"@);
            assert(list[7].0 == ".//Operator.1/Envelope/DecayLevel/Manual"@);
            assert(list[8].0 == ".//Operator.1/Envelope/SustainLevel/Manual"@);
            assert(list[9].0 == ".//Operator.1/Envelope/ReleaseTime/Manual"@);
            assert(list[10].0 == ".//Operator.1/Envelope/ReleaseLevel/Manual"@);
        },
    }
}

pub open spec fn patch_paths() -> Seq<Seq<char>> {
    seq![
        ".//Operator.1/Feedback/Manual"@,
        ".//Operator.1/Volume/Manual"@,
    ]
}

/// The second operator modulates the first by its level, and itself by the feedback.
pub proof fn law_patches_are_set(d: Doc, at: int, p: OplRegisters)
    requires
        0 <= at < d.len(),
        lead_apart(d, at, patch_paths()),
    ensures
        with_values(d, at, patch_values(p)) matches Some(e) ==> {
            &&& value_at(e, at, ".//Operator.1/Feedback/Manual"@)
                == Some(number_text(feedback_percent(p.feedback) as int))
            &&& value_at(e, at, ".//Operator.1/Volume/Manual"@)
                == Some(number_text(level_gain(p.modulator.total_level) as int))
        },
{
    let list = patch_values(p);
    assert(paths_of(list) =~= patch_paths());
    law_values_are_read_back(d, at, list);
    match with_values(d, at, list) {
        None => {},
        Some(e) => {
            assert(list[0].0 == ".//Operator.1/Feedback/Manual"@);
            assert(list[1].0 == ".//Operator.1/Volume/Manual"@);
        },
    }
}

proof fn lemma_values_in_turn(
    d: Doc,
    at: int,
    a: Seq<(Seq<char>, Seq<char>)>,
    b: Seq<(Seq<char>, Seq<char>)>,
)
    ensures
        with_values(d, at, a + b) == match with_values(d, at, a) {
            Some(e) => with_values(e, at, b),
            None => None,
        },
    decreases b.len(),
{
    if b.len() == 0 {
        assert(a + b =~= a);
    } else {
        lemma_values_in_turn(d, at, a, b.drop_last());
        assert((a + b).drop_last() =~= a + b.drop_last());
        assert((a + b).last() == b.last());
    }
}

/// The patch of a track is the one that its channel had: the carrier, the modulator, and how the
/// one drives the other.
pub proof fn law_tracks_have_their_patch(d: Doc, p: OplRegisters)
    ensures
        with_patch(d, Some(p)) == with_values(
            d,
            0,
            voice_values(true, p.carrier) + voice_values(false, p.modulator) + patch_values(p),
        ),
        with_patch(d, None) == Some(d),
{
    let a = voice_values(true, p.carrier);
    let b = voice_values(false, p.modulator);
    lemma_values_in_turn(d, 0, a, b);
    lemma_values_in_turn(d, 0, a + b, patch_values(p));
}

} // verus!
