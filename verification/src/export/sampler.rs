//! Sampler tracks of a Live set: one plays one voice of one sample.
use crate::export::automation::{
    build_automation_envelope, clamp64, clamped, fmt_number, next_behind_envelope, number_text,
    stepped, in_time_order, with_envelope, Mark,
};
use crate::export::clip::{build_clip, clip_of, ClippedNote};
use crate::export::clock::round_signed;
use crate::export::curves::{
    bend_marks, bend_points, fader_gain, joint_pan, live_note, live_views, live_wf, pan_marks,
    pan_points, to_live, volume_marks, volume_points, volume_to_gain, AmigaPanning, LiveNote,
    LiveNoteView,
};
use crate::export::ids::{after, next_after, renumber_global_ids, renumbered, IdCounter};
use crate::export::notes::{event_views, NoteEvent, NoteEventView};
use crate::export::tempo::Segment;
use crate::export::wav::{sample_wav_filename, wav_filename};
use crate::formats::base::{Envelope, Sample, SampleView};
use crate::text::{count_text, decimal, decimal_string, push_decimal, push_decimal_padded, trim, trimmed, zero_padded};
use crate::xmlutil::{
    child, child_of, end_of, find, find_all_descendants, find_in, is_tree, named_up_to, pairs,
    part_at, positions, set_values, with_attribute, with_child, with_values, without, Doc,
    Document,
};
use vstd::prelude::*;

verus! {

/// Live has this many colors.
pub const COLOR_PALETTE_SIZE: i64 = 70;

/// Live's Sampler refuses a shorter loop.
pub const MIN_SAMPLER_LOOP_FRAMES: u32 = 48;

/// The color of a sample's tracks: one color for each sample, starting over behind the last.
pub open spec fn color_of(s: SampleView) -> int {
    (s.index - 1) % (COLOR_PALETTE_SIZE as int)
}

pub fn color_index_for_sample(sample: &Sample) -> (r: i64)
    ensures
        r == color_of(sample@),
        0 <= r < COLOR_PALETTE_SIZE,
{
    if sample.index == 0 {
        COLOR_PALETTE_SIZE - 1
    } else {
        (sample.index as i64 - 1) % COLOR_PALETTE_SIZE
    }
}

/// How often a loop is played to be long enough for the Sampler.
pub open spec fn repeats_of(loop_length: int) -> int {
    (MIN_SAMPLER_LOOP_FRAMES + loop_length - 1) / loop_length
}

/// A piece of sound, a number of times.
pub open spec fn repeated(piece: Seq<u8>, times: int) -> Seq<u8>
    decreases times,
{
    if times <= 0 {
        Seq::empty()
    } else {
        repeated(piece, times - 1) + piece
    }
}

/// The loop has to be played out for the Sampler to take it.
pub open spec fn is_short_loop(s: SampleView) -> bool {
    s.has_loop() && s.loop_length < MIN_SAMPLER_LOOP_FRAMES
}

/// The sample with its loop played out as often as the Sampler needs: it sounds the same.
pub open spec fn loopable(s: SampleView) -> SampleView {
    if is_short_loop(s) {
        let repeats = repeats_of(s.loop_length as int);
        SampleView {
            pcm16: s.pcm16.take(2 * s.loop_start) + repeated(
                s.pcm16.subrange(2 * s.loop_start, 2 * (s.loop_start + s.loop_length)),
                repeats,
            ),
            loop_length: (s.loop_length * repeats) as u32,
            ..s
        }
    } else {
        s
    }
}

/// The sample has sound, and its loop is a part of it.
pub open spec fn playable(s: SampleView) -> bool {
    &&& s.pcm16.len() >= 2
    &&& s.has_loop() ==> s.loop_start + s.loop_length <= u32::MAX
    &&& is_short_loop(s) ==> 2 * s.loop_start <= u32::MAX && 2 * (s.loop_start + s.loop_length)
        <= s.pcm16.len()
}

fn copy_envelope(e: &Option<Envelope>) -> (r: Option<Envelope>)
    ensures
        (match r {
            Some(x) => Some(x@),
            None => None,
        }) == (match *e {
            Some(x) => Some(x@),
            None => None,
        }),
{
    match e {
        Some(x) => Some(x.clone()),
        None => None,
    }
}

fn copy_bytes(bytes: &Vec<u8>, from: usize, to: usize, out: &mut Vec<u8>)
    requires
        from <= to <= bytes.len(),
    ensures
        final(out)@ == old(out)@ + bytes@.subrange(from as int, to as int),
{
    let ghost start = out@;
    let mut i: usize = from;
    assert(start + bytes@.subrange(from as int, from as int) =~= start);
    while i < to
        invariant
            from <= i <= to <= bytes.len(),
            out@ == start + bytes@.subrange(from as int, i as int),
        decreases to - i,
    {
        out.push(bytes[i]);
        i += 1;
        assert(start + bytes@.subrange(from as int, i as int) =~= (start + bytes@.subrange(
            from as int,
            i - 1,
        )).push(bytes@[i - 1]));
    }
}

proof fn lemma_repeats(l: int)
    requires
        0 < l < MIN_SAMPLER_LOOP_FRAMES,
    ensures
        MIN_SAMPLER_LOOP_FRAMES <= l * repeats_of(l) < MIN_SAMPLER_LOOP_FRAMES + l,
        0 < repeats_of(l) <= MIN_SAMPLER_LOOP_FRAMES,
{
    let n = MIN_SAMPLER_LOOP_FRAMES as int + l - 1;
    let r = n / l;
    vstd::arithmetic::div_mod::lemma_fundamental_div_mod(n, l);
    assert(l * r == n - n % l);
    assert(0 <= n % l < l) by (nonlinear_arith)
        requires
            l > 0,
    ;
    assert(0 < r <= 48) by (nonlinear_arith)
        requires
            0 < l < 48,
            48 <= l * r < 48 + l,
    ;
}

/// Plays a short loop out until the Sampler takes it.
pub fn ensure_loopable(sample: &Sample) -> (r: Sample)
    requires
        playable(sample@),
    ensures
        r@ == loopable(sample@),
        playable(r@),
{
    let mut pcm16: Vec<u8> = Vec::new();
    let mut loop_length: u32 = sample.loop_length;
    if sample.loop_length > 0 && sample.loop_length < MIN_SAMPLER_LOOP_FRAMES {
        let repeats: u32 = (MIN_SAMPLER_LOOP_FRAMES + sample.loop_length - 1) / sample.loop_length;
        proof {
            lemma_repeats(sample.loop_length as int);
        }
        let total: u64 = 2 * (sample.loop_start as u64 + sample.loop_length as u64);
        assert(total <= sample.pcm16.len());
        let from: usize = 2 * sample.loop_start as usize;
        let to: usize = total as usize;
        copy_bytes(&sample.pcm16, 0, from, &mut pcm16);
        assert(pcm16@ =~= sample.pcm16@.take(from as int));
        let ghost attack = pcm16@;
        let ghost piece = sample.pcm16@.subrange(from as int, to as int);
        let mut i: u32 = 0;
        assert(attack + repeated(piece, 0) =~= attack);
        while i < repeats
            invariant
                i <= repeats,
                from <= to <= sample.pcm16.len(),
                piece == sample.pcm16@.subrange(from as int, to as int),
                pcm16@ == attack + repeated(piece, i as int),
            decreases repeats - i,
        {
            copy_bytes(&sample.pcm16, from, to, &mut pcm16);
            i += 1;
            assert(pcm16@ =~= attack + repeated(piece, i as int));
        }
        loop_length = sample.loop_length * repeats;
        proof {
            lemma_repeated_len(piece, repeats as int);
        }
    } else {
        copy_bytes(&sample.pcm16, 0, sample.pcm16.len(), &mut pcm16);
        assert(pcm16@ =~= sample.pcm16@);
    }
    Sample {
        index: sample.index,
        name: sample.name.clone(),
        pcm16,
        sample_rate_hz: sample.sample_rate_hz,
        loop_start: sample.loop_start,
        loop_length,
        volume: sample.volume,
        finetune: sample.finetune,
        base_note: sample.base_note,
        pan: sample.pan,
        volume_envelope: copy_envelope(&sample.volume_envelope),
        panning_envelope: copy_envelope(&sample.panning_envelope),
        fadeout: sample.fadeout,
    }
}

proof fn lemma_repeated_len(piece: Seq<u8>, times: int)
    requires
        times >= 0,
    ensures
        repeated(piece, times).len() == piece.len() * times,
    decreases times,
{
    if times > 0 {
        lemma_repeated_len(piece, times - 1);
        assert(piece.len() * (times - 1) + piece.len() == piece.len() * times)
            by (nonlinear_arith);
    } else {
        assert(piece.len() * times == 0) by (nonlinear_arith)
            requires
                times == 0,
        ;
    }
}

proof fn lemma_repeated_at(piece: Seq<u8>, times: int, k: int)
    requires
        0 <= k < piece.len() * times,
        times >= 0,
    ensures
        k < repeated(piece, times).len(),
        repeated(piece, times)[k] == piece[k % (piece.len() as int)],
    decreases times,
{
    let n = piece.len() as int;
    lemma_repeated_len(piece, times);
    if times > 0 {
        lemma_repeated_len(piece, times - 1);
        if k < n * (times - 1) {
            lemma_repeated_at(piece, times - 1, k);
        } else {
            assert(n > 0 && n * times == n * (times - 1) + n && n * (times - 1) == (times - 1) * n)
                by (nonlinear_arith)
                requires
                    0 <= k < n * times,
                    n >= 0,
                    times > 0,
            ;
            vstd::arithmetic::div_mod::lemma_fundamental_div_mod_converse(
                k,
                n,
                times - 1,
                k - n * (times - 1),
            );
        }
    } else {
        assert(n * times == 0) by (nonlinear_arith)
            requires
                times == 0,
        ;
    }
}

/// A sample made ready for the Sampler loops over enough frames, and sounds the same: the part
/// before the loop is untouched, and the loop goes through the same bytes over and over.
pub proof fn law_loopable_sounds_the_same(s: SampleView)
    requires
        playable(s),
        s.has_loop(),
    ensures
        loopable(s).loop_length >= MIN_SAMPLER_LOOP_FRAMES,
        loopable(s).loop_length % s.loop_length == 0,
        loopable(s).loop_start == s.loop_start,
        is_short_loop(s) ==> loopable(s).pcm16.len() == 2 * (s.loop_start + loopable(
            s,
        ).loop_length),
        is_short_loop(s) ==> loopable(s).pcm16.take(2 * s.loop_start) == s.pcm16.take(
            2 * s.loop_start,
        ),
        is_short_loop(s) ==> forall|k: int|
            0 <= k < 2 * loopable(s).loop_length ==> (#[trigger] loopable(s).pcm16[2 * s.loop_start
                + k]) == s.pcm16[2 * s.loop_start + k % (2 * s.loop_length)],
{
    if is_short_loop(s) {
        let l = s.loop_length as int;
        let from = 2 * s.loop_start;
        let repeats = repeats_of(l);
        let piece = s.pcm16.subrange(from, 2 * (s.loop_start + l));
        lemma_repeats(l);
        lemma_repeated_len(piece, repeats);
        assert(piece.len() == 2 * l);
        assert(piece.len() * repeats == 2 * (l * repeats)) by (nonlinear_arith)
            requires
                piece.len() == 2 * l,
        ;
        assert((l * repeats) % l == 0) by {
            vstd::arithmetic::div_mod::lemma_mod_multiples_basic(repeats, l);
            assert(l * repeats == repeats * l) by (nonlinear_arith);
        }
        assert(loopable(s).pcm16.take(from) =~= s.pcm16.take(from));
        assert forall|k: int| 0 <= k < 2 * loopable(s).loop_length implies (
        #[trigger] loopable(s).pcm16[from + k]) == s.pcm16[from + k % (2 * l)] by {
            lemma_repeated_at(piece, repeats, k);
            assert(loopable(s).pcm16[from + k] == repeated(piece, repeats)[k]);
            assert(0 <= k % (2 * l) < 2 * l) by (nonlinear_arith)
                requires
                    l > 0,
            ;
        }
    } else {
        assert(s.loop_length as int % s.loop_length as int == 0) by (nonlinear_arith)
            requires
                s.loop_length > 0,
        ;
    }
}

/// The name of a sample's tracks, with the number of the voice where there are several.
pub open spec fn track_name(s: SampleView, voice: int) -> Seq<char> {
    let name = trimmed(zero_padded(decimal(s.index as int), 2) + " "@ + s.name);
    if voice > 0 {
        name + " ("@ + decimal(voice + 1) + ")"@
    } else {
        name
    }
}

pub(crate) fn display_name(sample: &Sample, voice: usize) -> (r: String)
    requires
        voice < usize::MAX,
    ensures
        r@ == track_name(sample@, voice as int),
{
    let mut full: String = String::new();
    push_decimal_padded(&mut full, sample.index as u64, 2);
    full.append(" ");
    full.append(sample.name.as_str());
    assert(full@ =~= zero_padded(decimal(sample.index as int), 2) + " "@ + sample.name@);
    let mut name: String = trim(full.as_str());
    if voice > 0 {
        let ghost plain = name@;
        name.append(" (");
        push_decimal(&mut name, voice as u64 + 1);
        name.append(")");
        assert(name@ =~= plain + " ("@ + decimal(voice + 1) + ")"@);
    }
    name
}

/// The WAV file of a sample.
#[derive(Debug)]
pub struct SampleFile {
    /// Its absolute path.
    pub path: String,
    /// In bytes.
    pub size: u64,
    /// When the set is made, in seconds of Unix time.
    pub now: u64,
}

/// What a `SampleFile` holds.
#[verifier::ext_equal]
pub struct SampleFileView {
    pub path: Seq<char>,
    pub size: u64,
    pub now: u64,
}

impl View for SampleFile {
    type V = SampleFileView;

    open spec fn view(&self) -> SampleFileView {
        SampleFileView { path: self.path@, size: self.size, now: self.now }
    }
}

/// The last frame that a looped sample plays before it goes back, or that a plain one plays.
pub open spec fn last_frame(s: SampleView) -> int {
    if s.has_loop() {
        s.loop_start + s.loop_length - 1
    } else {
        (s.pcm16.len() / 2 - 1) as u32 as int
    }
}

pub open spec fn first_frame(s: SampleView) -> int {
    if s.has_loop() {
        s.loop_start as int
    } else {
        0
    }
}

/// Where a sample without panning effects stands, in millionths of full scale.
pub open spec fn resting_pan(s: SampleView) -> i64 {
    clamped(joint_pan(256 * clamped_pan(s), 0))
}

pub open spec fn clamped_pan(s: SampleView) -> int {
    if s.pan < -127 {
        -127
    } else if s.pan > 127 {
        127
    } else {
        s.pan as int
    }
}

/// The values of a sampler track. The track is folded and not armed. Its name stands twice:
/// one that was not set by a user is made anew by Live. Transposition, volume and panorama of
/// the device are at rest, since envelopes drive them; gliding between notes and the filter
/// are off.
pub open spec fn track_values(s: SampleView, voice: int, offset: u32) -> Seq<
    (Seq<char>, Seq<char>),
> {
    let name = track_name(s, voice);
    let first = decimal(first_frame(s));
    let last = decimal(last_frame(s));
    seq![
        ("./TrackUnfolded"@, "false"@),
        ("./DeviceChain/MainSequencer/Recorder/IsArmed"@, "false"@),
        ("./Name/EffectiveName"@, name),
        ("./Name/UserName"@, name),
        ("./Color"@, decimal(color_of(s))),
        (".//MultiSampler/UserName"@, name),
        (".//MultiSampler/Pitch/TransposeKey/Manual"@, "0"@),
        (".//MultiSampler/Pitch/TransposeFine/Manual"@, "0"@),
        (".//MultiSampler/VolumeAndPan/Volume/Manual"@, "0"@),
        ("./DeviceChain/Mixer/Volume/Manual"@, number_text(fader_gain(FULL_LEVEL as int) as int)),
        (".//MultiSampler/VolumeAndPan/Panorama/Manual"@, number_text(resting_pan(s) as int)),
        (".//MultiSampler/Player/LoopModulators/SampleLength/Manual"@, "1"@),
        (".//MultiSampler/Player/Snap/Manual"@, "false"@),
        (".//MultiSampler/Globals/PortamentoMode/Manual"@, "0"@),
        (".//MultiSampler/Filter/IsOn/Manual"@, "false"@),
        (".//MultiSampler/VolumeAndPan/Envelope/DecayTime/Manual"@, "1"@),
        (".//MultiSampler/VolumeAndPan/Envelope/ReleaseTime/Manual"@, "1"@),
        (".//MultiSamplePart/RootKey"@, decimal(s.base_note as int)),
        (".//MultiSamplePart/SampleStart"@, decimal(offset as int)),
        (".//MultiSamplePart/SampleEnd"@, decimal(s.pcm16.len() as int / 2 - 1)),
        (".//MultiSamplePart/SustainLoop/Start"@, first),
        (".//MultiSamplePart/SustainLoop/End"@, last),
        (
            ".//MultiSamplePart/SustainLoop/Mode"@,
            if s.has_loop() {
                "1"@
            } else {
                "0"@
            },
        ),
        (".//MultiSamplePart/ReleaseLoop/Start"@, first),
        (".//MultiSamplePart/ReleaseLoop/End"@, last),
    ]
}

/// A volume that neither the sample nor its envelope lowers, as the curves count it.
pub const FULL_LEVEL: i64 = 4096;

fn set_track_values(track: &mut Document, sample: &Sample, voice: usize, name: &String, offset: u32) -> (r:
    bool)
    requires
        old(track).nodes.len() > 0,
        playable(sample@),
        name@ == track_name(sample@, voice as int),
    ensures
        r == (with_values(old(track)@, 0, track_values(sample@, voice as int, offset)) is Some),
        r ==> with_values(old(track)@, 0, track_values(sample@, voice as int, offset)) == Some(
            final(track)@,
        ),
        final(track).nodes.len() == old(track).nodes.len(),
        is_tree(old(track)@) ==> is_tree(final(track)@),
{
    let frames: usize = sample.pcm16.len() / 2 - 1;
    let looped: bool = sample.has_loop();
    let first_number: u32 = if looped {
        sample.loop_start
    } else {
        0
    };
    let last_number: u32 = if looped {
        sample.loop_start + sample.loop_length - 1
    } else {
        frames as u32
    };
    let color: String = decimal_string(color_index_for_sample(sample));
    let gain: String = fmt_number(volume_to_gain(FULL_LEVEL));
    let pan: String = fmt_number(rest_pan(sample));
    let root_key: String = decimal_string(sample.base_note as i64);
    let start: String = decimal_string(offset as i64);
    let end: String = count_text(frames as u64);
    let first: String = decimal_string(first_number as i64);
    let last: String = decimal_string(last_number as i64);
    let mode: &str = if looped {
        "1"
    } else {
        "0"
    };
    let values: Vec<(&str, &str)> = vec![
        ("./TrackUnfolded", "false"),
        ("./DeviceChain/MainSequencer/Recorder/IsArmed", "false"),
        ("./Name/EffectiveName", name.as_str()),
        ("./Name/UserName", name.as_str()),
        ("./Color", color.as_str()),
        (".//MultiSampler/UserName", name.as_str()),
        (".//MultiSampler/Pitch/TransposeKey/Manual", "0"),
        (".//MultiSampler/Pitch/TransposeFine/Manual", "0"),
        (".//MultiSampler/VolumeAndPan/Volume/Manual", "0"),
        ("./DeviceChain/Mixer/Volume/Manual", gain.as_str()),
        (".//MultiSampler/VolumeAndPan/Panorama/Manual", pan.as_str()),
        (".//MultiSampler/Player/LoopModulators/SampleLength/Manual", "1"),
        (".//MultiSampler/Player/Snap/Manual", "false"),
        (".//MultiSampler/Globals/PortamentoMode/Manual", "0"),
        (".//MultiSampler/Filter/IsOn/Manual", "false"),
        (".//MultiSampler/VolumeAndPan/Envelope/DecayTime/Manual", "1"),
        (".//MultiSampler/VolumeAndPan/Envelope/ReleaseTime/Manual", "1"),
        (".//MultiSamplePart/RootKey", root_key.as_str()),
        (".//MultiSamplePart/SampleStart", start.as_str()),
        (".//MultiSamplePart/SampleEnd", end.as_str()),
        (".//MultiSamplePart/SustainLoop/Start", first.as_str()),
        (".//MultiSamplePart/SustainLoop/End", last.as_str()),
        (".//MultiSamplePart/SustainLoop/Mode", mode),
        (".//MultiSamplePart/ReleaseLoop/Start", first.as_str()),
        (".//MultiSamplePart/ReleaseLoop/End", last.as_str()),
    ];
    assert(pairs(values@) =~= track_values(sample@, voice as int, offset));
    set_values(track, 0, &values)
}

fn pan_of(sample: &Sample) -> (r: i32)
    ensures
        r == clamped_pan(sample@),
{
    if sample.pan < -127 {
        -127
    } else if sample.pan > 127 {
        127
    } else {
        sample.pan
    }
}

fn rest_pan(sample: &Sample) -> (r: i64)
    ensures
        r == resting_pan(sample@),
{
    let channel: i128 = 256 * pan_of(sample) as i128;
    clamp64(round_signed(1_000_000 * (2048 * channel), 66_584_576))
}

/// The values of a reference to a WAV file of this name.
pub open spec fn file_values(name: Seq<char>, file: SampleFileView) -> Seq<
    (Seq<char>, Seq<char>),
> {
    seq![
        ("./RelativePathType"@, "1"@),
        ("./RelativePath"@, "Samples/Imported/"@ + name),
        ("./Path"@, file.path),
        ("./Type"@, "2"@),
        ("./LivePackName"@, ""@),
        ("./LivePackId"@, ""@),
        ("./OriginalFileSize"@, decimal(file.size as int)),
        ("./OriginalCrc"@, "0"@),
    ]
}

/// The values set below each of several elements.
pub open spec fn with_values_at(d: Doc, list: Seq<int>, values: Seq<(Seq<char>, Seq<char>)>) -> Option<
    Doc,
>
    decreases list.len(),
{
    if list.len() == 0 {
        Some(d)
    } else {
        match with_values_at(d, list.drop_last(), values) {
            Some(e) => with_values(e, list.last(), values),
            None => None,
        }
    }
}

/// The values of the reference to the sample.
pub open spec fn sample_values(s: SampleView, file: SampleFileView) -> Seq<(Seq<char>, Seq<char>)> {
    seq![
        (".//MultiSamplePart/SampleRef/LastModDate"@, decimal(file.now as int)),
        (".//MultiSamplePart/SampleRef/DefaultDuration"@, decimal(s.pcm16.len() as int / 2)),
        (".//MultiSamplePart/SampleRef/DefaultSampleRate"@, decimal(s.sample_rate_hz as int)),
        (".//MultiSamplePart/SampleRef/SamplesToAutoWarp"@, "0"@),
    ]
}

/// The track with its sample set: all references to the file, and the sample's own data.
pub open spec fn with_sample(d: Doc, s: SampleView, file: SampleFileView) -> Option<Doc> {
    match find_in(d, 0, ".//MultiSamplePart"@) {
        None => None,
        Some(part) => match with_file(d, part, wav_filename(s), file) {
            None => None,
            Some(e) => with_values(e, 0, sample_values(s, file)),
        },
    }
}

/// All references to a file below an element, set to a WAV file.
pub open spec fn with_file(d: Doc, at: int, name: Seq<char>, file: SampleFileView) -> Option<Doc> {
    with_values_at(
        d,
        named_up_to(d, at + 1, end_of(d, at), "FileRef"@),
        file_values(name, file),
    )
}

proof fn lemma_values_at_stop(
    d: Doc,
    list: Seq<int>,
    values: Seq<(Seq<char>, Seq<char>)>,
    k: int,
)
    requires
        0 <= k <= list.len(),
        with_values_at(d, list.take(k), values) is None,
    ensures
        with_values_at(d, list, values) is None,
    decreases list.len(),
{
    if k == list.len() {
        assert(list.take(k) =~= list);
    } else {
        assert(list.drop_last().take(k) =~= list.take(k));
        lemma_values_at_stop(d, list.drop_last(), values, k);
    }
}

fn set_values_at(doc: &mut Document, list: &Vec<usize>, values: &Vec<(&str, &str)>) -> (r: bool)
    requires
        old(doc).nodes.len() > 0,
        forall|i: int| 0 <= i < list.len() ==> (#[trigger] list[i]) < old(doc).nodes.len(),
    ensures
        r == (with_values_at(old(doc)@, positions(list@), pairs(values@)) is Some),
        r ==> with_values_at(old(doc)@, positions(list@), pairs(values@)) == Some(final(doc)@),
        final(doc).nodes.len() == old(doc).nodes.len(),
        is_tree(old(doc)@) ==> is_tree(final(doc)@),
{
    let ghost d = doc@;
    let ghost whole = positions(list@);
    let mut i: usize = 0;
    assert(whole.take(0) =~= Seq::<int>::empty());
    while i < list.len()
        invariant
            i <= list.len(),
            d == old(doc)@,
            doc.nodes.len() == old(doc).nodes.len(),
            whole == positions(list@),
            forall|k: int| 0 <= k < list.len() ==> (#[trigger] list[k]) < doc.nodes.len(),
            with_values_at(d, whole.take(i as int), pairs(values@)) == Some(doc@),
            is_tree(d) ==> is_tree(doc@),
        decreases list.len() - i,
    {
        proof {
            assert(whole.take(i + 1).drop_last() =~= whole.take(i as int));
            assert(whole.take(i + 1).last() == list[i as int] as int);
        }
        if !set_values(doc, list[i], values) {
            proof {
                lemma_values_at_stop(d, whole, pairs(values@), i + 1);
            }
            return false;
        }
        i += 1;
    }
    assert(whole.take(i as int) =~= whole);
    true
}

pub(crate) fn set_file(doc: &mut Document, at: usize, name: &str, file: &SampleFile) -> (r: bool)
    requires
        at < old(doc).nodes.len(),
    ensures
        r == (with_file(old(doc)@, at as int, name@, file@) is Some),
        r ==> with_file(old(doc)@, at as int, name@, file@) == Some(final(doc)@),
        final(doc).nodes.len() == old(doc).nodes.len(),
        is_tree(old(doc)@) ==> is_tree(final(doc)@),
{
    let mut relative: String = "Samples/Imported/".to_owned();
    relative.append(name);
    let size: String = count_text(file.size);
    let refs: Vec<usize> = find_all_descendants(doc, at, "FileRef");
    let values: Vec<(&str, &str)> = vec![
        ("./RelativePathType", "1"),
        ("./RelativePath", relative.as_str()),
        ("./Path", file.path.as_str()),
        ("./Type", "2"),
        ("./LivePackName", ""),
        ("./LivePackId", ""),
        ("./OriginalFileSize", size.as_str()),
        ("./OriginalCrc", "0"),
    ];
    assert(pairs(values@) =~= file_values(name@, file@));
    set_values_at(doc, &refs, &values)
}

fn set_sample(track: &mut Document, sample: &Sample, file: &SampleFile) -> (r: bool)
    requires
        old(track).nodes.len() > 0,
    ensures
        r == (with_sample(old(track)@, sample@, file@) is Some),
        r ==> with_sample(old(track)@, sample@, file@) == Some(final(track)@),
        final(track).nodes.len() == old(track).nodes.len(),
        is_tree(old(track)@) ==> is_tree(final(track)@),
{
    let part: usize = match find(track, 0, ".//MultiSamplePart") {
        Some(i) => i,
        None => {
            return false;
        },
    };
    let wav: String = sample_wav_filename(sample);
    if !set_file(track, part, wav.as_str(), file) {
        return false;
    }
    let now: String = count_text(file.now);
    let frames: String = count_text((sample.pcm16.len() / 2) as u64);
    let rate: String = decimal_string(sample.sample_rate_hz as i64);
    let own: Vec<(&str, &str)> = vec![
        (".//MultiSamplePart/SampleRef/LastModDate", now.as_str()),
        (".//MultiSamplePart/SampleRef/DefaultDuration", frames.as_str()),
        (".//MultiSamplePart/SampleRef/DefaultSampleRate", rate.as_str()),
        (".//MultiSamplePart/SampleRef/SamplesToAutoWarp", "0"),
    ];
    assert(pairs(own@) =~= sample_values(sample@, file@));
    set_values(track, 0, &own)
}

/// When a row starts, in millionths of a beat: four rows are a beat.
pub open spec fn row_micros(row: usize) -> i64 {
    clamped(250_000 * row)
}

pub fn row_time(row: usize) -> (r: i64)
    ensures
        r == row_micros(row),
{
    clamp64(250_000 * row as i128)
}

/// A note of a clip: it ends with its segment at the latest, since a clip cannot sound past
/// its own end.
pub open spec fn clipped(n: LiveNoteView, segment: Segment) -> ClippedNote {
    let room = row_micros(segment.end_row) - n.start;
    ClippedNote {
        start: n.start,
        duration: if n.length < room {
            n.length
        } else {
            clamped(room)
        },
        velocity: n.velocity,
        pitch: n.pitch,
    }
}

fn clip_note_to_segment(n: &LiveNote, segment: &Segment) -> (r: ClippedNote)
    ensures
        r == clipped(n@, *segment),
{
    let room: i128 = row_time(segment.end_row) as i128 - n.start as i128;
    ClippedNote {
        start: n.start,
        duration: if (n.length as i128) < room {
            n.length
        } else {
            clamp64(room)
        },
        velocity: n.velocity,
        pitch: n.pitch,
    }
}

/// The segment that a row falls into, from segment `k` on; rows behind the end stay in the
/// last one.
pub open spec fn advanced(segments: Seq<Segment>, k: int, row: usize) -> int
    decreases segments.len() - k,
{
    if k + 1 < segments.len() && row >= segments[k].end_row {
        advanced(segments, k + 1, row)
    } else {
        k
    }
}

/// The segment of note `i`. Notes come in the order of their starts.
pub open spec fn segment_of(notes: Seq<LiveNoteView>, segments: Seq<Segment>, i: int) -> int
    decreases i + 1,
{
    if i < 0 {
        0
    } else {
        advanced(segments, segment_of(notes, segments, i - 1), notes[i].row)
    }
}

/// The notes of segment `k` among the first `n`.
pub open spec fn notes_in(notes: Seq<LiveNoteView>, segments: Seq<Segment>, k: int, n: int) -> Seq<
    ClippedNote,
>
    decreases n,
{
    if n <= 0 {
        Seq::empty()
    } else if segment_of(notes, segments, n - 1) == k {
        notes_in(notes, segments, k, n - 1).push(clipped(notes[n - 1], segments[k]))
    } else {
        notes_in(notes, segments, k, n - 1)
    }
}

/// The segments follow each other without gaps, from row 0 on, and none is empty.
pub open spec fn contiguous(segments: Seq<Segment>) -> bool {
    &&& segments.len() > 0
    &&& segments[0].start_row == 0
    &&& forall|k: int|
        0 <= k < segments.len() ==> (#[trigger] segments[k]).start_row < segments[k].end_row
    &&& forall|k: int, n: int|
        0 <= k < segments.len() && n == k + 1 && n < segments.len() ==> (
        #[trigger] segments[k]).end_row == (#[trigger] segments[n]).start_row
}

proof fn lemma_advanced(segments: Seq<Segment>, k: int, row: usize)
    requires
        contiguous(segments),
        0 <= k < segments.len(),
        segments[k].start_row <= row < segments.last().end_row,
    ensures
        ({
            let n = advanced(segments, k, row);
            &&& k <= n < segments.len()
            &&& segments[n].start_row <= row < segments[n].end_row
        }),
    decreases segments.len() - k,
{
    if k + 1 < segments.len() && row >= segments[k].end_row {
        assert(segments[k].end_row == segments[k + 1].start_row);
        lemma_advanced(segments, k + 1, row);
    }
}

/// Every note of a track is in the clip of the segment that its row belongs to, where the
/// notes come in the order of their rows.
pub proof fn law_notes_are_in_their_segment(
    notes: Seq<LiveNoteView>,
    segments: Seq<Segment>,
    i: int,
)
    requires
        contiguous(segments),
        0 <= i < notes.len(),
        forall|a: int, b: int|
            0 <= a <= b < notes.len() ==> (#[trigger] notes[a]).row <= (#[trigger] notes[b]).row,
        forall|a: int|
            0 <= a < notes.len() ==> (#[trigger] notes[a]).row < segments.last().end_row,
    ensures
        ({
            let k = segment_of(notes, segments, i);
            &&& 0 <= k < segments.len()
            &&& segments[k].start_row <= notes[i].row < segments[k].end_row
            &&& notes_in(notes, segments, k, notes.len() as int).contains(
                clipped(notes[i], segments[k]),
            )
        }),
    decreases i,
{
    if i > 0 {
        law_notes_are_in_their_segment(notes, segments, i - 1);
        assert(notes[i - 1].row <= notes[i].row);
    }
    let before = segment_of(notes, segments, i - 1);
    lemma_advanced(segments, before, notes[i].row);
    lemma_note_is_in(notes, segments, i, notes.len() as int);
}

proof fn lemma_note_is_in(notes: Seq<LiveNoteView>, segments: Seq<Segment>, i: int, n: int)
    requires
        0 <= i < n <= notes.len(),
    ensures
        ({
            let k = segment_of(notes, segments, i);
            notes_in(notes, segments, k, n).contains(clipped(notes[i], segments[k]))
        }),
    decreases n,
{
    let k = segment_of(notes, segments, i);
    let note = clipped(notes[i], segments[k]);
    let list = notes_in(notes, segments, k, n);
    if i == n - 1 {
        assert(list[list.len() - 1] == note);
    } else {
        lemma_note_is_in(notes, segments, i, n - 1);
        let shorter = notes_in(notes, segments, k, n - 1);
        let at = choose|j: int| 0 <= j < shorter.len() && shorter[j] == note;
        assert(list[at] == note);
    }
}

/// The clips of a track hold as many notes as the track has, so that none is in two of them.
pub proof fn law_no_note_is_in_two_clips(notes: Seq<LiveNoteView>, segments: Seq<Segment>, n: int)
    requires
        segments.len() > 0,
        0 <= n <= notes.len(),
    ensures
        notes_in_all(notes, segments, segments.len() as int, n) == n,
    decreases n,
{
    if n > 0 {
        law_no_note_is_in_two_clips(notes, segments, n - 1);
        lemma_segment_exists(notes, segments, n - 1);
        lemma_one_more(notes, segments, segments.len() as int, n);
    } else {
        lemma_none_yet(notes, segments, segments.len() as int);
    }
}

/// How many of the first `n` notes the clips of the first `k` segments hold together.
pub open spec fn notes_in_all(
    notes: Seq<LiveNoteView>,
    segments: Seq<Segment>,
    k: int,
    n: int,
) -> nat
    decreases k,
{
    if k <= 0 {
        0
    } else {
        notes_in_all(notes, segments, k - 1, n) + notes_in(notes, segments, k - 1, n).len()
    }
}

proof fn lemma_none_yet(notes: Seq<LiveNoteView>, segments: Seq<Segment>, k: int)
    ensures
        notes_in_all(notes, segments, k, 0) == 0,
    decreases k,
{
    if k > 0 {
        lemma_none_yet(notes, segments, k - 1);
    }
}

proof fn lemma_one_more(notes: Seq<LiveNoteView>, segments: Seq<Segment>, k: int, n: int)
    requires
        0 < n,
    ensures
        notes_in_all(notes, segments, k, n) == notes_in_all(notes, segments, k, n - 1) + (if 0
            <= segment_of(notes, segments, n - 1) < k {
            1nat
        } else {
            0nat
        }),
    decreases k,
{
    if k > 0 {
        lemma_one_more(notes, segments, k - 1, n);
    }
}

proof fn lemma_segment_exists(notes: Seq<LiveNoteView>, segments: Seq<Segment>, i: int)
    requires
        segments.len() > 0,
    ensures
        0 <= segment_of(notes, segments, i) < segments.len(),
    decreases i + 1,
{
    if i >= 0 {
        lemma_segment_exists(notes, segments, i - 1);
        lemma_advanced_exists(segments, segment_of(notes, segments, i - 1), notes[i].row);
    }
}

proof fn lemma_advanced_exists(segments: Seq<Segment>, k: int, row: usize)
    requires
        0 <= k < segments.len(),
    ensures
        k <= advanced(segments, k, row) < segments.len(),
    decreases segments.len() - k,
{
    if k + 1 < segments.len() && row >= segments[k].end_row {
        lemma_advanced_exists(segments, k + 1, row);
    }
}

fn group_notes_by_segment(notes: &Vec<LiveNote>, segments: &Vec<Segment>) -> (r: Vec<usize>)
    ensures
        r.len() == notes.len(),
        forall|i: int|
            0 <= i < r.len() ==> (#[trigger] r[i]) == segment_of(
                live_views(notes@),
                segments@,
                i,
            ),
{
    let ghost views = live_views(notes@);
    let mut out: Vec<usize> = Vec::new();
    let mut k: usize = 0;
    let mut i: usize = 0;
    while i < notes.len()
        invariant
            i <= notes.len(),
            out.len() == i,
            views == live_views(notes@),
            k == segment_of(views, segments@, i - 1),
            k == 0 || k < segments.len(),
            forall|j: int| 0 <= j < i ==> (#[trigger] out[j]) == segment_of(views, segments@, j),
        decreases notes.len() - i,
    {
        let row: usize = notes[i].row;
        let ghost before = k as int;
        assert(views[i as int] == notes[i as int]@);
        while k + 1 < segments.len() && row >= segments[k].end_row
            invariant
                k == 0 || k < segments.len(),
                advanced(segments@, k as int, row) == advanced(segments@, before, row),
            decreases segments.len() - k,
        {
            k += 1;
        }
        out.push(k);
        i += 1;
    }
    out
}

/// The track with a clip for each of the first `k` segments that has notes, below the element
/// at `at`.
pub open spec fn with_clips(
    d: Doc,
    at: int,
    template: Doc,
    name: Seq<char>,
    color: int,
    notes: Seq<LiveNoteView>,
    segments: Seq<Segment>,
    k: int,
) -> Option<Doc>
    decreases k,
{
    if k <= 0 {
        Some(d)
    } else {
        let local = notes_in(notes, segments, k - 1, notes.len() as int);
        match with_clips(d, at, template, name, color, notes, segments, k - 1) {
            None => None,
            Some(e) => if local.len() == 0 {
                Some(e)
            } else {
                match clip_of(
                    template,
                    name,
                    row_micros(segments[k - 1].start_row),
                    row_micros(segments[k - 1].end_row),
                    local,
                    k - 1,
                    color,
                ) {
                    Some(clip) => Some(with_child(e, at, clip)),
                    None => None,
                }
            },
        }
    }
}

proof fn lemma_clips_stop(
    d: Doc,
    at: int,
    template: Doc,
    name: Seq<char>,
    color: int,
    notes: Seq<LiveNoteView>,
    segments: Seq<Segment>,
    k: int,
    n: int,
)
    requires
        0 <= k <= n,
        with_clips(d, at, template, name, color, notes, segments, k) is None,
    ensures
        with_clips(d, at, template, name, color, notes, segments, n) is None,
    decreases n,
{
    if k < n {
        lemma_clips_stop(d, at, template, name, color, notes, segments, k, n - 1);
    }
}

fn local_notes(
    notes: &Vec<LiveNote>,
    segments: &Vec<Segment>,
    where_to: &Vec<usize>,
    k: usize,
) -> (r: Vec<ClippedNote>)
    requires
        k < segments.len(),
        where_to.len() == notes.len(),
        forall|i: int|
            0 <= i < where_to.len() ==> (#[trigger] where_to[i]) == segment_of(
                live_views(notes@),
                segments@,
                i,
            ),
    ensures
        r@ == notes_in(live_views(notes@), segments@, k as int, notes.len() as int),
{
    let ghost views = live_views(notes@);
    let mut out: Vec<ClippedNote> = Vec::new();
    let mut i: usize = 0;
    while i < notes.len()
        invariant
            i <= notes.len(),
            k < segments.len(),
            where_to.len() == notes.len(),
            views == live_views(notes@),
            forall|j: int|
                0 <= j < where_to.len() ==> (#[trigger] where_to[j]) == segment_of(
                    views,
                    segments@,
                    j,
                ),
            out@ == notes_in(views, segments@, k as int, i as int),
        decreases notes.len() - i,
    {
        assert(views[i as int] == notes[i as int]@);
        if where_to[i] == k {
            out.push(clip_note_to_segment(&notes[i], &segments[k]));
        }
        i += 1;
    }
    out
}

#[verifier::spinoff_prover]
#[verifier::rlimit(30)]
fn add_clips(
    track: &mut Document,
    at: usize,
    template: &Document,
    name: &String,
    color: i64,
    notes: &Vec<LiveNote>,
    segments: &Vec<Segment>,
) -> (r: bool)
    requires
        at < old(track).nodes.len(),
        old(track)@[at as int].content is Element,
        template.nodes.len() > 0,
    ensures
        ({
            let out = with_clips(
                old(track)@,
                at as int,
                template@,
                name@,
                color as int,
                live_views(notes@),
                segments@,
                segments.len() as int,
            );
            &&& r == (out is Some)
            &&& r ==> out == Some(final(track)@)
        }),
        final(track).nodes.len() >= old(track).nodes.len(),
        is_tree(old(track)@) && is_tree(template@) ==> is_tree(final(track)@),
{
    let ghost d = track@;
    let ghost views = live_views(notes@);
    let where_to: Vec<usize> = group_notes_by_segment(notes, segments);
    let mut k: usize = 0;
    while k < segments.len()
        invariant
            k <= segments.len(),
            d == old(track)@,
            at < track.nodes.len(),
            old(track).nodes.len() <= track.nodes.len(),
            track@[at as int].content is Element,
            template.nodes.len() > 0,
            views == live_views(notes@),
            where_to.len() == notes.len(),
            forall|i: int|
                0 <= i < where_to.len() ==> (#[trigger] where_to[i]) == segment_of(
                    views,
                    segments@,
                    i,
                ),
            with_clips(
                d,
                at as int,
                template@,
                name@,
                color as int,
                views,
                segments@,
                k as int,
            ) == Some(track@),
            is_tree(d) && is_tree(template@) ==> is_tree(track@),
        decreases segments.len() - k,
    {
        let local: Vec<ClippedNote> = local_notes(notes, segments, &where_to, k);
        if local.len() > 0 {
            let start: i64 = row_time(segments[k].start_row);
            let end: i64 = row_time(segments[k].end_row);
            match build_clip(template, name.as_str(), start, end, &local, k, color) {
                Some(clip) => {
                    let ghost before = track@;
                    track.append_child(at, clip);
                    proof {
                        crate::xmlutil::lemma_end(before, before[at as int].depth, at + 1);
                        assert(track@[at as int] == before[at as int]);
                    }
                },
                None => {
                    proof {
                        lemma_clips_stop(
                            d,
                            at as int,
                            template@,
                            name@,
                            color as int,
                            views,
                            segments@,
                            k + 1,
                            segments.len() as int,
                        );
                    }
                    return false;
                },
            }
        }
        k += 1;
    }
    true
}

/// The number of the element that an envelope drives.
pub open spec fn target_of(d: Doc, path: Seq<char>) -> Option<Seq<char>> {
    match find_in(d, 0, path) {
        Some(i) => d[i].attribute("Id"@),
        None => None,
    }
}

pub(crate) fn target(doc: &Document, path: &str) -> (r: Option<String>)
    requires
        doc.nodes.len() > 0,
    ensures
        match r {
            Some(s) => target_of(doc@, path@) == Some(s@),
            None => target_of(doc@, path@) is None,
        },
{
    match find(doc, 0, path) {
        Some(i) => doc.attribute(i, "Id"),
        None => None,
    }
}

/// The marks of a track's curves: of its pitch, volume and panorama.
pub open spec fn bends_of(notes: Seq<LiveNoteView>) -> Seq<Mark> {
    stepped(in_time_order(bend_points(notes)))
}

pub open spec fn volumes_of(notes: Seq<LiveNoteView>) -> Seq<Mark> {
    stepped(in_time_order(volume_points(notes)))
}

pub open spec fn pans_of(notes: Seq<LiveNoteView>, panning: AmigaPanning, s: SampleView) -> Seq<
    Mark,
> {
    stepped(in_time_order(pan_points(notes, panning, clamped_pan(s) as i32)))
}

/// The numbers of the elements that pitch, volume and panorama envelopes drive.
#[verifier::ext_equal]
pub struct Targets {
    pub pitch: Seq<char>,
    pub volume: Seq<char>,
    pub pan: Seq<char>,
}

/// The track with its envelopes, and the next number behind them.
pub open spec fn with_curves(
    d: Doc,
    targets: Targets,
    notes: Seq<LiveNoteView>,
    panning: AmigaPanning,
    s: SampleView,
    next: u64,
) -> Option<(Doc, u64)> {
    let bends = bends_of(notes);
    let volumes = volumes_of(notes);
    let pans = pans_of(notes, panning, s);
    match find_in(d, 0, "./AutomationEnvelopes/Envelopes"@) {
        None => None,
        Some(at) => {
            let d1 = with_envelope(d, at, bends, targets.pitch, 0, next);
            let next1 = next_behind_envelope(bends, next);
            let d2 = with_envelope(
                d1,
                at,
                volumes,
                targets.volume,
                fader_gain(FULL_LEVEL as int),
                next1,
            );
            let next2 = next_behind_envelope(volumes, next1);
            let d3 = with_envelope(d2, at, pans, targets.pan, resting_pan(s), next2);
            Some((d3, next_behind_envelope(pans, next2)))
        },
    }
}

fn add_curves(
    track: &mut Document,
    targets: (&String, &String, &String),
    notes: &Vec<LiveNote>,
    panning: AmigaPanning,
    sample: &Sample,
    ids: &mut IdCounter,
) -> (r: bool)
    requires
        old(track).nodes.len() > 0,
        forall|i: int| 0 <= i < notes.len() ==> live_wf((#[trigger] notes[i])@),
    ensures
        ({
            let out = with_curves(
                old(track)@,
                Targets { pitch: targets.0@, volume: targets.1@, pan: targets.2@ },
                live_views(notes@),
                panning,
                sample@,
                old(ids).next,
            );
            &&& r == (out is Some)
            &&& r ==> out == Some((final(track)@, final(ids).next))
        }),
        final(track).nodes.len() >= old(track).nodes.len(),
        is_tree(old(track)@) ==> is_tree(final(track)@),
{
    match find(track, 0, "./AutomationEnvelopes/Envelopes") {
        None => false,
        Some(at) => {
            let bends: Vec<Mark> = bend_marks(notes);
            let volumes: Vec<Mark> = volume_marks(notes);
            let pans: Vec<Mark> = pan_marks(notes, panning, pan_of(sample));
            let ghost d = track@;
            build_automation_envelope(track, at, &bends, targets.0.as_str(), ids, 0);
            proof {
                lemma_envelope_keeps(d, at as int, bends@, targets.0@, 0, old(ids).next);
            }
            let ghost d1 = track@;
            let ghost next1 = ids.next;
            let gain: i64 = volume_to_gain(FULL_LEVEL);
            build_automation_envelope(track, at, &volumes, targets.1.as_str(), ids, gain);
            proof {
                lemma_envelope_keeps(d1, at as int, volumes@, targets.1@, gain, next1);
            }
            let rest: i64 = rest_pan(sample);
            build_automation_envelope(track, at, &pans, targets.2.as_str(), ids, rest);
            true
        },
    }
}

proof fn lemma_envelope_keeps(
    d: Doc,
    at: int,
    marks: Seq<Mark>,
    pointee: Seq<char>,
    baseline: i64,
    next: u64,
)
    requires
        0 <= at < d.len(),
    ensures
        at < with_envelope(d, at, marks, pointee, baseline, next).len(),
        with_envelope(d, at, marks, pointee, baseline, next)[at] == d[at],
{
    crate::xmlutil::lemma_end(d, d[at].depth, at + 1);
}

/// Where the clips of a track stand.
pub open spec fn clips_path() -> Seq<char> {
    ".//ClipTimeable/ArrangerAutomation/Events"@
}

/// The track with its clips in place of the template's one.
pub open spec fn with_arrangement(
    d: Doc,
    name: Seq<char>,
    color: int,
    notes: Seq<LiveNoteView>,
    segments: Seq<Segment>,
) -> Option<Doc> {
    match find_in(d, 0, clips_path()) {
        None => None,
        Some(at) => match child_of(d, at, "MidiClip"@) {
            None => None,
            Some(clip) => with_clips(
                without(d, clip),
                at,
                part_at(d, clip),
                name,
                color,
                notes,
                segments,
                segments.len() as int,
            ),
        },
    }
}

fn arrange(
    track: &mut Document,
    name: &String,
    color: i64,
    notes: &Vec<LiveNote>,
    segments: &Vec<Segment>,
) -> (r: bool)
    requires
        old(track).nodes.len() > 0,
    ensures
        ({
            let out = with_arrangement(
                old(track)@,
                name@,
                color as int,
                live_views(notes@),
                segments@,
            );
            &&& r == (out is Some)
            &&& r ==> out == Some(final(track)@)
        }),
        final(track).nodes.len() > 0,
        is_tree(old(track)@) ==> is_tree(final(track)@),
{
    let at: usize = match find(track, 0, ".//ClipTimeable/ArrangerAutomation/Events") {
        Some(i) => i,
        None => {
            return false;
        },
    };
    match child(track, at, "MidiClip") {
        None => false,
        Some(clip) => {
            let template: Document = track.copy(clip);
            let ghost d = track@;
            track.remove(clip);
            proof {
                crate::xmlutil::lemma_end(d, d[clip as int].depth, clip + 1);
                assert(track@[at as int] == d[at as int]);
            }
            add_clips(track, at, &template, name, color, notes, segments)
        },
    }
}

/// The frame that the notes of a voice start at: it is the same for all of them.
pub open spec fn offset_of(notes: Seq<LiveNoteView>) -> u32 {
    if notes.len() > 0 {
        notes[0].sample_offset_frames
    } else {
        0
    }
}

/// A sampler track made of the template's, and the next number behind it. None where the
/// template lacks a part.
#[verifier::opaque]
pub open spec fn track_of(
    template: Doc,
    s: SampleView,
    next: u64,
    file: SampleFileView,
    notes: Seq<LiveNoteView>,
    segments: Seq<Segment>,
    panning: AmigaPanning,
    voice: int,
) -> Option<(Doc, u64)> {
    let numbered = with_attribute(template, 0, "Id"@, decimal(next as int));
    let d0 = renumbered(numbered, after(next));
    let next0 = next_after(numbered, after(next));
    match with_values(d0, 0, track_values(s, voice, offset_of(notes))) {
        None => None,
        Some(d1) => match (
            target_of(d1, ".//MultiSampler/Pitch/TransposeKey/AutomationTarget"@),
            target_of(d1, "./DeviceChain/Mixer/Volume/AutomationTarget"@),
            target_of(d1, ".//MultiSampler/VolumeAndPan/Panorama/AutomationTarget"@),
        ) {
            (Some(pitch), Some(volume), Some(pan)) => match with_sample(d1, s, file) {
                None => None,
                Some(d2) => match with_arrangement(
                    d2,
                    track_name(s, voice),
                    color_of(s),
                    notes,
                    segments,
                ) {
                    None => None,
                    Some(d3) => with_curves(
                        d3,
                        Targets { pitch, volume, pan },
                        notes,
                        panning,
                        s,
                        next0,
                    ),
                },
            },
            _ => None,
        },
    }
}

/// Builds a sampler track for a voice of a sample. The first voice of a sample is voice 0.
pub fn build_track(
    template: &Document,
    sample: &Sample,
    ids: &mut IdCounter,
    file: &SampleFile,
    notes: &Vec<LiveNote>,
    segments: &Vec<Segment>,
    panning: AmigaPanning,
    voice: usize,
) -> (r: Option<Document>)
    requires
        template.nodes.len() > 0,
        playable(sample@),
        voice < usize::MAX,
        forall|i: int| 0 <= i < notes.len() ==> live_wf((#[trigger] notes[i])@),
    ensures
        ({
            let out = track_of(
                template@,
                sample@,
                old(ids).next,
                file@,
                live_views(notes@),
                segments@,
                panning,
                voice as int,
            );
            match r {
                Some(d) => out == Some((d@, final(ids).next)) && d.nodes.len() > 0 && (is_tree(
                    template@,
                ) ==> is_tree(d@)),
                None => out is None,
            }
        }),
{
    proof {
        reveal(track_of);
    }
    let mut track: Document = template.clone();
    assert(track.nodes.len() == track@.len() && template.nodes.len() == template@.len());
    let id: String = ids.take_text();
    track.set_attribute(0, "Id", id.as_str());
    renumber_global_ids(&mut track, ids);
    let name: String = display_name(sample, voice);
    let offset: u32 = if notes.len() > 0 {
        notes[0].sample_offset_frames
    } else {
        0
    };
    assert(offset == offset_of(live_views(notes@)));
    if !set_track_values(&mut track, sample, voice, &name, offset) {
        return None;
    }
    match (
        target(&track, ".//MultiSampler/Pitch/TransposeKey/AutomationTarget"),
        target(&track, "./DeviceChain/Mixer/Volume/AutomationTarget"),
        target(&track, ".//MultiSampler/VolumeAndPan/Panorama/AutomationTarget"),
    ) {
        (Some(pitch), Some(volume), Some(pan)) => {
            if !set_sample(&mut track, sample, file) {
                return None;
            }
            let color: i64 = color_index_for_sample(sample);
            if !arrange(&mut track, &name, color, notes, segments) {
                return None;
            }
            if !add_curves(&mut track, (&pitch, &volume, &pan), notes, panning, sample, ids) {
                return None;
            }
            Some(track)
        },
        _ => None,
    }
}

/// The values of a group of tracks: it is folded, which hides its tracks.
pub open spec fn group_values(name: Seq<char>, color: int) -> Seq<(Seq<char>, Seq<char>)> {
    seq![
        ("./Name/EffectiveName"@, name),
        ("./Name/UserName"@, name),
        ("./Color"@, decimal(color)),
        ("./TrackUnfolded"@, "false"@),
    ]
}

/// A group of tracks made of the template's, and the next number behind it.
pub open spec fn group_of(template: Doc, name: Seq<char>, color: int, next: u64) -> Option<
    (Doc, u64),
> {
    let numbered = with_attribute(template, 0, "Id"@, decimal(next as int));
    match with_values(renumbered(numbered, after(next)), 0, group_values(name, color)) {
        Some(d) => Some((d, next_after(numbered, after(next)))),
        None => None,
    }
}

/// Builds a group of tracks. Gives its number too, for its tracks to refer to.
pub fn build_group_track(template: &Document, name: &str, color: i64, ids: &mut IdCounter) -> (r: Option<
    (Document, String),
>)
    requires
        template.nodes.len() > 0,
    ensures
        match r {
            Some((d, id)) => group_of(template@, name@, color as int, old(ids).next) == Some(
                (d@, final(ids).next),
            ) && id@ == decimal(old(ids).next as int) && d.nodes.len() > 0 && (is_tree(template@)
                ==> is_tree(d@)),
            None => group_of(template@, name@, color as int, old(ids).next) is None,
        },
{
    let mut track: Document = template.clone();
    assert(track.nodes.len() == track@.len() && template.nodes.len() == template@.len());
    let id: String = ids.take_text();
    track.set_attribute(0, "Id", id.as_str());
    renumber_global_ids(&mut track, ids);
    let color_text: String = decimal_string(color);
    let values: Vec<(&str, &str)> = vec![
        ("./Name/EffectiveName", name),
        ("./Name/UserName", name),
        ("./Color", color_text.as_str()),
        ("./TrackUnfolded", "false"),
    ];
    assert(pairs(values@) =~= group_values(name@, color as int));
    if set_values(&mut track, 0, &values) {
        Some((track, id))
    } else {
        None
    }
}

/// The notes of a voice, as Live plays them.
pub open spec fn voice_notes(events: Seq<NoteEventView>, bends: Seq<Seq<i64>>, voice: int) -> Seq<
    LiveNoteView,
>
    decreases events.len(),
{
    if events.len() == 0 {
        Seq::empty()
    } else {
        let before = voice_notes(events.drop_last(), bends, voice);
        if events.last().voice == voice {
            before.push(live_note(events.last(), bends[events.len() - 1]))
        } else {
            before
        }
    }
}

/// The values of the bends, note by note.
pub open spec fn bend_views(bends: Seq<Vec<i64>>) -> Seq<Seq<i64>> {
    bends.map_values(|v: Vec<i64>| v@)
}

/// There is a value for every bend of every note.
pub open spec fn bends_fit(events: Seq<NoteEventView>, bends: Seq<Seq<i64>>) -> bool {
    &&& bends.len() == events.len()
    &&& forall|i: int|
        0 <= i < events.len() ==> (#[trigger] bends[i]).len() == events[i].bends.len()
}

pub fn notes_of_voice(events: &Vec<NoteEvent>, bends: &Vec<Vec<i64>>, voice: usize) -> (r: Vec<
    LiveNote,
>)
    requires
        bends_fit(event_views(events@), bend_views(bends@)),
    ensures
        live_views(r@) == voice_notes(event_views(events@), bend_views(bends@), voice as int),
        forall|i: int| 0 <= i < r.len() ==> live_wf((#[trigger] r[i])@),
{
    let ghost views = event_views(events@);
    let ghost values = bend_views(bends@);
    let mut out: Vec<LiveNote> = Vec::new();
    let mut i: usize = 0;
    assert(views.take(0) =~= Seq::<NoteEventView>::empty());
    assert(live_views(out@) =~= Seq::<LiveNoteView>::empty());
    while i < events.len()
        invariant
            i <= events.len(),
            views == event_views(events@),
            values == bend_views(bends@),
            bends_fit(views, values),
            live_views(out@) == voice_notes(views.take(i as int), values, voice as int),
            forall|k: int| 0 <= k < out.len() ==> live_wf((#[trigger] out[k])@),
        decreases events.len() - i,
    {
        let ghost before = out@;
        proof {
            assert(views[i as int] == events[i as int]@);
            assert(values[i as int] == bends[i as int]@);
            assert(views.take(i + 1).drop_last() =~= views.take(i as int));
            assert(views.take(i + 1).last() == views[i as int]);
        }
        if events[i].voice == voice {
            let note: LiveNote = to_live(&events[i], &bends[i]);
            proof {
                crate::export::curves::lemma_live_wf(views[i as int], values[i as int]);
            }
            out.push(note);
            assert(live_views(out@) =~= live_views(before).push(note@));
        }
        i += 1;
    }
    assert(views.take(i as int) =~= views);
    out
}

/// The voices of a sample: one more than its highest, and one where it has no notes.
pub open spec fn voice_count(events: Seq<NoteEventView>) -> int
    decreases events.len(),
{
    if events.len() == 0 {
        1
    } else {
        let before = voice_count(events.drop_last());
        if events.last().voice + 1 > before {
            events.last().voice + 1
        } else {
            before
        }
    }
}

/// The highest voice of a sample.
pub fn highest_voice(events: &Vec<NoteEvent>) -> (r: usize)
    ensures
        r + 1 == voice_count(event_views(events@)),
{
    let ghost views = event_views(events@);
    let mut best: usize = 0;
    let mut i: usize = 0;
    assert(views.take(0) =~= Seq::<NoteEventView>::empty());
    while i < events.len()
        invariant
            i <= events.len(),
            views == event_views(events@),
            best + 1 == voice_count(views.take(i as int)),
        decreases events.len() - i,
    {
        proof {
            assert(views[i as int] == events[i as int]@);
            assert(views.take(i + 1).drop_last() =~= views.take(i as int));
            assert(views.take(i + 1).last() == views[i as int]);
        }
        if events[i].voice > best {
            best = events[i].voice;
        }
        i += 1;
    }
    assert(views.take(i as int) =~= views);
    best
}

} // verus!
