use ablemod::export::als::{
    build_set, check_samples, export_als, open_template, read_set, write_set, ExportError,
};
use ablemod::export::automation::{fmt_number, sort_points, step_points_with_glide, Point};
use ablemod::export::clip::{build_clip, ClippedNote};
use ablemod::export::curves::{
    bend_marks, pan_marks, volume_marks, volume_to_gain, AmigaPanning, LiveNote,
};
use ablemod::export::notes::{check_module, compute_song_events, SongEvents};
use ablemod::export::sampler::{
    color_index_for_sample, ensure_loopable, highest_voice, notes_of_voice, row_time, SampleFile,
};
use ablemod::export::wav::{sample_frames, sample_wav_filename};
use ablemod::formats::base::{Cell, Envelope, EnvelopePoint, Module, Pattern, Sample};
use ablemod::report::{song_line, song_totals};
use ablemod::xml::read_document;
use ablemod::xmlutil::{find, find_all_children, find_all_descendants, Document};

const CLIP: &str = "<MidiClip Id=\"0\" Time=\"0\"><CurrentStart Value=\"0\"/><CurrentEnd Value=\"4\"/><Loop><LoopStart Value=\"0\"/><LoopEnd Value=\"4\"/><OutMarker Value=\"4\"/><HiddenLoopStart Value=\"0\"/><HiddenLoopEnd Value=\"4\"/></Loop><Name Value=\"\"/><Color Value=\"1\"/><Notes><KeyTracks><KeyTrack Id=\"9\"/></KeyTracks><NoteIdGenerator><NextId Value=\"1\"/></NoteIdGenerator></Notes><Envelopes><Envelopes><Old/></Envelopes></Envelopes></MidiClip>";

fn template_xml() -> String {
    let manual = |n: &str| format!("<{}><Manual Value=\"9\"/></{}>", n, n);
    let sampler = format!(
        "<MultiSampler><UserName Value=\"\"/><Player><MultiSampleMap><MultiSamplePart><RootKey Value=\"0\"/><SampleStart Value=\"0\"/><SampleEnd Value=\"0\"/><SustainLoop><Start Value=\"0\"/><End Value=\"0\"/><Mode Value=\"0\"/></SustainLoop><ReleaseLoop><Start Value=\"0\"/><End Value=\"0\"/></ReleaseLoop><SampleRef><FileRef><RelativePathType Value=\"\"/><RelativePath Value=\"\"/><Path Value=\"\"/><Type Value=\"\"/><LivePackName Value=\"p\"/><LivePackId Value=\"p\"/><OriginalFileSize Value=\"\"/><OriginalCrc Value=\"9\"/></FileRef><LastModDate Value=\"\"/><DefaultDuration Value=\"\"/><DefaultSampleRate Value=\"\"/><SamplesToAutoWarp Value=\"1\"/></SampleRef></MultiSamplePart></MultiSampleMap><LoopModulators>{}</LoopModulators>{}</Player><Pitch><TransposeKey><Manual Value=\"9\"/><AutomationTarget Id=\"20001\"/></TransposeKey>{}</Pitch><Filter>{}</Filter><VolumeAndPan>{}<Panorama><Manual Value=\"9\"/><AutomationTarget Id=\"20002\"/></Panorama><Envelope>{}{}</Envelope></VolumeAndPan><Globals>{}</Globals></MultiSampler>",
        manual("SampleLength"),
        manual("Snap"),
        manual("TransposeFine"),
        manual("IsOn"),
        manual("Volume"),
        manual("DecayTime"),
        manual("ReleaseTime"),
        manual("PortamentoMode"),
    );
    format!(
        "<Ableton><LiveSet><NextPointeeId Value=\"30000\"/><Tracks><MidiTrack Id=\"10\"><TrackUnfolded Value=\"true\"/><TrackGroupId Value=\"-1\"/><Name><EffectiveName Value=\"\"/><UserName Value=\"\"/></Name><Color Value=\"0\"/><AutomationEnvelopes><Envelopes/></AutomationEnvelopes><DeviceChain><Mixer><Volume><Manual Value=\"1\"/><AutomationTarget Id=\"20000\"/></Volume></Mixer><MainSequencer><Recorder><IsArmed Value=\"true\"/></Recorder><ClipTimeable><ArrangerAutomation><Events>{}</Events></ArrangerAutomation></ClipTimeable></MainSequencer><DeviceChain><Devices>{}</Devices></DeviceChain></DeviceChain></MidiTrack><ReturnTrack Id=\"11\"/></Tracks><MainTrack><AutomationEnvelopes><Envelopes><AutomationEnvelope Id=\"0\"><EnvelopeTarget><PointeeId Value=\"8\"/></EnvelopeTarget><Automation><Events><FloatEvent Id=\"0\" Time=\"0\" Value=\"99\"/></Events></Automation></AutomationEnvelope></Envelopes></AutomationEnvelopes><DeviceChain><Mixer><Tempo><Manual Value=\"99\"/><AutomationTarget Id=\"8\"/></Tempo></Mixer></DeviceChain></MainTrack></LiveSet></Ableton>",
        CLIP, sampler
    )
}

const GROUP: &str = "<GroupTrack Id=\"1\"><TrackUnfolded Value=\"true\"/><Name><EffectiveName Value=\"\"/><UserName Value=\"\"/></Name><Color Value=\"0\"/><Volume><AutomationTarget Id=\"4000\"/></Volume></GroupTrack>";

fn sample(index: u32, name: &str) -> Sample {
    Sample {
        index,
        name: name.to_string(),
        pcm16: vec![0, 1, 0, 2, 0, 3, 0, 4],
        sample_rate_hz: 8363,
        loop_start: 0,
        loop_length: 0,
        volume: 64,
        finetune: 0,
        base_note: 60,
        pan: 0,
        volume_envelope: None,
        panning_envelope: None,
        fadeout: 0,
    }
}

fn empty_cell() -> Cell {
    Cell {
        sample_index: None,
        midi_note: None,
        volume: None,
        effect: None,
        effect_param: None,
        note_off: false,
    }
}

fn note(sample: u32, pitch: i32) -> Cell {
    Cell { sample_index: Some(sample), midi_note: Some(pitch), ..empty_cell() }
}

fn song_module(rows: Vec<Vec<Cell>>, samples: Vec<Sample>) -> Module {
    Module {
        title: String::from("t"),
        source_format: String::from("protracker"),
        num_channels: rows[0].len(),
        samples,
        patterns: vec![Pattern { rows }],
        order: vec![0],
        restart_position: 0,
        initial_tempo_bpm: 125,
        initial_speed_ticks: 6,
        linear_frequency_table: false,
    }
}

fn file() -> SampleFile {
    SampleFile { path: String::from("/abs/x.wav"), size: 77, now: 1234 }
}

fn no_bends(m: &Module, song: &SongEvents) -> Vec<Vec<Vec<i64>>> {
    m.samples
        .iter()
        .map(|s| match song.notes_of(s.index) {
            Some(v) => v.iter().map(|n| vec![0i64; n.bends.len()]).collect(),
            None => Vec::new(),
        })
        .collect()
}

fn value(d: &Document, at: usize, path: &str) -> String {
    d.attribute(find(d, at, path).unwrap(), "Value").unwrap()
}

#[test]
fn numbers_have_up_to_six_decimals() {
    assert_eq!(fmt_number(0), "0");
    assert_eq!(fmt_number(1_500_000), "1.5");
    assert_eq!(fmt_number(-250_000), "-0.25");
    assert_eq!(fmt_number(316), "0.000316");
    assert_eq!(fmt_number(120_000_000), "120");
}

#[test]
fn jumps_become_steps() {
    let p = |t: i64, v: i64, g: bool| Point { time: t, value: v, glide: g };
    let marks = step_points_with_glide(&vec![
        p(0, 10, false),
        p(1_000_000, 20, false),
        p(2_000_000, 30, true),
    ]);
    // Before a jump the old value is held; a glide is left alone.
    assert_eq!(marks.len(), 4);
    assert_eq!(marks[0], (0, 10));
    assert_eq!(marks[1].1, 10);
    assert!(marks[1].0 < 1_000_000 && marks[1].0 > 0);
    assert_eq!(marks[2], (1_000_000, 20));
    assert_eq!(marks[3], (2_000_000, 30));
    let sorted = sort_points(&vec![p(5, 1, false), p(3, 2, false), p(5, 3, false)]);
    let values: Vec<i64> = sorted.iter().map(|x| x.value).collect();
    assert_eq!(values, vec![2, 1, 3]);
}

#[test]
fn gain_follows_the_volume() {
    // Twelve decibels below full gain are kept free.
    assert_eq!(volume_to_gain(4096), 251_189);
    assert_eq!(volume_to_gain(2048), 125_594);
    assert_eq!(volume_to_gain(0), 316);
}

fn live(start: i64, end: i64) -> LiveNote {
    LiveNote {
        start,
        end,
        length: end - start,
        row: 0,
        pitch: 60,
        velocity: 100,
        trigger_volume: 64,
        channel: 0,
        sample_offset_frames: 0,
        bends: vec![],
        volumes: vec![],
        pans: vec![],
        envelope_volumes: vec![],
        envelope_pans: vec![],
    }
}

#[test]
fn amiga_channels_are_panned() {
    let mut n = live(0, 1_000_000);
    assert_eq!(pan_marks(&vec![live(0, 1_000_000)], AmigaPanning::Full, 0)[0].1, -1_000_000);
    n.channel = 1;
    assert_eq!(pan_marks(&vec![n], AmigaPanning::Medium, 0)[0].1, 500_000);
    assert!(pan_marks(&vec![live(0, 1)], AmigaPanning::Off, 0).is_empty());
}

#[test]
fn volumes_and_bends_are_marked() {
    let mut n = live(0, 1_000_000);
    n.volumes.push(Point { time: 500_000, value: 32, glide: false });
    n.bends.push(Point { time: 250_000, value: 1_000_000, glide: false });
    let v = volume_marks(&vec![n]);
    assert!(v.contains(&(500_000, 125_594)), "{:?}", v);
    let mut m = live(0, 1_000_000);
    m.bends.push(Point { time: 250_000, value: 1_000_000, glide: false });
    let b = bend_marks(&vec![m]);
    assert!(b.contains(&(250_000, 1_000_000)), "{:?}", b);
}

#[test]
fn clips_hold_notes_by_pitch() {
    let t = read_document(CLIP.as_bytes()).unwrap();
    let n = |s: i64, p: i32| ClippedNote { start: s, duration: 250_000, velocity: 90, pitch: p };
    let clip = build_clip(
        &t,
        "lead",
        4_000_000,
        8_000_000,
        &vec![n(4_000_000, 64), n(4_500_000, 60), n(5_000_000, 64)],
        2,
        5,
    )
    .unwrap();
    assert_eq!(clip.attribute(0, "Id"), Some("2".to_string()));
    assert_eq!(clip.attribute(0, "Time"), Some("4".to_string()));
    assert_eq!(value(&clip, 0, "./Loop/LoopEnd"), "8");
    assert_eq!(value(&clip, 0, "./Name"), "lead");
    assert_eq!(value(&clip, 0, "./Notes/NoteIdGenerator/NextId"), "4");
    let tracks = find_all_children(&clip, find(&clip, 0, "./Notes/KeyTracks").unwrap(), "KeyTrack");
    assert_eq!(tracks.len(), 2);
    assert_eq!(value(&clip, tracks[0], "./MidiKey"), "60");
    assert_eq!(value(&clip, tracks[1], "./MidiKey"), "64");
    let events = find_all_descendants(&clip, 0, "MidiNoteEvent");
    assert_eq!(clip.attribute(events[0], "Time"), Some("4.5".to_string()));
    assert_eq!(clip.attribute(events[0], "NoteId"), Some("1".to_string()));
    assert_eq!(clip.attribute(events[2], "NoteId"), Some("3".to_string()));
    assert_eq!(clip.attribute(events[1], "Duration"), Some("0.25".to_string()));
    assert!(find(&clip, 0, ".//Old").is_none());
    let broken = read_document(b"<MidiClip/>").unwrap();
    assert!(build_clip(&broken, "x", 0, 1, &vec![], 0, 0).is_none());
}

#[test]
fn short_loops_are_played_out() {
    let mut s = sample(1, "x");
    s.loop_start = 2;
    s.loop_length = 2;
    let r = ensure_loopable(&s);
    assert_eq!(r.loop_length, 48);
    assert_eq!(r.loop_start, 2);
    assert_eq!(r.pcm16.len(), 2 * (2 + 48));
    assert_eq!(&r.pcm16[..4], &[0, 1, 0, 2]);
    for k in 0..96 {
        assert_eq!(r.pcm16[4 + k], s.pcm16[4 + k % 4]);
    }
    let plain = ensure_loopable(&sample(1, "x"));
    assert_eq!(plain.pcm16, sample(1, "x").pcm16);
}

#[test]
fn colors_start_over() {
    assert_eq!(color_index_for_sample(&sample(1, "")), 0);
    assert_eq!(color_index_for_sample(&sample(70, "")), 69);
    assert_eq!(color_index_for_sample(&sample(71, "")), 0);
    assert_eq!(color_index_for_sample(&sample(0, "")), 69);
    assert_eq!(row_time(6), 1_500_000);
}

#[test]
fn wav_files_have_safe_names() {
    assert_eq!(sample_wav_filename(&sample(3, "a/b:c ")), "03_a_b_c.wav");
    assert_eq!(sample_wav_filename(&sample(12, "  ")), "12_sample.wav");
    assert_eq!(sample_wav_filename(&sample(1, "häh")), "01_häh.wav");
    assert_eq!(sample_frames(&sample(1, "")), vec![256, 512, 768, 1024]);
}

#[test]
fn a_song_becomes_a_set() {
    let rows = vec![
        vec![note(1, 60), empty_cell()],
        vec![empty_cell(), empty_cell()],
        vec![note(1, 62), empty_cell()],
        vec![empty_cell(), empty_cell()],
    ];
    let m = song_module(rows, vec![sample(1, "kick")]);
    assert!(check_module(&m));
    assert!(check_samples(&m));
    let song = compute_song_events(&m);
    assert_eq!(highest_voice(song.notes_of(1).unwrap()), 0);
    let doc = read_document(template_xml().as_bytes()).unwrap();
    let template = open_template(&write_set(&doc).unwrap()).unwrap();
    let group = read_document(GROUP.as_bytes()).unwrap();
    let bends = no_bends(&m, &song);
    let set =
        build_set(&template, &group, &m, &vec![file()], &song, &bends, AmigaPanning::Off).unwrap();
    let live = find(&set, 0, "./LiveSet").unwrap();
    let tracks_at = find(&set, live, "./Tracks").unwrap();
    let tracks = find_all_children(&set, tracks_at, "MidiTrack");
    assert_eq!(tracks.len(), 1);
    assert_eq!(find_all_children(&set, tracks_at, "ReturnTrack").len(), 1);
    assert!(find_all_children(&set, tracks_at, "GroupTrack").is_empty());
    let t = tracks[0];
    assert_eq!(value(&set, t, "./Name/UserName"), "01 kick");
    assert_eq!(value(&set, t, "./DeviceChain/MainSequencer/Recorder/IsArmed"), "true");
    assert_eq!(value(&set, t, ".//MultiSamplePart/RootKey"), "60");
    assert_eq!(value(&set, t, ".//MultiSamplePart/SampleEnd"), "3");
    assert_eq!(value(&set, t, ".//FileRef/RelativePath"), "Samples/Imported/01_kick.wav");
    assert_eq!(value(&set, t, ".//FileRef/OriginalFileSize"), "77");
    assert_eq!(value(&set, t, ".//SampleRef/LastModDate"), "1234");
    // 125 beats per minute at 6 ticks a row.
    assert_eq!(value(&set, live, ".//Tempo/Manual"), "125");
    let main = find(&set, live, "./MainTrack").unwrap();
    let points = find_all_descendants(&set, main, "FloatEvent");
    assert_eq!(points.len(), 2);
    assert_eq!(set.attribute(points[0], "Time"), Some("-63072000".to_string()));
    assert_eq!(set.attribute(points[1], "Value"), Some("125".to_string()));
    let notes = find_all_descendants(&set, t, "MidiNoteEvent");
    assert_eq!(notes.len(), 2);
    assert_eq!(set.attribute(notes[1], "Time"), Some("0.5".to_string()));
    // Every number is new.
    let targets = find_all_descendants(&set, t, "AutomationTarget");
    for a in targets {
        let id: u64 = set.attribute(a, "Id").unwrap().parse().unwrap();
        assert!(id > 20_002);
    }
    let next: u64 = value(&set, live, "./NextPointeeId").parse().unwrap();
    assert!(next > 20_003);

    let bytes =
        export_als(&template, &group, &m, &vec![file()], &song, &bends, AmigaPanning::Off).unwrap();
    assert_eq!(read_set(&bytes).unwrap().nodes.len(), set.nodes.len());
}

#[test]
fn overlapping_notes_are_grouped() {
    let rows = vec![
        vec![note(1, 60), note(1, 64)],
        vec![empty_cell(), empty_cell()],
    ];
    let mut long = sample(1, "pad");
    long.pcm16 = vec![1; 200_000];
    let m = song_module(rows, vec![long]);
    let song = compute_song_events(&m);
    assert_eq!(highest_voice(song.notes_of(1).unwrap()), 1);
    let doc = read_document(template_xml().as_bytes()).unwrap();
    let template = open_template(&write_set(&doc).unwrap()).unwrap();
    let group = read_document(GROUP.as_bytes()).unwrap();
    let bends = no_bends(&m, &song);
    let set =
        build_set(&template, &group, &m, &vec![file()], &song, &bends, AmigaPanning::Off).unwrap();
    let tracks_at = find(&set, 0, "./LiveSet/Tracks").unwrap();
    let groups = find_all_children(&set, tracks_at, "GroupTrack");
    let tracks = find_all_children(&set, tracks_at, "MidiTrack");
    assert_eq!(groups.len(), 1);
    assert_eq!(tracks.len(), 2);
    assert!(groups[0] < tracks[0]);
    let id = set.attribute(groups[0], "Id").unwrap();
    assert_eq!(value(&set, tracks[0], "./TrackGroupId"), id);
    assert_eq!(value(&set, tracks[1], "./Name/UserName"), "01 pad (2)");
    assert_eq!(song_totals(&m, &song), (2, 2));
    assert_eq!(
        song_line(Some(2), 2, &song),
        "Verbose: 2 track(s), 2 note(s), 1 tempo change(s), 0.50 beats total"
    );
    assert_eq!(
        song_line(None, 2, &song),
        "Verbose: 2 note(s), 1 tempo change(s), 0.50 beats total"
    );
    let armed = |t: usize| value(&set, t, "./DeviceChain/MainSequencer/Recorder/IsArmed");
    assert_eq!(armed(tracks[0]), "true");
    assert_eq!(armed(tracks[1]), "false");
}

#[test]
fn incomplete_templates_give_no_set() {
    let m = song_module(vec![vec![note(1, 60)]], vec![sample(1, "kick")]);
    let song = compute_song_events(&m);
    let broken = template_xml().replace("<SampleStart Value=\"0\"/>", "");
    let doc = read_document(broken.as_bytes()).unwrap();
    let template = open_template(&write_set(&doc).unwrap()).unwrap();
    let group = read_document(GROUP.as_bytes()).unwrap();
    let bends = no_bends(&m, &song);
    let r = export_als(&template, &group, &m, &vec![file()], &song, &bends, AmigaPanning::Off);
    assert!(matches!(r, Err(ExportError::MissingPart)));
}

#[test]
fn samples_that_cannot_be_played_are_told() {
    let mut s = sample(1, "x");
    s.loop_start = 100;
    s.loop_length = 3;
    assert!(!check_samples(&song_module(vec![vec![note(1, 60)]], vec![s])));
    let mut odd = sample(1, "x");
    odd.pcm16 = vec![1];
    assert!(!check_samples(&song_module(vec![vec![note(1, 60)]], vec![odd])));
}

#[test]
fn clips_follow_the_patterns() {
    let mut m = song_module(
        vec![vec![note(1, 60)], vec![empty_cell()], vec![note(1, 62)]],
        vec![sample(1, "kick")],
    );
    m.order = vec![0, 0];
    let song = compute_song_events(&m);
    let doc = read_document(template_xml().as_bytes()).unwrap();
    let template = open_template(&write_set(&doc).unwrap()).unwrap();
    let group = read_document(GROUP.as_bytes()).unwrap();
    let bends = no_bends(&m, &song);
    let set =
        build_set(&template, &group, &m, &vec![file()], &song, &bends, AmigaPanning::Off).unwrap();
    let clips = find_all_descendants(&set, 0, "MidiClip");
    assert_eq!(clips.len(), 2);
    assert_eq!(set.attribute(clips[1], "Time"), Some("0.75".to_string()));
    let times = |c: usize| -> Vec<String> {
        find_all_descendants(&set, c, "MidiNoteEvent")
            .into_iter()
            .map(|e| set.attribute(e, "Time").unwrap())
            .collect()
    };
    assert_eq!(times(clips[0]), vec!["0".to_string(), "0.5".to_string()]);
    assert_eq!(times(clips[1]), vec!["0.75".to_string(), "1.25".to_string()]);
}

/// The notes of a song of one note, with this envelope on its sample.
fn with_envelope(values: Vec<(u32, u32)>, panning: bool) -> Vec<LiveNote> {
    let envelope = Some(Envelope {
        points: values.into_iter().map(|(tick, value)| EnvelopePoint { tick, value }).collect(),
        sustain_point: None,
        loop_start_point: None,
        loop_end_point: None,
    });
    let mut s = sample(1, "pad");
    s.pcm16 = vec![1; 100_000];
    if panning {
        s.panning_envelope = envelope;
    } else {
        s.volume_envelope = envelope;
    }
    let mut slide = empty_cell();
    slide.effect = Some(0xC);
    slide.effect_param = Some(16);
    let m = song_module(vec![vec![note(1, 60)], vec![slide], vec![empty_cell()]], vec![s]);
    let song = compute_song_events(&m);
    let events = song.notes_of(1).unwrap();
    notes_of_voice(events, &vec![vec![]], 0)
}

#[test]
fn neutral_envelopes_change_nothing() {
    let plain = with_envelope(vec![], false);
    let full = with_envelope(vec![(0, 64)], false);
    let ends = |m: &Vec<(i64, i64)>| (m[0], *m.last().unwrap());
    assert_eq!(ends(&volume_marks(&full)), ends(&volume_marks(&plain)));
    assert!(volume_marks(&full).contains(&(250_000, 62_797)));
    let centered = with_envelope(vec![(0, 32)], true);
    for (_, pan) in pan_marks(&centered, AmigaPanning::Full, 0) {
        assert_eq!(pan, -1_000_000);
    }
}

#[test]
fn envelopes_scale_the_volume() {
    // Half of the full level, from the start.
    let half = with_envelope(vec![(0, 32)], false);
    let marks = volume_marks(&half);
    assert_eq!(marks[0], (0, 125_594));
    assert!(marks.contains(&(250_000, 31_399)), "{:?}", marks);
    let left = pan_marks(&with_envelope(vec![(0, 0)], true), AmigaPanning::Off, 0);
    assert!(left.iter().any(|&(_, pan)| pan == -1_000_000), "{:?}", left);
}

#[test]
fn gains_tell_volumes_apart() {
    let gains: Vec<i64> = (5..32_537).map(volume_to_gain).collect();
    assert!(gains.windows(2).all(|w| w[0] < w[1]));
    assert_eq!(volume_to_gain(0), volume_to_gain(5));
    assert_eq!(volume_to_gain(32_536), volume_to_gain(40_000));
}

#[test]
fn no_identity_is_given_twice_in_a_set() {
    let rows = vec![
        vec![note(1, 60), note(1, 64)],
        vec![note(2, 55), empty_cell()],
    ];
    let mut long = sample(1, "pad");
    long.pcm16 = vec![1; 200_000];
    let m = song_module(rows, vec![long, sample(2, "kick")]);
    let song = compute_song_events(&m);
    let doc = read_document(template_xml().as_bytes()).unwrap();
    let template = open_template(&write_set(&doc).unwrap()).unwrap();
    let group = read_document(GROUP.as_bytes()).unwrap();
    let bends = no_bends(&m, &song);
    let files = vec![file(), file()];
    let set = build_set(&template, &group, &m, &files, &song, &bends, AmigaPanning::Off).unwrap();
    let mut seen: Vec<u64> = Vec::new();
    for i in 0..set.nodes.len() {
        if let Some(id) = set.attribute(i, "Id") {
            let n: u64 = id.parse().unwrap();
            if n >= 1000 {
                assert!(!seen.contains(&n));
                seen.push(n);
            }
        }
    }
    // A group and three tracks, each with its own number and those of what can be automated.
    assert!(seen.len() >= 14);
    assert!(seen.iter().all(|n| *n > 20_002));
}

#[test]
fn envelopes_point_into_their_track() {
    let mut loud = note(1, 60);
    loud.volume = Some(64);
    let mut soft = empty_cell();
    soft.volume = Some(20);
    soft.effect = Some(0xC);
    soft.effect_param = Some(20);
    let m = song_module(vec![vec![loud], vec![soft]], vec![sample(1, "kick")]);
    let song = compute_song_events(&m);
    let doc = read_document(template_xml().as_bytes()).unwrap();
    let template = open_template(&write_set(&doc).unwrap()).unwrap();
    let group = read_document(GROUP.as_bytes()).unwrap();
    let bends = no_bends(&m, &song);
    let set =
        build_set(&template, &group, &m, &vec![file()], &song, &bends, AmigaPanning::Off).unwrap();
    let tracks_at = find(&set, 0, "./LiveSet/Tracks").unwrap();
    let t = find_all_children(&set, tracks_at, "MidiTrack")[0];
    let targets: Vec<String> = find_all_descendants(&set, t, "AutomationTarget")
        .iter()
        .map(|i| set.attribute(*i, "Id").unwrap())
        .collect();
    let pointees = find_all_descendants(&set, t, "PointeeId");
    assert!(!pointees.is_empty());
    for i in pointees {
        assert!(targets.contains(&set.attribute(i, "Value").unwrap()));
    }
}
