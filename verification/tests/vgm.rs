use ablemod::chips::{
    Ay8910, Opll, RateClock, Scc, ALL_AY_CHANNELS, ALL_FM_CHANNELS, MASK_BD, MASK_CYM, MASK_HH,
    MASK_SD, MASK_TOM,
};
use ablemod::export::pace::{estimate_tempo, song_pace, Pace};
use ablemod::export::sampler::SampleFile;
use ablemod::export::vgm_als::{
    build_audio_track, loop_split, ramp_points, sanitize_filename, stem_file_names, stem_segments,
    wavetable_samples, AudioSegment,
};
use ablemod::export::vgm_operator;
use ablemod::export::vgm_render::{
    finish_render, is_silent, mute_everything, peak, plan_stems, player_ready_bytes, slice,
    stem_mutes, RenderedAudio,
};
use ablemod::export::vgm_set::{
    build_vgm_set, export_als, stem_track, template_tempo, StemTrack, VgmParts, VgmTemplates,
};
use ablemod::export::vgm_wavetable::{
    extract_channel, extract_channels, extract_spans, merge_short_spans, note_of_tone, Span,
    WaveformFrame, SCC_TONES,
};
use ablemod::export::ids::IdCounter;
use ablemod::formats::vgm::{
    parse, unsupported_chip_name, version_string, Chip, RegisterWrite, VgmFile,
};
use ablemod::report::{summary_lines, vgm_details};
use ablemod::xml::read_document;
use ablemod::xmlutil::{find, find_all_children, find_all_descendants, Document};
use std::io::Write;

/// A file of version 1.61 with an SCC and these commands.
fn vgm_bytes(commands: &[u8], total: u32, loop_at: Option<(u32, u32)>) -> Vec<u8> {
    let mut d = vec![0u8; 0x100];
    d[..4].copy_from_slice(b"Vgm ");
    d[0x08..0x0c].copy_from_slice(&0x161u32.to_le_bytes());
    d[0x18..0x1c].copy_from_slice(&total.to_le_bytes());
    if let Some((offset, samples)) = loop_at {
        d[0x1c..0x20].copy_from_slice(&offset.to_le_bytes());
        d[0x20..0x24].copy_from_slice(&samples.to_le_bytes());
    }
    d[0x34..0x38].copy_from_slice(&(0x100u32 - 0x34).to_le_bytes());
    d[0x9c..0xa0].copy_from_slice(&3_579_545u32.to_le_bytes());
    d.extend_from_slice(commands);
    d.push(0x66);
    d
}

fn scc(at: u64, port: u8, reg: u8, value: u8) -> RegisterWrite {
    RegisterWrite { at_sample: at, chip: Chip::Scc, port, reg, value }
}

/// Tones of an SCC at 3,579,545 Hz.
fn tones() -> Vec<i64> {
    (0..SCC_TONES)
        .map(|r| {
            let hz = 3_579_545.0 / (32.0 * (r as f64 + 1.0));
            ((69.0 + 12.0 * (hz / 440.0f64).log2()) * 1e6).round() as i64
        })
        .collect()
}

fn parsed() -> VgmFile {
    // A key press on the SCC's first channel, then a wait of 44,100 samples.
    let cmds = [
        0xd2, 1, 0, 0xfd, 0xd2, 1, 1, 0, 0xd2, 2, 0, 15, 0xd2, 3, 0, 1, 0x61, 0x44, 0xac,
    ];
    parse(&vgm_bytes(&cmds, 44_100, None)).unwrap()
}

#[test]
fn vgm_files_are_read() {
    let v = parsed();
    assert_eq!(v.version, 0x161);
    assert_eq!(v.scc_clock, 3_579_545);
    assert_eq!(v.total_samples, 44_100);
    assert_eq!(v.writes.len(), 4);
    assert_eq!(v.writes[0], scc(0, 1, 0, 0xfd));
    assert_eq!(v.loop_start_sample, None);
    assert_eq!(version_string(0x161), "1.61");
}

#[test]
fn gzipped_vgm_files_are_read() {
    let plain = vgm_bytes(&[0x62], 735, None);
    let mut z = flate2::write::GzEncoder::new(Vec::new(), flate2::Compression::default());
    z.write_all(&plain).unwrap();
    let v = parse(&z.finish().unwrap()).unwrap();
    assert_eq!(v.raw_data, plain);
    assert_eq!(v.total_samples, 735);
}

#[test]
fn other_files_are_refused() {
    assert!(parse(b"RIFF").is_err());
    assert!(parse(&[0x1f, 0x8b, 1, 2]).is_err());
}

#[test]
fn other_chips_are_counted() {
    let v = parse(&vgm_bytes(&[0xb6, 1, 2, 0xb6, 1, 3, 0x5d, 0, 0], 0, None)).unwrap();
    assert_eq!(v.unsupported_commands.get(&0xb6), Some(&2));
    assert_eq!(unsupported_chip_name(0xb6), "uPD7759");
    let lines = summary_lines(&v, "0.0", "", "");
    assert_eq!(lines[4], "Format:     VGM v1.61");
    assert_eq!(lines[6], "Loop:       (none)");
    let n = lines.len();
    assert_eq!(lines[n - 2], "  YMZ280B: 1 register write(s)");
    assert_eq!(lines[n - 1], "  uPD7759: 2 register write(s)");
    let d = vgm_details(&v, "0.0");
    assert!(d[0].starts_with("Verbose: VGM v1.61, 0.0s, YM2413=0Hz AY8910=0Hz SCC="));
    assert_eq!(
        d[1],
        "Verbose: other chips found in this file are not emulated and will be silent:"
    );
}

#[test]
fn chips_are_listed() {
    let v = parsed();
    let lines = summary_lines(&v, "1.0", "", "");
    assert_eq!(lines[0], "Title:      (unknown)");
    assert_eq!(lines[5], "Duration:   1.0s (44100 samples @ 44100Hz)");
    assert_eq!(lines[9], "  K051649/SCC (Konami) @ 3579545 Hz — emulated by convert");
    assert_eq!(lines.len(), 10);
}

#[test]
fn repeated_parts_fill_bars() {
    // Two seconds: one bar, at 120 beats per minute.
    let p = estimate_tempo(88_200);
    assert_eq!(p, Pace { beats: 4, samples: 88_200 });
    assert_eq!(p.bpm_micros(), 120_000_000);
    assert_eq!(p.samples_to_beats(88_200), 4_000_000);
    // Ten seconds: four bars, at 96.
    let q = estimate_tempo(441_000);
    assert_eq!(q.beats, 16);
    assert_eq!(q.bpm_micros(), 96_000_000);
    assert_eq!(estimate_tempo(0).bpm_micros(), 120_000_000);
    assert_eq!(estimate_tempo(u64::MAX).beats, 1024);
    assert_eq!(Pace::of_bpm_micros(126_500_000).bpm_micros(), 126_500_000);
    // Only a loop point tells a tempo.
    let template = Pace::of_bpm_micros(99_000_000);
    assert_eq!(song_pace(Some(11_800), 100_000, template), p);
    assert_eq!(song_pace(None, 100_000, template), template);
}

#[test]
fn notes_are_nearest_to_tones() {
    assert_eq!(note_of_tone(69_000_000), 69);
    assert_eq!(note_of_tone(69_499_999), 69);
    assert_eq!(note_of_tone(69_500_000), 70);
    assert_eq!(note_of_tone(-3_000_000), 0);
    assert_eq!(note_of_tone(200_000_000), 127);
}

#[test]
fn a_held_key_is_a_note() {
    let v = parsed();
    let spans = extract_spans(&v.writes, v.total_samples, 0, &tones());
    assert_eq!(spans.len(), 1);
    assert_eq!((spans[0].start, spans[0].end), (0, 44_100));
    // 3,579,545 / (32 * 254) Hz is nearest to A4.
    assert_eq!(spans[0].pitch, 69);
    assert_eq!(spans[0].velocity, 127);
    let pace = Pace { beats: 2, samples: 44_100 };
    let t = extract_channel(&v, 0, &tones(), &pace);
    assert_eq!(t.notes.len(), 1);
    assert_eq!(t.notes[0].duration, 1_960_000);
    assert_eq!(t.frames.len(), 1);
    assert_eq!(t.gains[0].value, 1_000_000);
    assert!(t.pitch_bends[0].value.abs() < 500_000);
    let all = extract_channels(&v, &tones(), &pace);
    assert_eq!(all.len(), 5);
    assert!(all[1].notes.is_empty());
}

#[test]
fn small_changes_bend_and_large_ones_start_notes() {
    let writes = vec![
        scc(0, 1, 0, 0xfd),
        scc(0, 3, 0, 1),
        scc(5_000, 1, 0, 0xfc),
        scc(10_000, 1, 0, 0x80),
        scc(20_000, 2, 0, 4),
        scc(21_000, 2, 0, 12),
    ];
    let spans = extract_spans(&writes, 30_000, 0, &tones());
    let starts: Vec<u64> = spans.iter().map(|s| s.start).collect();
    assert_eq!(starts, vec![0, 10_000, 21_000]);
    assert_eq!(spans[0].bends, vec![(0, 0xfd), (5_000, 0xfc)]);
    assert_eq!(spans[1].volumes, vec![(10_000, 15), (20_000, 4)]);
}

#[test]
fn half_written_frequencies_are_waited_for() {
    let writes = vec![
        scc(0, 1, 0, 0xfd),
        scc(0, 3, 0, 1),
        // The low byte alone would be another note; the high byte follows soon.
        scc(10_000, 1, 0, 0x04),
        scc(10_050, 1, 1, 0x01),
    ];
    let spans = extract_spans(&writes, 30_000, 0, &tones());
    assert_eq!(spans.len(), 1);
    assert_eq!(spans[0].bends, vec![(0, 0xfd), (10_050, 0x104)]);
}

#[test]
fn waveforms_end_spans() {
    let mut writes = vec![scc(0, 1, 0, 0xfd), scc(0, 3, 0, 1)];
    writes.push(scc(10_000, 0, 3, 0x90));
    let spans = extract_spans(&writes, 20_000, 0, &tones());
    assert_eq!(spans.len(), 2);
    assert_eq!(spans[1].waveform[3], -112);
    // The last two channels share their waveform.
    let shared = vec![scc(0, 1, 8, 0xfd), scc(0, 0, 0x61, 7), scc(0, 3, 0, 16)];
    let s = extract_spans(&shared, 9_000, 4, &tones());
    assert_eq!(s[0].waveform[1], 7);
}

fn span(start: u64, end: u64, pitch: i32) -> Span {
    Span {
        start,
        end,
        pitch,
        velocity: 1,
        waveform: vec![0; 32],
        bends: vec![(start, 100)],
        volumes: vec![(start, 15)],
    }
}

#[test]
fn short_spans_are_merged() {
    let merged = merge_short_spans(vec![
        span(0, 10, 1),
        span(10, 5_000, 2),
        span(5_000, 5_100, 3),
        span(5_100, 9_000, 4),
    ]);
    let seen: Vec<(u64, u64, i32)> = merged.iter().map(|s| (s.start, s.end, s.pitch)).collect();
    assert_eq!(seen, vec![(0, 5_100, 2), (5_100, 9_000, 4)]);
    assert_eq!(merge_short_spans(vec![span(0, 5, 1)]).len(), 1);
}

fn opl(at: u64, reg: u8, value: u8) -> RegisterWrite {
    RegisterWrite { at_sample: at, chip: Chip::Ym3812, port: 0, reg, value }
}

#[test]
fn opl_notes_are_found() {
    let mut v = parsed();
    v.total_samples = 30_000;
    v.writes = vec![
        opl(0, 0x20, 0x21),
        opl(0, 0x23, 0x02),
        opl(0, 0x43, 0x10),
        opl(0, 0x60, 0xf4),
        opl(0, 0x80, 0x35),
        opl(0, 0xc0, 0x0e),
        opl(0, 0xa0, 0x41),
        opl(0, 0xb0, 0x32),
        opl(5_000, 0x43, 0x08),
        opl(10_000, 0xb0, 0x36),
        opl(20_000, 0xb0, 0x16),
    ];
    let tones: Vec<i64> = (0..vgm_operator::OPL_TONES as i64).map(|i| i * 10_000).collect();
    let pace = Pace { beats: 1, samples: 10_000 };
    let tracks = vgm_operator::extract_channels(&v, Chip::Ym3812, &tones, &pace);
    assert_eq!(tracks.len(), 9);
    let t = &tracks[0];
    // A change of the block starts a new note.
    assert_eq!(t.notes.len(), 2);
    assert_eq!(t.notes[0].start, 0);
    assert_eq!(t.notes[1].start, 1_000_000);
    assert_eq!(t.notes[1].duration, 1_000_000);
    let patch = t.patch.unwrap();
    assert_eq!(patch.modulator.multiple, 1);
    assert_eq!(patch.carrier.multiple, 2);
    assert_eq!(patch.modulator.attack_rate, 15);
    assert_eq!(patch.modulator.sustain_level, 3);
    assert_eq!(patch.feedback, 7);
    assert_eq!(patch.fnum, 0x241);
    assert_eq!(t.gains[0].value, 251_189);
    assert_eq!(t.gains[1].value, 501_187);
    assert!(t.gains[1].glide);
    assert!(tracks[1].notes.is_empty() && tracks[1].patch.is_none());
}

#[test]
fn opl_registers_become_levels() {
    assert_eq!(vgm_operator::opl_rate_to_ms(0), 8_000_000_000);
    assert_eq!(vgm_operator::opl_rate_to_ms(15), 500_000);
    for r in 1..15u8 {
        let ms = (8000f64.ln() + (0.5f64.ln() - 8000f64.ln()) * r as f64 / 15.0).exp();
        assert_eq!(vgm_operator::opl_rate_to_ms(r), (ms * 1e6).round() as i64);
    }
    for t in 0..64u8 {
        let gain = 10f64.powf(-0.75 * t as f64 / 20.0);
        assert_eq!(vgm_operator::opl_total_level_to_gain(t), (gain * 1e6).round() as i64);
        let velocity = (gain * 127.0).round().clamp(1.0, 127.0) as i32;
        assert_eq!(vgm_operator::velocity_from_total_level(t), velocity);
    }
    for s in 0..15u8 {
        let gain = 10f64.powf(-3.0 * s as f64 / 20.0);
        assert_eq!(vgm_operator::opl_sustain_level_to_gain(s), (gain * 1e6).round() as i64);
    }
    assert_eq!(vgm_operator::opl_sustain_level_to_gain(15), 316);
    assert_eq!(vgm_operator::feedback_to_percent(7), 100_000_000);
    assert_eq!(vgm_operator::feedback_to_percent(1), 14_285_714);
}

#[test]
fn stems_unmute_one_channel() {
    let mut v = parsed();
    let plans = plan_stems(&v);
    assert_eq!(plans.len(), 3 + 5 + 3 * 14);
    assert_eq!(plans[0].name, "AY-A");
    assert_eq!(plans[3].name, "SCC-1");
    assert_eq!(plans[8].name, "YM-1");
    assert_eq!(plans[17].name, "YM-BD");
    assert_eq!(plans[18].name, "YM-HH");
    v.nes_apu_clock = 1;
    let more = plan_stems(&v);
    assert_eq!(more.last().unwrap().name, "NES-DPCM");
    let all = mute_everything();
    for p in &more {
        let muted = all
            .iter()
            .find(|m| m.device == p.solo.device && m.instance == p.solo.instance)
            .unwrap();
        assert_eq!((muted.mask ^ p.solo.mask).count_ones(), 1);
        assert_eq!(p.solo.mask & !muted.mask, 0);
        let list = stem_mutes(p);
        assert_eq!(list.len(), all.len() + 1);
        assert_eq!(*list.last().unwrap(), p.solo);
    }
}

#[test]
fn the_player_gets_the_right_clock() {
    let mut v = parsed();
    v.scc_clock = 0x01020304;
    let b = player_ready_bytes(&v);
    assert_eq!(&b[0x9c..0xa0], &[4, 3, 2, 1]);
    assert_eq!(b.len(), v.raw_data.len());
    v.raw_data.truncate(0x9f);
    assert_eq!(player_ready_bytes(&v), v.raw_data);
    v.scc_clock = 0;
    assert_eq!(player_ready_bytes(&v), v.raw_data);
}

#[test]
fn sound_is_cut_and_measured() {
    let a = finish_render(&vec![1, -5, 3], &vec![0, 0, 4], 4);
    assert_eq!(a.left, vec![1, -5, 3, 0]);
    assert_eq!(a.sample_rate, 44_100);
    assert_eq!(peak(&a), 5);
    assert!(!is_silent(&a));
    let b = slice(&a, 1, 3);
    assert_eq!(b.left, vec![-5, 3]);
    assert_eq!(b.right, vec![0, 4]);
    let parts = (slice(&a, 0, 1), slice(&a, 1, 4));
    assert_eq!([parts.0.left, parts.1.left].concat(), a.left);
    let quiet = RenderedAudio { sample_rate: 44_100, left: vec![0, 0], right: vec![0] };
    assert!(is_silent(&quiet));
    assert_eq!(peak(&quiet), 0);
    assert_eq!(
        peak(&RenderedAudio { sample_rate: 1, left: vec![i32::MIN], right: vec![] }),
        0x8000_0000
    );
}

#[test]
fn stems_have_files() {
    assert_eq!(stem_file_names(0, "AY-A", false), vec!["01_AY-A.wav".to_string()]);
    assert_eq!(
        stem_file_names(9, "a/b", true),
        vec!["10_a_b_intro.wav".to_string(), "10_a_b_loop.wav".to_string()]
    );
    assert_eq!(sanitize_filename(" "), "track");
    assert_eq!(loop_split(Some(10), 20), Some(10));
    assert_eq!(loop_split(Some(0), 20), None);
    assert_eq!(loop_split(Some(20), 20), None);
    assert_eq!(loop_split(None, 20), None);
}

#[test]
fn tables_hold_their_samples() {
    let mut wave = vec![0i8; 32];
    wave[1] = -128;
    let s = wavetable_samples(&vec![WaveformFrame { at: 0, waveform: wave }]);
    assert_eq!(s.len(), 1024);
    assert_eq!(s[31], 0);
    assert_eq!(s[32], -32768);
    assert_eq!(s[63], -32768);
    assert_eq!(s[64], 0);
}

#[test]
fn ramps_start_before_changes() {
    assert_eq!(
        ramp_points(&vec![(0, 0), (1_000, 5), (1_010, 5), (1_020, 9)], 100),
        vec![(0, 0), (900, 0), (1_000, 5), (1_010, 5), (1_010, 5), (1_020, 9)]
    );
    assert!(ramp_points(&vec![], 100).is_empty());
}

const AUDIO: &str = "<AudioTrack Id=\"1\"><TrackGroupId Value=\"-1\"/><TrackUnfolded Value=\"true\"/><Name><EffectiveName Value=\"\"/><UserName Value=\"\"/></Name><Color Value=\"0\"/><DeviceChain><Mixer><Volume><Manual Value=\"1\"/></Volume></Mixer><MainSequencer><Recorder><IsArmed Value=\"true\"/></Recorder><Sample><ArrangerAutomation><Events><AudioClip Id=\"0\" Time=\"0\"><CurrentStart Value=\"0\"/><CurrentEnd Value=\"0\"/><Loop><LoopStart Value=\"9\"/><LoopEnd Value=\"0\"/><HiddenLoopStart Value=\"9\"/><HiddenLoopEnd Value=\"0\"/><OutMarker Value=\"0\"/><LoopOn Value=\"true\"/></Loop><Name Value=\"\"/><Color Value=\"0\"/><ScrollerTimePreserver><LeftTime Value=\"9\"/><RightTime Value=\"0\"/></ScrollerTimePreserver><SampleRef><FileRef><RelativePathType Value=\"\"/><RelativePath Value=\"\"/><Path Value=\"\"/><Type Value=\"\"/><LivePackName Value=\"\"/><LivePackId Value=\"\"/><OriginalFileSize Value=\"\"/><OriginalCrc Value=\"\"/></FileRef><LastModDate Value=\"\"/><DefaultDuration Value=\"\"/><DefaultSampleRate Value=\"\"/><SamplesToAutoWarp Value=\"\"/></SampleRef></AudioClip></Events></ArrangerAutomation></Sample></MainSequencer><FreezeSequencer><Recorder><IsArmed Value=\"true\"/></Recorder></FreezeSequencer></DeviceChain></AudioTrack>";

const GROUP: &str = "<GroupTrack Id=\"1\"><TrackUnfolded Value=\"true\"/><Name><EffectiveName Value=\"\"/><UserName Value=\"\"/></Name><Color Value=\"0\"/></GroupTrack>";

const ROOT: &str = "<Ableton><LiveSet><NextPointeeId Value=\"5\"/><Tracks><MidiTrack Id=\"3\"/><ReturnTrack Id=\"4\"/></Tracks><MainTrack><Tempo><Manual Value=\"99\"/></Tempo></MainTrack></LiveSet></Ableton>";

fn doc(s: &str) -> Document {
    read_document(s.as_bytes()).unwrap()
}

fn segment(frames: u32, suffix: &str) -> AudioSegment {
    AudioSegment {
        frames,
        suffix: suffix.to_string(),
        wav: String::from("01_x.wav"),
        file: SampleFile { path: String::from("/p/01_x.wav"), size: 5, now: 6 },
    }
}

fn value(d: &Document, at: usize, path: &str) -> String {
    d.attribute(find(d, at, path).unwrap(), "Value").unwrap()
}

#[test]
fn clips_follow_each_other() {
    let mut ids = IdCounter { next: 100 };
    let pace = Pace { beats: 2, samples: 44_100 };
    let t = build_audio_track(
        &doc(AUDIO),
        &mut ids,
        "AY-A",
        3,
        &vec![segment(44_100, "intro"), segment(22_050, "loop")],
        &pace,
    )
    .unwrap();
    assert_eq!(t.attribute(0, "Id"), Some("100".to_string()));
    assert_eq!(value(&t, 0, "./DeviceChain/Mixer/Volume/Manual"), "0.501187");
    let clips = find_all_descendants(&t, 0, "AudioClip");
    assert_eq!(clips.len(), 2);
    assert_eq!(t.attribute(clips[1], "Time"), Some("2".to_string()));
    assert_eq!(value(&t, clips[0], "./CurrentEnd"), "2");
    assert_eq!(value(&t, clips[1], "./CurrentEnd"), "3");
    assert_eq!(value(&t, clips[1], "./Loop/LoopEnd"), "0.5");
    assert_eq!(value(&t, clips[1], "./Loop/LoopStart"), "0");
    assert_eq!(value(&t, clips[0], "./Name"), "AY-A (intro)");
    assert_eq!(value(&t, clips[0], ".//FileRef/RelativePath"), "Samples/Imported/01_x.wav");
    assert_eq!(value(&t, clips[0], "./SampleRef/DefaultDuration"), "44100");
}

fn templates() -> VgmTemplates {
    VgmTemplates { audio: doc(AUDIO), group: doc(GROUP), wavetable: doc(GROUP), operator: doc(GROUP) }
}

fn parts(stems: Vec<StemTrack>) -> VgmParts {
    VgmParts {
        stems,
        wavetables: vec![],
        wavetable_files: vec![],
        opl: vec![],
        opl2: vec![],
        samples: 44_100,
        pace: Pace { beats: 2, samples: 44_100 },
    }
}

#[test]
fn a_rip_becomes_a_set() {
    let stem = |n: &str| StemTrack { name: n.to_string(), segments: vec![segment(44_100, "")] };
    let p = parts(vec![stem("AY-A"), stem("SCC-1")]);
    let set = build_vgm_set(&doc(ROOT), &templates(), &p).unwrap();
    let tracks_at = find(&set, 0, "./LiveSet/Tracks").unwrap();
    assert!(find_all_children(&set, tracks_at, "MidiTrack").is_empty());
    assert_eq!(find_all_children(&set, tracks_at, "ReturnTrack").len(), 1);
    let groups = find_all_children(&set, tracks_at, "GroupTrack");
    let tracks = find_all_children(&set, tracks_at, "AudioTrack");
    assert_eq!((groups.len(), tracks.len()), (1, 2));
    assert!(groups[0] < tracks[0]);
    assert_eq!(value(&set, groups[0], "./Name/UserName"), "WAV");
    assert_eq!(value(&set, tracks[1], "./TrackGroupId"), set.attribute(groups[0], "Id").unwrap());
    assert_eq!(value(&set, tracks[1], "./Color"), "2");
    assert_eq!(value(&set, 0, ".//Tempo/Manual"), "120");
    assert!(export_als(&doc(ROOT), &templates(), &p).is_ok());
    // Without stems there are no groups.
    let bare = build_vgm_set(&doc(ROOT), &templates(), &parts(vec![])).unwrap();
    assert!(find(&bare, 0, ".//GroupTrack").is_none());
}

#[test]
fn tracks_of_a_rip_share_no_identity() {
    let stem = |n: &str| StemTrack { name: n.to_string(), segments: vec![segment(44_100, "")] };
    let p = parts(vec![stem("AY-A"), stem("AY-B"), stem("SCC-1")]);
    let root = doc("<Ableton><LiveSet><Tracks><ReturnTrack Id=\"2000\"/></Tracks></LiveSet></Ableton>");
    let set = build_vgm_set(&root, &templates(), &p).unwrap();
    let mut seen: Vec<u64> = Vec::new();
    for i in 0..set.nodes.len() {
        if let Some(id) = set.attribute(i, "Id") {
            let n: u64 = id.parse().unwrap();
            if n >= 1000 {
                assert!(!seen.contains(&n));
                seen.push(n);
            }
        }
    }
    // The return track, the group and three tracks at least.
    assert!(seen.len() >= 5);
    assert!(seen.contains(&2000));
}

#[test]
fn templates_show_a_tempo() {
    assert_eq!(template_tempo(&doc(ROOT)), Ok(Some("99".to_string())));
    assert_eq!(
        template_tempo(&doc("<A/>")),
        Err("template .als has no LiveSet element".to_string())
    );
    assert_eq!(
        template_tempo(&doc("<A><LiveSet/></A>")),
        Err("template .als has no Tempo element".to_string())
    );
    assert_eq!(
        template_tempo(&doc("<A><LiveSet><Tempo><Manual/></Tempo></LiveSet></A>")),
        Ok(None)
    );
}

#[test]
fn chips_keep_in_step() {
    let mut c = RateClock::new(223_721, 44_100);
    assert!(c.converts());
    let mut made: u64 = 0;
    for k in 1..=1000u64 {
        made += c.advance();
        assert_eq!(made, (k * 223_721 + 44_099) / 44_100);
    }
    let mut same = RateClock::new(44_100, 44_100);
    assert!(!same.converts());
    assert_eq!(same.advance(), 1);
}

#[test]
fn masks_leave_one_channel() {
    assert_eq!(Opll::mask_ch(2), 4);
    assert_eq!(Opll::solo_ch_mask(2), ALL_FM_CHANNELS - 4);
    for voice in [MASK_BD, MASK_SD, MASK_TOM, MASK_CYM, MASK_HH] {
        assert_eq!(Opll::solo_rhythm_mask(voice), ALL_FM_CHANNELS - voice);
    }
    let mut a = Ay8910::new(44_100, 44_100);
    a.solo(1);
    assert_eq!(a.mask, 5);
    assert_eq!(a.advance(), Some(1));
    a.mute_all();
    assert_eq!(a.mask, ALL_AY_CHANNELS);
    assert_eq!(a.advance(), None);
    a.unmute_all();
    assert_eq!(a.mask, 0);
    let mut s = Scc::new(1, 1);
    s.solo(0);
    assert_eq!(s.mask, 0x1e);
    assert_eq!(Scc::write(3, 7, 9), ((6, 7), (7, 9)));
}

/// A tag block with these texts.
fn tags(texts: &[&str]) -> Vec<u8> {
    let mut d = b"Gd3 \x00\x01\x00\x00\x00\x00\x00\x00".to_vec();
    for t in texts {
        for u in t.encode_utf16() {
            d.extend_from_slice(&u.to_le_bytes());
        }
        d.extend_from_slice(&[0, 0]);
    }
    d
}

#[test]
fn tags_are_read() {
    let mut d = vgm_bytes(&[], 0, None);
    let at = d.len() as u32;
    d[0x14..0x18].copy_from_slice(&(at - 0x14).to_le_bytes());
    d.extend_from_slice(&tags(&["Tïtle", "", "Gradius 🎵", "", "MSX", "", "", "", "", "", ""]));
    let v = parse(&d).unwrap();
    assert_eq!(v.title, Some("Tïtle".to_string()));
    assert_eq!(v.game, Some("Gradius 🎵".to_string()));
    assert_eq!(v.system, Some("MSX".to_string()));
    assert_eq!(v.author, None);
    // Half of a pair is replaced.
    let n = d.len();
    d.truncate(at as usize);
    d.extend_from_slice(&tags(&[]));
    d.extend_from_slice(&[0x00, 0xd8, 0, 0]);
    assert!(d.len() < n);
    assert_eq!(parse(&d).unwrap().title, Some("\u{fffd}".to_string()));
}

#[test]
fn repeats_are_found() {
    // A wait of a 60th of a second, then the repeated part: another.
    let loop_at = 0x101 - 0x1c;
    let v = parse(&vgm_bytes(&[0x62, 0x62], 1470, Some((loop_at, 735)))).unwrap();
    assert_eq!(v.loop_start_sample, Some(735));
    assert_eq!(v.loop_samples, 735);
    let none = parse(&vgm_bytes(&[0x62, 0x62], 1470, None)).unwrap();
    assert_eq!(none.loop_start_sample, None);
}

#[test]
fn unknown_commands_are_refused() {
    let unknown = parse(&vgm_bytes(&[0x62, 0x40], 0, None)).unwrap_err();
    assert_eq!(
        unknown,
        "unrecognized/unverified VGM command byte 0x40 at offset 0x0101 — refusing to guess its length rather than risk desyncing the rest of the file"
    );
    // Behind the end of the sound data anything may stand.
    assert!(parse(&vgm_bytes(&[0x66, 0x40], 0, None)).is_ok());
}

#[test]
fn cut_off_commands_are_refused() {
    for command in [[0x51u8, 1], [0xa0, 1], [0x5a, 1], [0x61, 1], [0xd2, 1]] {
        let mut d = vgm_bytes(&command, 0, None);
        d.pop();
        assert_eq!(parse(&d).unwrap_err(), "VGM stream truncated mid-command");
    }
    // Of a command that is skipped nothing is read.
    let mut d = vgm_bytes(&[0xb6, 1], 0, None);
    d.pop();
    assert_eq!(parse(&d).unwrap().unsupported_commands.get(&0xb6), Some(&1));
}

#[test]
fn data_blocks_are_skipped_and_counted() {
    // A block of four bytes that look like commands, then a wait.
    let block = [0x67, 0x66, 0x80, 4, 0, 0, 0, 0x66, 0x40, 0x40, 0x40, 0x62];
    let v = parse(&vgm_bytes(&block, 735, None)).unwrap();
    assert_eq!(v.unsupported_commands.get(&0x67), Some(&1));
    // What stands behind the block is read in step: here an unknown command.
    let mut behind = block.to_vec();
    behind[11] = 0x40;
    let e = parse(&vgm_bytes(&behind, 0, None)).unwrap_err();
    assert!(e.contains("byte 0x40 at offset 0x010b"), "{}", e);
    let lines = summary_lines(&v, "0.0", "", "");
    assert_eq!(lines[lines.len() - 1], "  unknown chip: 1 register write(s)");
    // An empty one, and one that is longer than the file.
    let v = parse(&vgm_bytes(&[0x67, 0x66, 0, 0, 0, 0, 0, 0x62], 0, None)).unwrap();
    assert_eq!(v.unsupported_commands.get(&0x67), Some(&1));
    let v = parse(&vgm_bytes(&[0x67, 0x66, 0, 0xff, 0xff, 0xff, 0xff, 0x40], 0, None)).unwrap();
    assert_eq!(v.unsupported_commands.get(&0x67), Some(&1));
    // Its header is needed.
    let mut cut = vgm_bytes(&[0x67, 0x66, 0, 1, 0, 0], 0, None);
    cut.pop();
    assert_eq!(parse(&cut).unwrap_err(), "VGM stream truncated mid-command");
}

#[test]
fn loop_points_cut_stems() {
    let two = vec![(0, 30, "intro".to_string()), (30, 100, "loop".to_string())];
    assert_eq!(stem_segments(Some(30), 100), two);
    assert_eq!(stem_segments(None, 100), vec![(0, 100, String::new())]);
    let file = |size: u64| SampleFile { path: String::from("p"), size, now: 0 };
    let cut = stem_track(1, "AY-B", loop_split(Some(30), 100), 100, vec![file(1), file(2)]);
    assert_eq!(cut.name, "AY-B");
    assert_eq!(cut.segments.len(), 2);
    assert_eq!((cut.segments[0].frames, cut.segments[0].suffix.as_str()), (30, "intro"));
    assert_eq!((cut.segments[1].frames, cut.segments[1].suffix.as_str()), (70, "loop"));
    assert_eq!(cut.segments[0].wav, "02_AY-B_intro.wav");
    assert_eq!(cut.segments[1].wav, "02_AY-B_loop.wav");
    assert_eq!(cut.segments[1].file.size, 2);
    let whole = stem_track(0, "x", loop_split(Some(0), 100), 100, vec![file(1)]);
    assert_eq!(whole.segments.len(), 1);
    assert_eq!((whole.segments[0].frames, whole.segments[0].suffix.as_str()), (100, ""));
    assert_eq!(whole.segments[0].wav, "01_x.wav");
}

#[test]
fn later_sounds_change_nothing() {
    let mut v = parsed();
    v.total_samples = 30_000;
    let writes = vec![
        opl(0, 0x20, 0x21),
        opl(0, 0x43, 0x10),
        opl(0, 0xc0, 0x0e),
        opl(0, 0xa0, 0x41),
        opl(0, 0xb0, 0x32),
        opl(5_000, 0x20, 0x05),
        opl(5_000, 0x63, 0x12),
        opl(5_000, 0xc0, 0x02),
        opl(10_000, 0xb0, 0x12),
        opl(12_000, 0xb0, 0x32),
    ];
    let tones: Vec<i64> = (0..vgm_operator::OPL_TONES as i64).map(|i| i * 10_000).collect();
    let pace = Pace { beats: 1, samples: 10_000 };
    v.writes = writes.clone();
    let a = vgm_operator::extract_channels(&v, Chip::Ym3812, &tones, &pace);
    v.writes = writes;
    for w in v.writes.iter_mut().filter(|w| w.at_sample == 5_000) {
        w.value = 0xff;
    }
    let b = vgm_operator::extract_channels(&v, Chip::Ym3812, &tones, &pace);
    assert_eq!(a[0].notes.len(), 2);
    // A chip without a clock has no tracks.
    v.ym3812_clock = 0;
    v.ym3526_clock = 3_579_545;
    assert!(vgm_operator::present_channels(&v, Chip::Ym3812, &tones, &pace).is_empty());
    assert_eq!(vgm_operator::present_channels(&v, Chip::Ym3526, &tones, &pace).len(), 9);
    v.ym3812_clock = 3_579_545;
    let c = vgm_operator::present_channels(&v, Chip::Ym3812, &tones, &pace);
    assert_eq!(format!("{:?}", b), format!("{:?}", c));
    assert_eq!(a[0].patch, b[0].patch);
    assert_eq!(a[0].patch.unwrap().modulator.multiple, 1);
    assert_eq!(format!("{:?}", a), format!("{:?}", b));
}

#[test]
fn bends_stay_within_the_note() {
    let mut v = parsed();
    v.total_samples = 400_000;
    v.writes = vec![scc(0, 2, 0, 15), scc(0, 3, 0, 1)];
    for k in 0..200u64 {
        v.writes.push(scc(1000 * (k + 1), 1, 0, (k * 37 % 256) as u8));
        v.writes.push(scc(1000 * (k + 1), 2, 0, (k % 16) as u8));
    }
    let t = extract_channel(&v, 0, &tones(), &Pace { beats: 1, samples: 22_050 });
    assert!(t.pitch_bends.len() > 10);
    assert!(t.pitch_bends.iter().all(|b| b.value.abs() <= 500_000));
    assert!(t.gains.iter().all(|g| (0..=1_000_000).contains(&g.value)));
}

#[test]
fn stem_names_differ() {
    let mut v = parsed();
    v.ym2612_clock = 1;
    v.ym2151_clock = 1;
    v.ym2203_clock = 1;
    v.ym2608_clock = 1;
    v.ym2610_clock = 1;
    v.segapcm_clock = 1;
    v.rf5c68_clock = 1;
    v.rf5c164_clock = 1;
    v.gb_dmg_clock = 1;
    v.nes_apu_clock = 1;
    let names: Vec<String> = plan_stems(&v).into_iter().map(|p| p.name).collect();
    let mut sorted = names.clone();
    sorted.sort();
    sorted.dedup();
    assert_eq!(sorted.len(), names.len());
    assert!(names.len() > 100);
}

#[test]
fn paces_hold_their_tempo() {
    assert_eq!(
        Pace::of_bpm_micros(125_000_000),
        Pace { beats: 125_000_000, samples: 2_646_000_000_000 }
    );
}
