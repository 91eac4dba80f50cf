use ablemod::export::clock::{tempo_beat_micros, tempo_bpm_micros};
use ablemod::export::midi::write_midi;
use ablemod::export::midi_file::{MidiFile, Track};
use ablemod::export::notes::{check_module, compute_song_events, NoteEvent, SongEvents};
use ablemod::export::pitch::{linear_bends, pitch_bend_value, SINES};
use ablemod::export::simulate::{velocity, BendStep};
use ablemod::export::tempo::{Segment, Tempo, TempoChange};
use ablemod::export::time::{has_played_out, Moment, NaturalLength};
use ablemod::formats::base::{Cell, Envelope, EnvelopePoint, Module, Pattern, Sample};
use ablemod::formats::playback::iter_song_rows;

fn blank() -> Cell {
    Cell {
        sample_index: None,
        midi_note: None,
        volume: None,
        effect: None,
        effect_param: None,
        note_off: false,
    }
}

fn note(sample: u32, pitch: i32) -> Cell {
    Cell { sample_index: Some(sample), midi_note: Some(pitch), ..blank() }
}

fn effect(c: Cell, effect: u32, param: u32) -> Cell {
    Cell { effect: Some(effect), effect_param: Some(param), ..c }
}

/// A sample of 1,000 frames that loops.
fn looped(index: u32) -> Sample {
    Sample {
        index,
        name: String::from("s"),
        pcm16: vec![7; 2000],
        sample_rate_hz: 8363,
        loop_start: 0,
        loop_length: 1000,
        volume: 40,
        finetune: 0,
        base_note: 60,
        pan: 0,
        volume_envelope: None,
        panning_envelope: None,
        fadeout: 0,
    }
}

fn module(patterns: Vec<Vec<Vec<Cell>>>, order: Vec<u32>, samples: Vec<Sample>) -> Module {
    Module {
        title: String::from("song"),
        source_format: String::from("protracker"),
        num_channels: patterns[0][0].len(),
        samples,
        patterns: patterns.into_iter().map(|rows| Pattern { rows }).collect(),
        order,
        restart_position: 0,
        initial_tempo_bpm: 125,
        initial_speed_ticks: 6,
        linear_frequency_table: false,
    }
}

/// One channel that plays these cells with one looped sample.
fn played(cells: Vec<Cell>) -> SongEvents {
    let rows: Vec<Vec<Cell>> = cells.into_iter().map(|c| vec![c]).collect();
    let m = module(vec![rows], vec![0], vec![looped(1)]);
    assert!(check_module(&m));
    compute_song_events(&m)
}

fn only(song: &SongEvents) -> &NoteEvent {
    let notes = song.notes_of(1).unwrap();
    assert_eq!(notes.len(), 1);
    &notes[0]
}

fn at(row: usize, tick: u32) -> Moment {
    Moment { row, tick, speed: 6 }
}

#[test]
fn a_note_sounds_until_the_next() {
    let song = played(vec![note(1, 60), blank(), note(1, 64), blank()]);
    let notes = song.notes_of(1).unwrap();
    assert_eq!(song.total_rows, 4);
    assert_eq!(notes[0].note.start, at(0, 0));
    assert_eq!(notes[0].note.close, at(2, 0));
    assert_eq!(notes[0].next_start, Some(at(2, 0)));
    assert_eq!((notes[0].voice, notes[1].voice), (0, 0));
    assert_eq!((notes[1].note.close.row, notes[1].note.close.tick), (4, 0));
    assert_eq!(notes[1].next_start, None);
    assert_eq!(notes[0].note.velocity, velocity(None, 40));
    assert!(song.notes_of(2).is_none());
}

#[test]
fn volumes_become_velocities() {
    assert_eq!(velocity(None, 64), 127);
    assert_eq!(velocity(Some(32), 64), 64);
    assert_eq!(velocity(Some(0), 64), 1);
    assert_eq!(velocity(Some(200), 0), 127);
}

#[test]
fn volume_slides_go_tick_by_tick() {
    let song = played(vec![effect(note(1, 60), 0xA, 0x08), effect(blank(), 0xA, 0x00)]);
    let v = &only(&song).volumes;
    let seen: Vec<(Moment, i32, bool)> =
        v.iter().map(|c| (c.at, c.tracker_volume, c.glide)).collect();
    // Silence is reached in five ticks and not repeated.
    assert_eq!(
        seen,
        vec![
            (at(0, 1), 32, false),
            (at(0, 2), 24, true),
            (at(0, 3), 16, true),
            (at(0, 4), 8, true),
            (at(0, 5), 0, true),
        ]
    );
    let up = played(vec![note(1, 60), effect(blank(), 0xA, 0x10), effect(blank(), 0xA, 0)]);
    let last = only(&up).volumes.last().unwrap();
    assert_eq!((last.at, last.tracker_volume), (at(2, 5), 50));
    assert!(only(&up).volumes[5].glide);
}

#[test]
fn slides_bend_the_pitch() {
    let song = played(vec![note(1, 60), effect(blank(), 1, 3), effect(blank(), 2, 1)]);
    let b = &only(&song).bends;
    assert_eq!(b.len(), 10);
    assert_eq!(b[0].step, BendStep::Slide { delta: -3 });
    assert_eq!(b[0].at, at(1, 1));
    assert!(!b[0].glide && b[1].glide);
    assert_eq!(b[9].step, BendStep::Slide { delta: 1 });
    // The second effect continues the bend of the first.
    assert!(b[5].glide);
}

#[test]
fn tone_portamento_goes_to_its_target() {
    let song = played(vec![note(1, 60), effect(note(1, 67), 3, 5), effect(blank(), 5, 0x02)]);
    let n = only(&song);
    assert_eq!(n.bends.len(), 10);
    for b in &n.bends {
        assert_eq!(b.step, BendStep::Toward { note: 67, step: 20 });
    }
    assert_eq!(n.volumes.len(), 5);
    assert_eq!(n.volumes[4].tracker_volume, 30);
}

#[test]
fn vibrato_keeps_its_phase() {
    let song = played(vec![note(1, 60), effect(blank(), 4, 0x81), effect(blank(), 6, 0x01)]);
    let b = &only(&song).bends;
    assert_eq!(b.len(), 10);
    assert_eq!(b[0].step, BendStep::Vibrato { pos: 32, depth: 1 });
    assert_eq!(b[9].step, BendStep::Vibrato { pos: 64, depth: 1 });
    assert_eq!(only(&song).volumes[0].tracker_volume, 39);
}

#[test]
fn tremolo_leaves_the_volume() {
    let song = played(vec![
        note(1, 60),
        effect(blank(), 7, 0x42),
        effect(blank(), 0xA, 0x01),
    ]);
    let v = &only(&song).volumes;
    for tick in 1..6u32 {
        let phase = (16 * tick) as f64 / 256.0;
        let offset = (2.0 * std::f64::consts::PI * phase).sin() * 255.0 * 2.0 / 64.0;
        assert_eq!(v[tick as usize - 1].tracker_volume, (40.0 + offset).round() as i32);
    }
    assert_eq!(v[5].tracker_volume, 39);
}

#[test]
fn arpeggios_jump() {
    let song = played(vec![effect(note(1, 60), 0, 0x47)]);
    let steps: Vec<BendStep> = only(&song).bends.iter().map(|b| b.step).collect();
    let a = |n: u32| BendStep::Arpeggio { semitones: n };
    assert_eq!(steps, vec![a(7), a(4), a(0), a(7), a(4)]);
    assert!(only(&song).bends.iter().all(|b| !b.glide));
}

#[test]
fn extended_commands_are_played() {
    let retriggered = played(vec![effect(note(1, 60), 0xE, 0x92)]);
    let starts: Vec<Moment> =
        retriggered.notes_of(1).unwrap().iter().map(|n| n.note.start).collect();
    assert_eq!(starts, vec![at(0, 0), at(0, 2), at(0, 4)]);
    let cut = played(vec![effect(note(1, 60), 0xE, 0xC3)]);
    let v = only(&cut).volumes[0];
    assert_eq!((v.at, v.tracker_volume, v.glide), (at(0, 3), 0, false));
    let late = played(vec![effect(note(1, 60), 0xE, 0xD4)]);
    assert_eq!(only(&late).note.start, at(0, 4));
    let never = played(vec![effect(note(1, 60), 0xE, 0xD6)]);
    assert!(never.notes_of(1).unwrap().is_empty());
    let fine = played(vec![
        note(1, 60),
        effect(blank(), 0xE, 0xA3),
        effect(blank(), 0xE, 0xA0),
        effect(blank(), 0xE, 0xB1),
        effect(blank(), 0xE, 0x12),
    ]);
    let volumes: Vec<i32> = only(&fine).volumes.iter().map(|v| v.tracker_volume).collect();
    assert_eq!(volumes, vec![43, 46, 45]);
    assert_eq!(only(&fine).bends[0].step, BendStep::Slide { delta: -8 });
}

#[test]
fn set_volume_to_nothing_ends_a_note() {
    let song = played(vec![note(1, 60), effect(blank(), 0xC, 0), effect(blank(), 0xC, 9)]);
    assert_eq!(only(&song).note.close, at(1, 0));
    assert!(only(&song).volumes.is_empty());
    let loud = played(vec![note(1, 60), effect(blank(), 0xC, 99)]);
    assert_eq!(only(&loud).volumes[0].tracker_volume, 64);
}

#[test]
fn a_lone_sample_number_resets_the_volume() {
    let swap = Cell { sample_index: Some(1), ..blank() };
    let song = played(vec![effect(note(1, 60), 0xC, 10), swap]);
    assert_eq!(only(&song).volumes[0].tracker_volume, 40);
    assert_eq!(only(&song).volumes[0].at, at(1, 0));
}

#[test]
fn panning_is_noted() {
    let song = played(vec![effect(note(1, 60), 8, 0), effect(blank(), 8, 255)]);
    let p = &only(&song).pans;
    assert_eq!((p[0].at, p[0].param), (at(0, 0), 0));
    assert_eq!((p[1].at, p[1].param), (at(1, 0), 255));
}

#[test]
fn offsets_have_voices_of_their_own() {
    let song = played(vec![note(1, 60), effect(note(1, 60), 9, 2), effect(note(1, 60), 9, 0)]);
    let n = song.notes_of(1).unwrap();
    let frames: Vec<u32> = n.iter().map(|e| e.note.sample_offset_frames).collect();
    assert_eq!(frames, vec![0, 512, 512]);
    let voices: Vec<usize> = n.iter().map(|e| e.voice).collect();
    assert_eq!(voices, vec![0, 1, 1]);
    // The offset stays within the sample.
    let far = played(vec![effect(note(1, 60), 9, 255)]);
    assert_eq!(only(&far).note.sample_offset_frames, 999);
}

#[test]
fn envelopes_are_a_layer_of_their_own() {
    let mut s = looped(1);
    let p = |tick: u32, value: u32| EnvelopePoint { tick, value };
    s.volume_envelope = Some(Envelope {
        points: vec![p(0, 64), p(3, 32), p(9, 0)],
        sustain_point: Some(1),
        loop_start_point: None,
        loop_end_point: None,
    });
    let off = Cell { note_off: true, ..blank() };
    let m = module(
        vec![vec![vec![note(1, 60)], vec![blank()], vec![off], vec![off]]],
        vec![0],
        vec![s],
    );
    let song = compute_song_events(&m);
    let e = only(&song);
    assert_eq!(e.note.release, Some(at(2, 0)));
    let seen: Vec<(Moment, i64, u32, bool)> =
        e.envelope_volumes.iter().map(|l| (l.from, l.ticks, l.value, l.glide)).collect();
    assert_eq!(
        seen,
        vec![(at(0, 0), 0, 64, false), (at(0, 0), 3, 32, true), (at(2, 0), 6, 0, true)]
    );
    assert!(e.volumes.is_empty());
}

#[test]
fn envelopes_without_their_sustain_point_are_told() {
    let mut s = looped(1);
    s.volume_envelope = Some(Envelope {
        points: vec![EnvelopePoint { tick: 0, value: 1 }],
        sustain_point: Some(5),
        loop_start_point: None,
        loop_end_point: None,
    });
    assert!(!check_module(&module(vec![vec![vec![note(1, 60)]]], vec![0], vec![s])));
}

#[test]
fn overlapping_notes_get_voices() {
    let m = module(
        vec![vec![
            vec![note(1, 60), note(1, 64), blank()],
            vec![blank(), blank(), note(1, 67)],
            vec![effect(blank(), 0xC, 0), blank(), blank()],
            vec![note(1, 72), blank(), blank()],
        ]],
        vec![0],
        vec![looped(1)],
    );
    let song = compute_song_events(&m);
    let n = song.notes_of(1).unwrap();
    let seen: Vec<(i32, usize)> = n.iter().map(|e| (e.note.pitch, e.voice)).collect();
    // The fourth note reuses the voice that the first one has left.
    assert_eq!(seen, vec![(60, 0), (64, 1), (67, 2), (72, 0)]);
    assert_eq!(n[0].next_start, Some(at(3, 0)));
}

#[test]
fn tempo_changes_are_noted() {
    let song = played(vec![
        effect(note(1, 60), 0xF, 3),
        effect(blank(), 0xF, 32),
        effect(blank(), 0xF, 0),
        effect(blank(), 0xF, 31),
    ]);
    let change = |row: usize, tracker_bpm: u32, speed: u32| TempoChange {
        row,
        tempo: Tempo { tracker_bpm, speed },
    };
    assert_eq!(song.tempo_changes, vec![change(0, 125, 3), change(1, 32, 3), change(3, 32, 31)]);
    assert_eq!(tempo_bpm_micros(&Tempo { tracker_bpm: 125, speed: 3 }), Some(250_000_000));
    assert_eq!(tempo_beat_micros(&Tempo { tracker_bpm: 125, speed: 6 }), 480_000);
    assert_eq!(tempo_bpm_micros(&Tempo { tracker_bpm: 125, speed: 0 }), None);
}

#[test]
fn positions_become_segments() {
    let row = || vec![blank()];
    let jump = vec![effect(blank(), 0xD, 0x01)];
    let m = module(
        vec![vec![row(), jump, row()], vec![row(), row(), row()]],
        vec![0, 1],
        vec![looped(1)],
    );
    let song = compute_song_events(&m);
    assert_eq!(
        song.segments,
        vec![
            Segment { start_row: 0, end_row: 2, order_pos: 0, pattern_index: 0 },
            Segment { start_row: 2, end_row: 4, order_pos: 1, pattern_index: 1 },
        ]
    );
}

#[test]
fn jumps_back_end_the_song() {
    let m = module(
        vec![vec![vec![blank()], vec![effect(blank(), 0xB, 0)]]],
        vec![0, 0],
        vec![looped(1)],
    );
    let rows = iter_song_rows(&m);
    assert_eq!(rows.len(), 2);
}

#[test]
fn short_samples_play_out() {
    // 8,363 frames are a second: at 125 beats per minute, 25/12 beats.
    let len = NaturalLength { frames: 8363, rate_hz: 8363, tracker_bpm: 125 };
    assert!(!has_played_out(&at(0, 0), &len, &at(8, 1)));
    assert!(has_played_out(&at(0, 0), &len, &at(8, 2)));
    assert!(!has_played_out(
        &at(0, 0),
        &NaturalLength { frames: 0, rate_hz: 0, tracker_bpm: 125 },
        &at(9, 0)
    ));
}

#[test]
fn midi_tracks_are_written() {
    let mut t = Track::default();
    t.note_off(300, 0, 60, 0);
    t.note_on(100, 0, 60, 64);
    t.pitchwheel(100, 1, -8192);
    t.set_tempo(0, 500_000);
    t.control_change(300, 2, 11, 127);
    t.track_name("ab");
    let mut f = MidiFile::new(480);
    f.tracks.push(t);
    assert_eq!(
        f.to_bytes(),
        vec![
            0x4d, 0x54, 0x68, 0x64, 0, 0, 0, 6, 0, 1, 0, 1, 1, 0xe0, // header
            0x4d, 0x54, 0x72, 0x6b, 0, 0, 0, 34, // one track
            0, 0xff, 0x51, 3, 7, 0xa1, 0x20, // tempo
            0, 0xff, 3, 2, 0x61, 0x62, // name
            100, 0x90, 60, 64, // on
            0, 0xe1, 0, 0, // wheel
            0x81, 0x48, 0x80, 60, 0, // off, 200 ticks later
            0, 0xb2, 11, 127, // controller
            0, 0xff, 0x2f, 0, // end
        ]
    );
}

#[test]
fn songs_become_midi() {
    let m = module(vec![vec![vec![note(1, 60)], vec![blank()]]], vec![0], vec![looped(1)]);
    let song = compute_song_events(&m);
    let bytes = write_midi(&m, &song, &vec![vec![vec![]]]);
    assert_eq!(&bytes[..4], b"MThd");
    assert_eq!(&bytes[10..14], &[0, 2, 1, 0xe0]);
    let has = |needle: &[u8]| bytes.windows(needle.len()).any(|w| w == needle);
    assert!(has(b"song"));
    assert!(has(b"01 s"));
    // 480,000 microseconds per beat.
    assert!(has(&[0xff, 0x51, 3, 0x07, 0x53, 0x00]));
    // The pitch wheel spans 48 semitones.
    assert!(has(&[0, 0xb0, 101, 0, 0, 100, 0, 0, 6, 48, 0, 38, 0, 0, 101, 127, 0, 100, 127]));
    let key_on = [0x90u8, 60, 79];
    assert!(has(&key_on), "{:?}", bytes);
    // Half a beat later the note ends.
    assert!(has(&[0x81, 0x70, 0x80, 60, 0]), "{:?}", bytes);
}

#[test]
fn volumes_stay_in_range() {
    let mut cells = vec![effect(note(1, 60), 0xA, 0xF0)];
    for k in 0..20u32 {
        cells.push(effect(blank(), [0xA, 7, 0xE, 0xC][k as usize % 4], [0x0F, 0xFF, 0xAF, 70][k as usize % 4]));
    }
    let song = played(cells);
    assert!(only(&song).volumes.len() > 50);
    for v in &only(&song).volumes {
        assert!(0 <= v.tracker_volume && v.tracker_volume <= 64);
    }
}

#[test]
fn keys_are_pressed_with_the_wheel_at_rest() {
    let bent = effect(blank(), 1, 9);
    let m = module(
        vec![vec![vec![note(1, 60)], vec![bent], vec![note(1, 62)], vec![blank()]]],
        vec![0],
        vec![looped(1)],
    );
    let song = compute_song_events(&m);
    let wheels = vec![vec![vec![100i16; 5], vec![]]];
    let bytes = write_midi(&m, &song, &wheels);
    // The wheel at the end of the first note; then wheel, panning and expression, all without
    // delay, and the key.
    let start = [0xe0u8, 0, 64, 0, 0, 64, 0, 0xb0, 10, 64, 0, 11, 127, 0, 0x90, 62];
    assert!(bytes.windows(start.len()).any(|w| w == start), "{:?}", bytes);
}

fn sines() -> Vec<i64> {
    let turn = |i: usize| (2.0 * std::f64::consts::PI * i as f64 / SINES as f64).sin();
    (0..SINES).map(|i| (turn(i) * 1e9).round() as i64).collect()
}

#[test]
fn linear_slides_are_even() {
    // Three sixteenths of a semitone up on each of five ticks, whatever the note.
    for pitch in [24, 60, 96] {
        let song = played(vec![note(1, pitch), effect(blank(), 1, 3)]);
        let bends = linear_bends(only(&song), &sines());
        assert_eq!(bends, vec![187_500, 375_000, 562_500, 750_000, 937_500]);
    }
}

#[test]
fn linear_portamento_stops_at_its_note() {
    let song = played(vec![note(1, 60), effect(note(1, 67), 3, 10)]);
    let bends = linear_bends(only(&song), &sines());
    assert_eq!(bends, vec![2_500_000, 5_000_000, 7_000_000, 7_000_000, 7_000_000]);
    let song = played(vec![note(1, 60), effect(note(1, 59), 3, 10)]);
    assert_eq!(linear_bends(only(&song), &sines())[0], -1_000_000);
}

#[test]
fn linear_vibrato_swings_and_arpeggios_jump() {
    let song = played(vec![note(1, 60), effect(blank(), 4, 0x84)]);
    let bends = linear_bends(only(&song), &sines());
    for (k, b) in bends.iter().enumerate() {
        let phase = 32.0 * (k as f64 + 1.0) / 256.0;
        let offset = (2.0 * std::f64::consts::PI * phase).sin() * 255.0 * 4.0 / 128.0;
        assert_eq!(*b, (-offset / 16.0 * 1e6).round() as i64);
    }
    let song = played(vec![effect(note(1, 60), 0, 0x47)]);
    assert_eq!(
        linear_bends(only(&song), &sines()),
        vec![7_000_000, 4_000_000, 0, 7_000_000, 4_000_000]
    );
}

#[test]
fn periods_stay_in_their_range() {
    // 255 periods up on each tick: from 1152 the fifth reaches the least.
    let song = played(vec![note(1, 60), effect(blank(), 1, 255)]);
    let bends = linear_bends(only(&song), &sines());
    assert_eq!(bends[3], 62_500 * 1020);
    assert_eq!(bends[4], 62_500 * 1151);
}

#[test]
fn wheels_turn_both_ways() {
    assert_eq!(pitch_bend_value(0), 0);
    assert_eq!(pitch_bend_value(48_000_000), 8191);
    assert_eq!(pitch_bend_value(-48_000_000), -8192);
    assert_eq!(pitch_bend_value(99_000_000), 8191);
    assert_eq!(pitch_bend_value(-99_000_000), -8192);
    assert_eq!(pitch_bend_value(12_000_000), 2048);
    assert_eq!(pitch_bend_value(-12_000_000), -2048);
    for s in [-47.3f64, -1.0, -0.01, 0.02, 1.0, 30.5] {
        let scale = if s >= 0.0 { 8191.0 } else { 8192.0 };
        assert_eq!(pitch_bend_value((s * 1e6).round() as i64), (s / 48.0 * scale).round() as i16);
    }
}
