use ablemod::cli::{is_vgm_path, run, Cli, Command, Input};
use ablemod::export::curves::AmigaPanning;
use ablemod::formats::base::{Cell, Module, Pattern, Sample};
use ablemod::gui::{is_supported_path, GuiState, StatusKind, Task, TaskResult};
use ablemod::preview::{
    cell_count, center_slot, frame_to_play, grid_dims, played_at, scope_column, scope_window,
    slot_for_track, video_frames,
};
use ablemod::report::{
    beats_text, conversion_line, effect_rows, effects_report, effects_tables, list_module,
    list_stems, list_tracks, module_summary, sample_detail,
};
use std::collections::BTreeMap;

fn commands() -> Vec<Command> {
    let s = String::from;
    vec![
        Command::List { input_path: s("a") },
        Command::ExtractSamples { input_path: s("a"), output_dir: s("o"), verbose: false },
        Command::ExtractMidi { input_path: s("a"), output_path: s("o"), verbose: false },
        Command::ExtractMixedTracks { input_path: s("a"), output_path: s("o"), verbose: false },
        Command::ExtractSeparatedTracksWav { input_path: s("a"), output_dir: s("o"), verbose: true },
        Command::ConvertAls {
            input_path: s("a"),
            template_path: None,
            output_path: s("o"),
            amiga_panning: AmigaPanning::Off,
            verbose: false,
        },
        Command::Preview { input_path: s("a"), record: None, no_loop: false },
    ]
}

#[test]
fn extensions_tell_rips() {
    assert!(is_vgm_path(Some("vgm")));
    assert!(is_vgm_path(Some("VGZ")));
    assert!(!is_vgm_path(Some("mod")));
    assert!(!is_vgm_path(None));
    assert!(is_supported_path(Some("S3M")));
    assert!(is_supported_path(Some("vgz")));
    assert!(!is_supported_path(Some("wav")));
}

#[test]
fn commands_apply_to_their_files() {
    let on_rips: Vec<bool> =
        commands().into_iter().map(|c| run(Cli { command: c }, Some("vgm"), true).is_ok()).collect();
    assert_eq!(on_rips, vec![true, false, false, true, true, true, true]);
    let on_modules: Vec<bool> =
        commands().into_iter().map(|c| run(Cli { command: c }, Some("mod"), true).is_ok()).collect();
    assert_eq!(on_modules, vec![true, true, true, false, false, true, false]);
    match run(Cli { command: commands().remove(0) }, Some("vgz"), true) {
        Ok((input, Command::List { input_path })) => {
            assert_eq!(input, Input::Vgm);
            assert_eq!(input_path, "a");
        }
        _ => panic!("not listed"),
    }
}

#[test]
fn refusals_say_why() {
    let refused = |i: usize, ext: &str, built: bool| {
        run(Cli { command: commands().remove(i) }, Some(ext), built).unwrap_err()
    };
    assert!(refused(1, "vgm", true).starts_with("extract-samples doesn't apply to VGM/VGZ files:"));
    assert!(refused(2, "vgm", true).starts_with("extract-midi doesn't apply to VGM/VGZ files:"));
    assert!(refused(3, "mod", true).starts_with("extract-mixed-tracks doesn't apply"));
    assert!(refused(4, "xm", true).starts_with("extract-separated-tracks-wav doesn't apply"));
    assert_eq!(
        refused(6, "mod", true),
        "preview doesn't apply to tracker modules yet: no audio-rendering engine exists for .mod/.xm/.s3m today (only VGM/VGZ's chip emulation renders real audio)."
    );
    assert!(refused(6, "vgm", false).starts_with("ablemod was built without the 'preview' feature"));
}

fn cell(effect: u32, param: u32) -> Cell {
    Cell {
        sample_index: None,
        midi_note: None,
        volume: None,
        effect: Some(effect),
        effect_param: Some(param),
        note_off: false,
    }
}

fn sample() -> Sample {
    Sample {
        index: 1,
        name: String::from("kick"),
        pcm16: vec![0; 20],
        sample_rate_hz: 8363,
        loop_start: 2,
        loop_length: 4,
        volume: 7,
        finetune: 0,
        base_note: 60,
        pan: 0,
        volume_envelope: None,
        panning_envelope: None,
        fadeout: 0,
    }
}

fn module() -> Module {
    Module {
        title: String::from("T"),
        source_format: String::from("protracker"),
        num_channels: 2,
        samples: vec![sample()],
        patterns: vec![Pattern {
            rows: vec![
                vec![cell(0xA, 1), cell(0xE, 0x91)],
                vec![cell(0xA, 2), cell(0xF, 6)],
            ],
        }],
        order: vec![0, 0, 0],
        restart_position: 0,
        initial_tempo_bpm: 125,
        initial_speed_ticks: 6,
        linear_frequency_table: false,
    }
}

#[test]
fn modules_are_summed_up() {
    assert_eq!(
        module_summary(&module()),
        "Verbose: protracker, 2 channel(s), 1 pattern(s), order length 3, initial 6 ticks/row @ 125 BPM"
    );
    assert_eq!(
        sample_detail(&sample()),
        "  Verbose: 10 frames, 8363Hz, volume=7, loop 2-6"
    );
}

#[test]
fn modules_are_listed() {
    let lines = list_module(&module(), &vec![0xA, 0xE, 0xF]);
    assert_eq!(lines[0], "Title:      T");
    assert_eq!(lines[4], "Order:      [0, 0, 0]");
    assert_eq!(lines[6], "Speed/BPM:  6 ticks/row, 125 BPM (initial)");
    assert_eq!(lines[7], "Effects:    A, E, F");
    assert_eq!(lines[9], "Samples:");
    assert_eq!(
        lines[10],
        format!("  {:2}. {:<22} {:6} frames  vol={:2}  rate={}Hz{}", 1, "kick", 10, 7, 8363, ", loop 2-6")
    );
    let mut plain = module();
    plain.samples[0].loop_length = 0;
    plain.samples[0].name = String::new();
    let lines = list_module(&plain, &vec![]);
    assert_eq!(lines[7], "Effects:    (none)");
    assert_eq!(
        lines[10],
        format!("  {:2}. {:<22} {:6} frames  vol={:2}  rate={}Hz", 1, "(unnamed)", 10, 7, 8363)
    );
}

#[test]
fn effects_are_reported() {
    let mut counts = BTreeMap::new();
    counts.insert(3u32, 5u32);
    counts.insert(1, 9);
    counts.insert(0xE9, 5);
    assert_eq!(effect_rows(&counts), vec![(1, 9), (3, 5), (0xE9, 5)]);
    let lines = effects_report(&module());
    assert_eq!(lines[0], "Verbose: effects correctly transcribed:");
    assert_eq!(lines[1], format!("  {:<5} {:<32} {} occurrence(s)", "Axx", "Volume Slide", 2));
    assert!(lines.iter().any(|l| l.starts_with("  E9x   ")));
    assert_eq!(lines.last().unwrap(), "Verbose: no unimplemented effects found.");
    let mut other = module();
    other.source_format = String::from("it");
    assert!(effects_report(&other).is_empty());
    assert_eq!(
        effects_tables(false, &vec![], &vec![]),
        vec![
            "Verbose: no implemented effects found in this module.".to_string(),
            "Verbose: no unimplemented effects found.".to_string()
        ]
    );
}

#[test]
fn beats_have_two_decimals() {
    for rows in 0..9usize {
        assert_eq!(beats_text(rows), format!("{:.2}", rows as f64 / 4.0));
    }
}

#[test]
fn grids_have_room() {
    assert_eq!(grid_dims(0), (1, 1));
    assert_eq!(grid_dims(1), (1, 1));
    assert_eq!(grid_dims(5), (3, 2));
    assert_eq!(grid_dims(16), (4, 4));
    for n in 1..200usize {
        let (c, r) = grid_dims(n);
        assert_eq!(c, (n as f64).sqrt().ceil() as u32);
        assert!((c * r) as usize >= n);
    }
    assert_eq!(grid_dims(0x1_0000), (256, 256));
    assert_eq!(grid_dims(0x1_0001), (257, 256));
    let (c, r) = grid_dims(u32::MAX as usize);
    assert_eq!((c, r), (0x1_0000, 0x1_0000));
    assert_eq!(center_slot(c, r), 0x8000_8000);
    assert_eq!(center_slot(u32::MAX, 1), 0x7fff_ffff);
}

#[test]
fn tracks_leave_the_center_out() {
    let (c, r) = grid_dims(6);
    let center = center_slot(c, r);
    assert_eq!(center, 4);
    let slots: Vec<usize> = (0..5).map(|t| slot_for_track(t, center)).collect();
    assert_eq!(slots, vec![0, 1, 2, 3, 5]);
    assert_eq!(cell_count(3), 3);
    assert_eq!(cell_count(40), 15);
}

#[test]
fn windows_trail_the_sound() {
    assert_eq!(scope_window(500, 10_000), (0, 500));
    assert_eq!(scope_window(5_000, 10_000), (3_976, 5_000));
    assert_eq!(scope_window(50_000, 10_000), (8_976, 10_000));
    assert_eq!(scope_column(0, 100, 1024), 0);
    assert_eq!(scope_column(1023, 100, 1024), 99);
    assert_eq!(frame_to_play(5, 10, false), Some(5));
    assert_eq!(frame_to_play(10, 10, true), Some(0));
    assert_eq!(frame_to_play(10, 10, false), None);
    assert_eq!(frame_to_play(0, 0, true), None);
    assert_eq!(video_frames(44_100, 44_100), 30);
    assert_eq!(video_frames(44_101, 44_100), 31);
    assert_eq!(video_frames(0, 44_100), 1);
    assert_eq!(played_at(15, 44_100), 22_050);
}

#[test]
fn the_window_runs_tasks() {
    let mut g = GuiState::default();
    g.load_file("/a.vgm");
    assert_eq!(g.file, Some("/a.vgm".to_string()));
    g.start(Task::ConvertAls);
    assert!(g.busy);
    assert_eq!(g.status, "Running Convert to ALS…");
    g.load_file("/b.vgm");
    assert_eq!(g.file, Some("/a.vgm".to_string()));
    g.finish(&TaskResult::Success { task: Task::ConvertAls, output: String::from(" wrote x\n") });
    assert_eq!(g.status, "Convert to ALS: done.\nwrote x");
    assert_eq!(g.kind, StatusKind::Success);
    g.finish(&TaskResult::Success { task: Task::Preview, output: String::new() });
    assert_eq!(g.status, "Preview: done.");
    g.start(Task::ExportVideo);
    assert_eq!(g.status, "Rendering video…");
    g.finish(&TaskResult::Failure { task: Task::ExportVideo, message: String::from("no ffmpeg ") });
    assert_eq!(g.status, "Export Video failed:\nno ffmpeg");
    assert_eq!(g.kind, StatusKind::Error);
    assert!(!g.busy);
}

#[test]
fn tasks_have_command_lines() {
    let args = |t: Task| t.command_line("f", "o").join(" ");
    assert_eq!(args(Task::ConvertAls), "convert-als f -o o");
    assert_eq!(args(Task::Preview), "preview f");
    assert_eq!(args(Task::ExportVideo), "preview f --record o");
    assert_eq!(args(Task::ExtractSeparatedTracks), "extract-separated-tracks-wav f -o o");
    assert!(Task::ExtractMidi.is_offered(false));
    assert!(!Task::ExtractMidi.is_offered(true));
    assert_eq!(Task::ExtractSamples.name(), "Extract samples");
}

#[test]
fn conversions_say_what_was_made() {
    assert_eq!(conversion_line(3, true, false), None);
    assert_eq!(
        conversion_line(3, true, true).unwrap(),
        "Verbose: 3 WAV track(s), each split into intro+loop clips at the file's declared loop point"
    );
    assert_eq!(
        conversion_line(12, false, true).unwrap(),
        "Verbose: 12 WAV track(s) (no declared loop point — one full-length clip each)"
    );
    let warning = "\nWarning: the project has no tracks. None of this file's music data is on a chip \
                   this converter emulates — run `ablemod list` on it to see which chip(s) actually \
                   carry the music.";
    assert_eq!(conversion_line(0, true, false).unwrap(), warning);
    assert_eq!(conversion_line(0, false, true).unwrap(), warning);
}

#[test]
fn written_stems_are_named() {
    let names = vec!["PSG A".to_string(), "FM 1".to_string()];
    assert_eq!(list_stems(&names, "out", false), vec!["wrote 2 track(s) to out"]);
    assert_eq!(
        list_stems(&names, "out", true),
        vec!["wrote 2 track(s) to out", "Verbose: PSG A, FM 1"]
    );
    assert_eq!(
        list_stems(&Vec::new(), "out", true),
        vec![
            "\nWarning: no tracks to write. None of this file's music data is on a chip this \
             converter emulates — run `ablemod list` on it to see which chip(s) actually carry \
             the music."
        ]
    );
}

#[test]
fn preview_tracks_have_cells() {
    let names: Vec<String> = ["a", "b", "c", "d", "e"].iter().map(|s| s.to_string()).collect();
    assert_eq!(
        list_tracks(&names, 44_100, "1.5"),
        vec![
            "Loaded 5 channel(s) @ 44100Hz, 1.5s:",
            "  [0, 0] a",
            "  [0, 1] b",
            "  [0, 2] c",
            "  [1, 0] d",
            "  [1, 2] e",
        ]
    );
    let many: Vec<String> = (0..17).map(|i| i.to_string()).collect();
    let lines = list_tracks(&many, 44_100, "1.5");
    assert_eq!(lines.len(), 19);
    assert_eq!(lines[15], "  [3, 3] 14");
    assert_eq!(lines[16], "  (no cell, still playing) 15");
    assert_eq!(
        lines[18],
        "Note: only the first 15 channels get their own cell (one slot is always the info panel) — every channel still plays."
    );
}
