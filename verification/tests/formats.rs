use ablemod::formats::base::{Cell, Module, Pattern, Sample};
use ablemod::formats::detect::{detect_format, is_loadable, load_module};
use ablemod::formats::fasttracker2;
use ablemod::formats::playback::iter_song_rows;
use ablemod::formats::protracker;

/// A module of four channels: one looped sample, one pattern, played twice.
fn small_mod() -> Vec<u8> {
    let mut d = vec![0u8; 1084];
    d[..4].copy_from_slice(b"song");
    // Sample 1: 4 words, volume 48, loops over its words 1 to 3.
    d[20..25].copy_from_slice(b"snare");
    d[42] = 0;
    d[43] = 4;
    d[44] = 0x0f;
    d[45] = 48;
    d[46] = 0;
    d[47] = 1;
    d[48] = 0;
    d[49] = 3;
    d[950] = 2;
    d[951] = 0;
    d[952] = 0;
    d[953] = 0;
    d[1080..1084].copy_from_slice(b"M.K.");
    let mut pattern = vec![0u8; 1024];
    // Row 0, channel 0: sample 1, period 428, set volume to 32.
    pattern[0] = 0x01;
    pattern[1] = 0xac;
    pattern[2] = 0x1c;
    pattern[3] = 32;
    // Row 1, channel 1: pattern break.
    pattern[16 + 4 + 2] = 0x0d;
    d.extend_from_slice(&pattern);
    d.extend_from_slice(&[1, 2, 3, 4, 0xff, 0xfe, 5, 6]);
    d
}

fn rates() -> Vec<u32> {
    (0..fasttracker2::TUNINGS)
        .map(|t| (8363.0 * 2f64.powf((t as f64 - 16512.0) / 1536.0)).round() as u32)
        .collect()
}

fn cell(effect: u32, param: u32) -> Cell {
    Cell {
        sample_index: None,
        midi_note: None,
        volume: None,
        effect: Some(effect),
        effect_param: Some(param),
        note_off: false,
    }
}

fn empty_cell() -> Cell {
    Cell {
        sample_index: None,
        midi_note: None,
        volume: None,
        effect: None,
        effect_param: None,
        note_off: false,
    }
}

fn module_of(rows: Vec<Vec<Cell>>, order: Vec<u32>) -> Module {
    Module {
        title: String::from("t"),
        source_format: String::from("protracker"),
        num_channels: rows[0].len(),
        samples: Vec::<Sample>::new(),
        patterns: vec![Pattern { rows }],
        order,
        restart_position: 0,
        initial_tempo_bpm: 125,
        initial_speed_ticks: 6,
        linear_frequency_table: false,
    }
}

#[test]
fn extensions_name_formats() {
    assert_eq!(detect_format(Some("mod")), Ok("protracker"));
    assert_eq!(detect_format(Some("MOD")), Ok("protracker"));
    assert_eq!(detect_format(Some("Xm")), Ok("fasttracker2"));
}

#[test]
fn unknown_extensions_are_refused() {
    assert_eq!(
        detect_format(Some("WAV")),
        Err("Unrecognized module extension: '.wav' (expected .mod, .xm or .s3m)".to_string())
    );
    assert_eq!(
        detect_format(None),
        Err("Unrecognized module extension: '.' (expected .mod, .xm or .s3m)".to_string())
    );
    let s3m = detect_format(Some("s3m")).unwrap_err();
    assert!(s3m.contains("(.s3m) is not implemented yet"), "{}", s3m);
}

#[test]
fn protracker_modules_are_read() {
    let data = small_mod();
    assert!(protracker::is_complete(&data));
    let m = protracker::parse(&data);
    assert_eq!(m.title, "song");
    assert_eq!(m.source_format, "protracker");
    assert_eq!(m.num_channels, 4);
    assert_eq!(m.order, vec![0, 0]);
    assert_eq!(m.initial_tempo_bpm, 125);
    assert_eq!(m.initial_speed_ticks, 6);
    let s = &m.samples[0];
    assert_eq!(s.index, 1);
    assert_eq!(s.name, "snare");
    assert_eq!(s.volume, 48);
    assert_eq!(s.finetune, -1);
    assert_eq!(s.loop_start, 2);
    assert_eq!(s.loop_length, 6);
    assert_eq!(s.base_note, 60);
    // Bytes become words with the byte on top.
    assert_eq!(s.pcm16, vec![0, 1, 0, 2, 0, 3, 0, 4, 0, 0xff, 0, 0xfe, 0, 5, 0, 6]);
    let c = m.patterns[0].rows[0][0];
    assert_eq!(c.sample_index, Some(1));
    assert_eq!(c.midi_note, Some(60));
    assert_eq!(c.volume, Some(32));
    assert_eq!(m.patterns[0].num_rows(), 64);
}

#[test]
fn truncated_modules_are_not_complete() {
    let data = small_mod();
    assert!(!protracker::is_complete(&data[..1000]));
    assert!(!protracker::is_complete(&[]));
    assert!(!fasttracker2::is_complete(&data[..60]));
    assert!(!fasttracker2::is_complete(&[]));
    assert!(!is_loadable("fasttracker2", &data[..60]));
    assert!(!is_loadable("screamtracker3", &data));
}

#[test]
fn modules_are_loaded_by_format() {
    let data = small_mod();
    assert!(is_loadable("protracker", &data));
    let m = load_module("protracker", &data, &rates());
    assert_eq!(m.title, "song");
}

#[test]
fn pattern_breaks_are_followed() {
    let m = protracker::parse(&small_mod());
    let rows = iter_song_rows(&m);
    // Each pattern ends behind its second row.
    let seen: Vec<(usize, usize)> = rows.iter().map(|r| (r.order_pos, r.row_index)).collect();
    assert_eq!(seen, vec![(0, 0), (0, 1), (1, 0), (1, 1)]);
}

#[test]
fn effects_are_counted() {
    let m = module_of(
        vec![vec![cell(0xA, 1), cell(0xE, 0x93)], vec![cell(0xA, 2), empty_cell()]],
        vec![0],
    );
    assert!(m.counts_fit());
    let counts = m.effect_counts();
    assert_eq!(counts.get(&0xA), Some(&2));
    assert_eq!(counts.get(&0xE), Some(&1));
    assert_eq!(m.effects_used(), vec![0xA, 0xE]);
    let done = protracker::implemented_effect_counts(&m);
    assert_eq!(done.get(&0xA), Some(&2));
    assert_eq!(done.get(&0xE9), Some(&1));
    assert!(protracker::unimplemented_effect_counts(&m).is_empty());
}

#[test]
fn effects_have_names() {
    assert_eq!(protracker::effect_name(0xA), "Volume Slide");
    assert_ne!(protracker::effect_name(0x1), fasttracker2::effect_name(0x14));
}

/// A FastTracker 2 module with one pattern of one row and one instrument.
fn small_xm() -> Vec<u8> {
    let mut d: Vec<u8> = Vec::new();
    d.extend_from_slice(b"Extended Module: ");
    let mut name = [b' '; 20];
    name[..4].copy_from_slice(b"tune");
    d.extend_from_slice(&name);
    d.push(0x1a);
    d.extend_from_slice(&[b' '; 20]);
    d.extend_from_slice(&[0x04, 0x01]);
    // The header: its size, song length, restart, channels, patterns, instruments, flags.
    d.extend_from_slice(&276u32.to_le_bytes());
    for v in [1u16, 0, 2, 1, 1, 1, 6, 125] {
        d.extend_from_slice(&v.to_le_bytes());
    }
    d.extend_from_slice(&[0u8; 256]);
    // One pattern: one row of two channels, the first cell packed.
    d.extend_from_slice(&9u32.to_le_bytes());
    d.push(0);
    d.extend_from_slice(&1u16.to_le_bytes());
    let packed = [0x80 | 0x01 | 0x02, 49u8, 1, 0x80];
    d.extend_from_slice(&(packed.len() as u16).to_le_bytes());
    d.extend_from_slice(&packed);
    // One instrument with one sample.
    let mut inst = vec![0u8; 263];
    inst[..4].copy_from_slice(&263u32.to_le_bytes());
    inst[4..8].copy_from_slice(b"bass");
    inst[27] = 1;
    inst[29..33].copy_from_slice(&40u32.to_le_bytes());
    d.extend_from_slice(&inst);
    let mut sample = vec![0u8; 40];
    sample[..4].copy_from_slice(&4u32.to_le_bytes());
    sample[12] = 64;
    sample[15] = 128;
    d.extend_from_slice(&sample);
    // Deltas: 1, 3, 6, 10.
    d.extend_from_slice(&[1, 2, 3, 4]);
    d
}

#[test]
fn fasttracker_modules_are_read() {
    let data = small_xm();
    assert!(fasttracker2::is_complete(&data));
    let m = fasttracker2::parse(&data, &rates());
    assert_eq!(m.title, "tune");
    assert_eq!(m.source_format, "fasttracker2");
    assert_eq!(m.num_channels, 2);
    assert!(m.linear_frequency_table);
    assert_eq!(m.patterns[0].rows.len(), 1);
    let c = m.patterns[0].rows[0][0];
    assert_eq!(c.midi_note, Some(60));
    let s = &m.samples[0];
    assert_eq!(s.pcm16, vec![0, 1, 0, 3, 0, 6, 0, 10]);
    assert_eq!(s.volume, 64);
    assert_eq!(s.sample_rate_hz, 8363);
}

#[test]
fn bad_text_is_replaced() {
    let mut data = small_mod();
    data[0..4].copy_from_slice(&[b'a', 0xff, b'b', b' ']);
    data[20..25].copy_from_slice(&[b' ', b'x', 0xc3, 0xa9, 0]);
    let m = protracker::parse(&data);
    assert_eq!(m.title, "a\u{fffd}b ");
    assert_eq!(m.samples[0].name, " x\u{e9}");
}

#[test]
fn the_effect_column_wins() {
    // The packed cell: note, instrument, volume column 0x65, effect 0xA, parameter 3.
    let with = |packed: &[u8]| {
        let mut d = small_xm();
        let at = 60 + 276 + 7;
        let old = u16::from_le_bytes([d[at], d[at + 1]]) as usize;
        d.splice(at..at + 2 + old, (packed.len() as u16).to_le_bytes().into_iter().chain(packed.iter().copied()));
        fasttracker2::parse(&d, &rates()).patterns[0].rows[0][0]
    };
    let both = with(&[0x9f, 49, 1, 0x65, 0xa, 3, 0x80]);
    assert_eq!((both.volume, both.effect, both.effect_param), (None, Some(0xA), Some(3)));
    let column = with(&[0x87, 49, 1, 0x65, 0x80]);
    assert_eq!((column.volume, column.effect, column.effect_param), (None, Some(0xA), Some(5)));
    let volume = with(&[0x87, 49, 1, 0x50, 0x80]);
    assert_eq!((volume.volume, volume.effect, volume.effect_param), (Some(64), None, None));
}

#[test]
fn finetunes_set_the_rate() {
    for finetune in -8i32..8 {
        let mut data = small_mod();
        data[44] = (finetune & 0x0f) as u8;
        let s = &protracker::parse(&data).samples[0];
        assert_eq!(s.finetune, finetune);
        let rate = (8363.0 * 2f64.powf(finetune as f64 / 96.0)).round() as u32;
        assert_eq!(s.sample_rate_hz, rate);
    }
}

#[test]
fn periods_are_nearest_notes() {
    let note = |period: u16| {
        let mut data = small_mod();
        data[1084] = (period >> 8) as u8;
        data[1085] = period as u8;
        protracker::parse(&data).patterns[0].rows[0][0].midi_note
    };
    assert_eq!(note(428), Some(60));
    assert_eq!(note(856), Some(48));
    assert_eq!(note(214), Some(72));
    assert_eq!(note(430), Some(60));
    assert_eq!(note(404), Some(61));
    assert_eq!(note(1), Some(83));
    assert_eq!(note(0), None);
}

#[test]
fn volumes_go_up_to_64() {
    let mut data = small_mod();
    data[1084 + 3] = 0xff;
    let c = protracker::parse(&data).patterns[0].rows[0][0];
    assert_eq!(c.volume, Some(64));
    assert_eq!(c.effect, Some(0xc));
    assert_eq!(c.effect_param, Some(0xff));
    data[1084 + 3] = 64;
    assert_eq!(protracker::parse(&data).patterns[0].rows[0][0].volume, Some(64));
    data[1084 + 3] = 0;
    assert_eq!(protracker::parse(&data).patterns[0].rows[0][0].volume, Some(0));
}

/// The small module with another packed pattern.
fn xm_with(packed: &[u8]) -> Vec<u8> {
    let d = small_xm();
    let at = 60 + 276 + 7;
    assert_eq!(&d[at..at + 2], &[4, 0]);
    let mut out = d[..at].to_vec();
    out.extend_from_slice(&(packed.len() as u16).to_le_bytes());
    out.extend_from_slice(packed);
    out.extend_from_slice(&d[at + 6..]);
    out
}

#[test]
fn a_cell_starts_a_note_or_ends_one() {
    // A note with its instrument and Key Off beside it, then Key Off alone.
    let data = xm_with(&[0x80 | 0x01 | 0x02 | 0x08, 49, 1, 0x14, 0x80 | 0x08, 0x14]);
    let row = fasttracker2::parse(&data, &rates()).patterns[0].rows[0].clone();
    assert_eq!(row[0].midi_note, Some(60));
    assert!(!row[0].note_off);
    assert_eq!(row[0].effect, Some(0x14));
    assert_eq!(row[1].midi_note, None);
    assert!(row[1].note_off);
    // The note Key Off.
    let data = xm_with(&[0x80 | 0x01, 97, 0x80]);
    let row = fasttracker2::parse(&data, &rates()).patterns[0].rows[0].clone();
    assert!(row[0].note_off && row[0].midi_note.is_none());
    assert!(!row[1].note_off);
}

#[test]
fn periods_are_nearest_to_notes() {
    let table = protracker::build_period_table();
    assert_eq!(table.len(), 36);
    assert_eq!(table[0], (856, 48));
    for &(p, n) in &table {
        assert_eq!(protracker::period_to_note(p, &table), n);
    }
    assert_eq!(protracker::period_to_note(428, &table), 60);
    // Of two that are as near, the lower note.
    assert_eq!(protracker::period_to_note(832, &table), 48);
    let mut last = 200;
    for p in 1..4096 {
        let n = protracker::period_to_note(p, &table);
        assert!(n <= last && (48..=83).contains(&n));
        last = n;
    }
    assert_eq!(protracker::period_to_note(i32::MAX, &table), 48);
    assert_eq!(protracker::period_to_note(i32::MIN, &table), 83);
    // Any table will do; the first of two that are as near is taken.
    assert_eq!(protracker::period_to_note(50, &vec![(40, 1), (60, 2)]), 1);
}

#[test]
fn reports_count_every_cell() {
    let rows = vec![
        vec![cell(0xa, 1), cell(0xe, 0x91), cell(0xe, 0x31), cell(0, 0)],
        vec![cell(0xa, 2), cell(0xe, 0x92), cell(0x19, 3), empty_cell()],
    ];
    let m = module_of(rows, vec![0]);
    let done = protracker::implemented_effect_counts(&m);
    let ignored = protracker::unimplemented_effect_counts(&m);
    assert_eq!(done.into_iter().collect::<Vec<(u32, u32)>>(), vec![(0xa, 2), (0xe9, 2)]);
    assert_eq!(ignored.into_iter().collect::<Vec<(u32, u32)>>(), vec![(0x19, 1), (0xe3, 1)]);
}

#[test]
fn titles_are_trimmed_of_all_white_space() {
    let mut data = small_xm();
    data[17..37].copy_from_slice("\u{2003}a b\u{a0}\t           ".as_bytes());
    assert_eq!(fasttracker2::parse(&data, &rates()).title, "a b");
}

#[test]
fn envelopes_take_what_they_need() {
    // Three points, and more bytes than twelve points have.
    let mut raw = vec![0u8; 60];
    raw[..12].copy_from_slice(&[0, 0, 64, 0, 10, 0, 32, 0, 20, 1, 0, 0]);
    let e = fasttracker2::parse_envelope(&raw, 3, 1, 0, 2, 7).unwrap();
    let points: Vec<(u32, u32)> = e.points.iter().map(|p| (p.tick, p.value)).collect();
    assert_eq!(points, vec![(0, 64), (10, 32), (276, 0)]);
    assert_eq!(e.sustain_point, Some(1));
    assert_eq!((e.loop_start_point, e.loop_end_point), (Some(0), Some(2)));
    // The same from just the bytes of the points.
    let short = fasttracker2::parse_envelope(&raw[..12], 3, 3, 0, 3, 7).unwrap();
    assert_eq!(short.points.len(), 3);
    assert_eq!(short.sustain_point, None);
    assert_eq!((short.loop_start_point, short.loop_end_point), (None, None));
    assert_eq!(fasttracker2::parse_envelope(&raw, 200, 0, 0, 0, 1).unwrap().points.len(), 12);
    assert!(fasttracker2::parse_envelope(&raw, 3, 1, 0, 2, 6).is_none());
    assert!(fasttracker2::parse_envelope(&raw, 0, 1, 0, 2, 7).is_none());
    assert!(fasttracker2::parse_envelope(&[], 3, 0, 0, 0, 0).is_none());
}

#[test]
fn instruments_carry_forward() {
    let cell = |instrument: u8| fasttracker2::RawCell {
        note: 49,
        instrument,
        volume: 0,
        effect: 0,
        effect_param: 0,
    };
    let patterns = vec![
        vec![vec![cell(0), cell(3)], vec![cell(5)], vec![]],
        vec![vec![cell(0), cell(0)], vec![cell(0), cell(1), cell(0)]],
    ];
    let r = fasttracker2::effective_instruments(&patterns, 3);
    assert_eq!(
        r,
        vec![
            vec![vec![None, Some(2)], vec![Some(4)], vec![]],
            vec![vec![Some(4), Some(2)], vec![Some(4), Some(0), None]],
        ]
    );
}
