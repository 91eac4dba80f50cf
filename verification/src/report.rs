//! What the commands print.
use crate::export::als::{lemma_a_voice_at_least, voice_tracks};
use crate::export::notes::{event_views, NoteEventView, SongEvents};
use crate::export::sampler::highest_voice;
use crate::formats::base::{Module, ModuleView, Sample, SampleView};
use crate::formats::counts::{lookup, lookup_byte, sorted_keys};
use crate::formats::effects::is_report;
use crate::formats::fasttracker2;
use crate::formats::protracker;
use crate::formats::vgm::{
    chip_name, text_of, unsupported_chip_name, version_string, version_text, VgmFile, VgmFileView,
};
use crate::preview::{
    cell_count, cells_of, center_of, center_slot, grid_columns, grid_dims, grid_rows,
    slot_for_track, slot_of,
};
use crate::text::{
    count_text, decimal, hex_upper, padded_left, padded_right, push_decimal, push_hex_upper,
    push_left_padded, push_right_padded, same_text, string_views, zero_padded,
};
use std::collections::BTreeMap;
use vstd::prelude::*;

verus! {

fn push_line(lines: &mut Vec<String>, line: String)
    ensures
        string_views(final(lines)@) == string_views(old(lines)@).push(line@),
{
    let ghost before = lines@;
    lines.push(line);
    assert(string_views(lines@) =~= string_views(before).push(line@));
}

/// The module in one line.
pub open spec fn summary_of(m: ModuleView) -> Seq<char> {
    "Verbose: "@ + m.source_format + ", "@ + decimal(m.num_channels as int) + " channel(s), "@
        + decimal(m.patterns.len() as int) + " pattern(s), order length "@ + decimal(
        m.order.len() as int,
    ) + ", initial "@ + decimal(m.initial_speed_ticks as int) + " ticks/row @ "@ + decimal(
        m.initial_tempo_bpm as int,
    ) + " BPM"@
}

pub fn module_summary(module: &Module) -> (r: String)
    ensures
        r@ == summary_of(module@),
{
    let mut out: String = "Verbose: ".to_owned();
    out.append(module.source_format.as_str());
    out.append(", ");
    push_decimal(&mut out, module.num_channels as u64);
    out.append(" channel(s), ");
    push_decimal(&mut out, module.patterns.len() as u64);
    out.append(" pattern(s), order length ");
    push_decimal(&mut out, module.order.len() as u64);
    out.append(", initial ");
    push_decimal(&mut out, module.initial_speed_ticks as u64);
    out.append(" ticks/row @ ");
    push_decimal(&mut out, module.initial_tempo_bpm as u64);
    out.append(" BPM");
    out
}

/// A code and its count stand before another: the higher count first, then the lower code.
pub open spec fn stands_before(a: (u32, u32), b: (u32, u32)) -> bool {
    a.1 > b.1 || (a.1 == b.1 && a.0 < b.0)
}

/// The rows are what the counter holds, in their order. There is only one such list.
pub open spec fn is_table(rows: Seq<(u32, u32)>, counts: Map<u32, u32>) -> bool {
    &&& forall|i: int, j: int| 0 <= i < j < rows.len() ==> stands_before(rows[i], rows[j])
    &&& forall|i: int|
        0 <= i < rows.len() ==> counts.contains_key((#[trigger] rows[i]).0) && counts[rows[i].0]
            == rows[i].1
    &&& forall|code: u32| #[trigger]
        counts.contains_key(code) ==> rows.contains((code, counts[code]))
}

fn insert_row(rows: &mut Vec<(u32, u32)>, row: (u32, u32))
    requires
        forall|i: int, j: int|
            0 <= i < j < old(rows).len() ==> stands_before(old(rows)[i], old(rows)[j]),
        forall|i: int| 0 <= i < old(rows).len() ==> (#[trigger] old(rows)[i]).0 != row.0,
    ensures
        forall|i: int, j: int|
            0 <= i < j < final(rows).len() ==> stands_before(final(rows)[i], final(rows)[j]),
        forall|x: (u32, u32)| #[trigger]
            final(rows)@.contains(x) <==> old(rows)@.contains(x) || x == row,
{
    let ghost start = rows@;
    let mut k: usize = 0;
    while k < rows.len() && (rows[k].1 > row.1 || (rows[k].1 == row.1 && rows[k].0 < row.0))
        invariant
            k <= rows.len(),
            rows@ == start,
            forall|i: int| 0 <= i < k ==> stands_before(#[trigger] start[i], row),
        decreases rows.len() - k,
    {
        k += 1;
    }
    rows.insert(k, row);
    proof {
        let out = rows@;
        assert(out =~= start.insert(k as int, row));
        assert forall|i: int, j: int| 0 <= i < j < out.len() implies stands_before(
            out[i],
            out[j],
        ) by {
            if i < k && j == k {
                assert(out[i] == start[i]);
            } else if i == k {
                assert(out[j] == start[j - 1]);
                assert(stands_before(row, start[k as int]));
                if j - 1 > k {
                    assert(stands_before(start[k as int], start[j - 1]));
                }
            } else if i < k && j > k {
                assert(out[i] == start[i] && out[j] == start[j - 1]);
            } else if i > k {
                assert(out[i] == start[i - 1] && out[j] == start[j - 1]);
            }
        }
        assert forall|x: (u32, u32)| #[trigger] out.contains(x) <==> start.contains(x) || x
            == row by {
            if out.contains(x) {
                let i = choose|i: int| 0 <= i < out.len() && out[i] == x;
                if i < k {
                    assert(start[i] == x);
                } else if i > k {
                    assert(start[i - 1] == x);
                }
            }
            if start.contains(x) {
                let i = choose|i: int| 0 <= i < start.len() && start[i] == x;
                if i < k {
                    assert(out[i] == x);
                } else {
                    assert(out[i + 1] == x);
                }
            }
            if x == row {
                assert(out[k as int] == x);
            }
        }
    }
}

/// Orders what a counter holds.
pub fn effect_rows(counts: &BTreeMap<u32, u32>) -> (r: Vec<(u32, u32)>)
    ensures
        is_table(r@, counts@),
{
    let keys: Vec<u32> = sorted_keys(counts);
    let mut rows: Vec<(u32, u32)> = Vec::new();
    let mut i: usize = 0;
    while i < keys.len()
        invariant
            i <= keys.len(),
            forall|a: int, b: int| 0 <= a < b < keys.len() ==> keys[a] < keys[b],
            forall|k: u32| keys@.contains(k) <==> counts@.contains_key(k),
            forall|a: int, b: int|
                0 <= a < b < rows.len() ==> stands_before(rows[a], rows[b]),
            forall|x: (u32, u32)| #[trigger]
                rows@.contains(x) ==> counts@.contains_key(x.0) && counts@[x.0] == x.1
                    && exists|a: int| 0 <= a < i && #[trigger] keys[a] == x.0,
            forall|a: int| 0 <= a < i ==> rows@.contains(((#[trigger] keys[a]), counts@[keys[a]])),
        decreases keys.len() - i,
    {
        let code: u32 = keys[i];
        proof {
            assert(keys@.contains(code));
            assert forall|k: int| 0 <= k < rows.len() implies (#[trigger] rows[k]).0 != code by {
                assert(rows@.contains(rows@[k]));
            }
        }
        let ghost before = rows@;
        insert_row(&mut rows, (code, lookup(counts, code)));
        i += 1;
        proof {
            assert forall|x: (u32, u32)| #[trigger] rows@.contains(x) implies counts@.contains_key(
                x.0,
            ) && counts@[x.0] == x.1 && exists|a: int|
                0 <= a < i && #[trigger] keys[a] == x.0 by {
                if before.contains(x) {
                    let a = choose|a: int| 0 <= a < i - 1 && #[trigger] keys[a] == x.0;
                    assert(keys[a] == x.0);
                } else {
                    assert(keys[i - 1] == x.0);
                }
            }
            assert forall|a: int| 0 <= a < i implies rows@.contains(
                ((#[trigger] keys[a]), counts@[keys[a]]),
            ) by {
                if a < i - 1 {
                    assert(before.contains((keys[a], counts@[keys[a]])));
                }
            }
        }
    }
    proof {
        assert forall|k: int| 0 <= k < rows.len() implies counts@.contains_key(
            (#[trigger] rows@[k]).0,
        ) && counts@[rows@[k].0] == rows@[k].1 by {
            assert(rows@.contains(rows@[k]));
        }
        assert forall|code: u32| #[trigger] counts@.contains_key(code) implies rows@.contains(
            (code, counts@[code]),
        ) by {
            assert(keys@.contains(code));
            let a = choose|a: int| 0 <= a < keys.len() && keys[a] == code;
            assert(rows@.contains((keys[a], counts@[keys[a]])));
        }
    }
    rows
}

/// How an effect's code is written. An extended effect shows its second digit.
pub open spec fn effect_label(code: u32) -> Seq<char> {
    if 0xE0 <= code <= 0xEF {
        "E"@ + hex_upper(code as int % 16) + "x"@
    } else {
        hex_upper(code as int) + "xx"@
    }
}

/// The name of an effect, which depends on the format.
pub open spec fn effect_name_in(xm: bool, code: u32) -> Seq<char> {
    if xm {
        fasttracker2::name_of_effect(code)@
    } else {
        protracker::name_of_effect(code)@
    }
}

/// A row of a table of effects.
pub open spec fn effect_line(xm: bool, row: (u32, u32)) -> Seq<char> {
    "  "@ + padded_right(effect_label(row.0), 5) + " "@ + padded_right(
        effect_name_in(xm, row.0),
        32,
    ) + " "@ + decimal(row.1 as int) + " occurrence(s)"@
}

fn label_of(code: u32) -> (r: String)
    ensures
        r@ == effect_label(code),
{
    let mut out: String = String::new();
    if 0xE0 <= code && code <= 0xEF {
        out.append("E");
        push_hex_upper(&mut out, (code % 16) as u64, 1);
        proof {
            lemma_hex_nonempty(code as int % 16);
        }
        out.append("x");
        assert(out@ =~= effect_label(code));
    } else {
        push_hex_upper(&mut out, code as u64, 1);
        proof {
            lemma_hex_nonempty(code as int);
        }
        out.append("xx");
        assert(out@ =~= effect_label(code));
    }
    out
}

proof fn lemma_hex_nonempty(n: int)
    requires
        0 <= n,
    ensures
        zero_padded(hex_upper(n), 1) == hex_upper(n),
{
    crate::text::lemma_digits_len(n, 16, true);
}

fn line_of_effect(xm: bool, row: (u32, u32)) -> (r: String)
    ensures
        r@ == effect_line(xm, row),
{
    let label: String = label_of(row.0);
    let name: &'static str = if xm {
        fasttracker2::effect_name(row.0)
    } else {
        protracker::effect_name(row.0)
    };
    let mut out: String = "  ".to_owned();
    push_right_padded(&mut out, label.as_str(), 5);
    out.append(" ");
    push_right_padded(&mut out, name, 32);
    out.append(" ");
    push_decimal(&mut out, row.1 as u64);
    out.append(" occurrence(s)");
    out
}

/// The rows of a table of effects.
pub open spec fn effect_lines(xm: bool, rows: Seq<(u32, u32)>) -> Seq<Seq<char>> {
    rows.map_values(|row: (u32, u32)| effect_line(xm, row))
}

fn push_effects(lines: &mut Vec<String>, xm: bool, rows: &Vec<(u32, u32)>)
    ensures
        string_views(final(lines)@) == string_views(old(lines)@) + effect_lines(xm, rows@),
{
    let ghost start = string_views(lines@);
    let ghost whole = effect_lines(xm, rows@);
    let mut i: usize = 0;
    assert(start + whole.take(0) =~= start);
    while i < rows.len()
        invariant
            i <= rows.len(),
            whole == effect_lines(xm, rows@),
            string_views(lines@) == start + whole.take(i as int),
        decreases rows.len() - i,
    {
        let line: String = line_of_effect(xm, rows[i]);
        push_line(lines, line);
        i += 1;
        assert(start + whole.take(i as int) =~= (start + whole.take(i - 1)).push(whole[i - 1]));
    }
    assert(whole.take(i as int) =~= whole);
}

/// The two tables of a module's effects.
pub open spec fn report_text(xm: bool, done: Seq<(u32, u32)>, ignored: Seq<(u32, u32)>) -> Seq<
    Seq<char>,
> {
    let first = if done.len() > 0 {
        seq!["Verbose: effects correctly transcribed:"@] + effect_lines(xm, done)
    } else {
        seq!["Verbose: no implemented effects found in this module."@]
    };
    let second = if ignored.len() > 0 {
        seq!["Verbose: unimplemented effects found (ignored during playback simulation):"@]
            + effect_lines(xm, ignored)
    } else {
        seq!["Verbose: no unimplemented effects found."@]
    };
    first + second
}

/// The tables of the effects that are played, and of those that are ignored.
pub fn effects_tables(xm: bool, done: &Vec<(u32, u32)>, ignored: &Vec<(u32, u32)>) -> (r: Vec<
    String,
>)
    ensures
        string_views(r@) == report_text(xm, done@, ignored@),
{
    let mut lines: Vec<String> = Vec::new();
    assert(string_views(lines@) =~= Seq::<Seq<char>>::empty());
    if done.len() > 0 {
        push_line(&mut lines, "Verbose: effects correctly transcribed:".to_owned());
        assert(string_views(lines@) =~= seq!["Verbose: effects correctly transcribed:"@]);
        push_effects(&mut lines, xm, done);
    } else {
        push_line(
            &mut lines,
            "Verbose: no implemented effects found in this module.".to_owned(),
        );
        assert(string_views(lines@) =~= seq![
            "Verbose: no implemented effects found in this module."@,
        ]);
    }
    let ghost first = string_views(lines@);
    if ignored.len() > 0 {
        push_line(
            &mut lines,
            "Verbose: unimplemented effects found (ignored during playback simulation):".to_owned(),
        );
        let ghost middle = string_views(lines@);
        push_effects(&mut lines, xm, ignored);
        assert(string_views(lines@) =~= first + (seq![
            "Verbose: unimplemented effects found (ignored during playback simulation):"@,
        ] + effect_lines(xm, ignored@)));
    } else {
        push_line(&mut lines, "Verbose: no unimplemented effects found.".to_owned());
        assert(string_views(lines@) =~= first + seq![
            "Verbose: no unimplemented effects found."@,
        ]);
    }
    lines
}

/// The effects of each format: those of both, and where there is one, one more.
pub open spec fn extra_effect(xm: bool) -> Option<u32> {
    if xm {
        Some(fasttracker2::EFFECT_KEY_OFF)
    } else {
        None
    }
}

/// Reports on the effects of a module. Nothing is said of formats without tables.
pub fn effects_report(module: &Module) -> (r: Vec<String>)
    requires
        module@.cells().len() <= u32::MAX,
    ensures
        module@.source_format != "protracker"@ && module@.source_format != "fasttracker2"@
            ==> r.len() == 0,
        module@.source_format == "protracker"@ ==> is_effects_report(
            string_views(r@),
            module@,
            false,
        ),
        module@.source_format == "fasttracker2"@ ==> is_effects_report(
            string_views(r@),
            module@,
            true,
        ),
{
    proof {
        reveal_strlit("protracker");
        reveal_strlit("fasttracker2");
        assert("protracker"@.len() != "fasttracker2"@.len());
    }
    if same_text(module.source_format.as_str(), "protracker") {
        let a: BTreeMap<u32, u32> = protracker::implemented_effect_counts(module);
        let b: BTreeMap<u32, u32> = protracker::unimplemented_effect_counts(module);
        let done: Vec<(u32, u32)> = effect_rows(&a);
        let ignored: Vec<(u32, u32)> = effect_rows(&b);
        let r: Vec<String> = effects_tables(false, &done, &ignored);
        assert(reports(string_views(r@), module@, false, a@, b@, done@, ignored@));
        r
    } else if same_text(module.source_format.as_str(), "fasttracker2") {
        let a: BTreeMap<u32, u32> = fasttracker2::implemented_effect_counts(module);
        let b: BTreeMap<u32, u32> = fasttracker2::unimplemented_effect_counts(module);
        let done: Vec<(u32, u32)> = effect_rows(&a);
        let ignored: Vec<(u32, u32)> = effect_rows(&b);
        let r: Vec<String> = effects_tables(true, &done, &ignored);
        assert(reports(string_views(r@), module@, true, a@, b@, done@, ignored@));
        r
    } else {
        Vec::new()
    }
}

/// The lines report on these counts.
pub open spec fn reports(
    lines: Seq<Seq<char>>,
    m: ModuleView,
    xm: bool,
    a: Map<u32, u32>,
    b: Map<u32, u32>,
    done: Seq<(u32, u32)>,
    ignored: Seq<(u32, u32)>,
) -> bool {
    &&& is_report(a, m, extra_effect(xm), true)
    &&& is_report(b, m, extra_effect(xm), false)
    &&& is_table(done, a)
    &&& is_table(ignored, b)
    &&& lines == report_text(xm, done, ignored)
}

/// The lines report on a module's effects.
pub open spec fn is_effects_report(lines: Seq<Seq<char>>, m: ModuleView, xm: bool) -> bool {
    exists|
        a: Map<u32, u32>,
        b: Map<u32, u32>,
        done: Seq<(u32, u32)>,
        ignored: Seq<(u32, u32)>,
    | #[trigger]
        reports(lines, m, xm, a, b, done, ignored)
}

/// Numbers with commas between them.
pub open spec fn listed(numbers: Seq<u32>, hex: bool) -> Seq<char>
    decreases numbers.len(),
{
    if numbers.len() == 0 {
        Seq::empty()
    } else {
        let last = if hex {
            hex_upper(numbers.last() as int)
        } else {
            decimal(numbers.last() as int)
        };
        if numbers.len() == 1 {
            last
        } else {
            listed(numbers.drop_last(), hex) + ", "@ + last
        }
    }
}

fn list_numbers(numbers: &Vec<u32>, hex: bool) -> (r: String)
    ensures
        r@ == listed(numbers@, hex),
{
    let mut out: String = String::new();
    let mut i: usize = 0;
    assert(numbers@.take(0) =~= Seq::<u32>::empty());
    while i < numbers.len()
        invariant
            i <= numbers.len(),
            out@ == listed(numbers@.take(i as int), hex),
        decreases numbers.len() - i,
    {
        let ghost before = out@;
        proof {
            assert(numbers@.take(i + 1).drop_last() =~= numbers@.take(i as int));
            assert(numbers@.take(i + 1).last() == numbers[i as int]);
            lemma_hex_nonempty(numbers[i as int] as int);
        }
        if i > 0 {
            out.append(", ");
        }
        if hex {
            push_hex_upper(&mut out, numbers[i] as u64, 1);
        } else {
            push_decimal(&mut out, numbers[i] as u64);
        }
        i += 1;
        assert(out@ =~= listed(numbers@.take(i as int), hex));
    }
    assert(numbers@.take(i as int) =~= numbers@);
    out
}

/// Where a sample's loop lies.
pub open spec fn loop_span(s: SampleView) -> Seq<char> {
    "loop "@ + decimal(s.loop_start as int) + "-"@ + decimal(s.loop_start + s.loop_length)
}

fn span_of_loop(sample: &Sample) -> (r: String)
    ensures
        r@ == loop_span(sample@),
{
    let mut out: String = "loop ".to_owned();
    push_decimal(&mut out, sample.loop_start as u64);
    out.append("-");
    push_decimal(&mut out, sample.loop_start as u64 + sample.loop_length as u64);
    out
}

/// A sample in one line.
pub open spec fn sample_line(s: SampleView) -> Seq<char> {
    let name = if s.name.len() == 0 {
        "(unnamed)"@
    } else {
        s.name
    };
    let tail = if s.has_loop() {
        ", "@ + loop_span(s)
    } else {
        Seq::empty()
    };
    "  "@ + padded_left(decimal(s.index as int), 2) + ". "@ + padded_right(name, 22) + " "@
        + padded_left(decimal(s.pcm16.len() as int / 2), 6) + " frames  vol="@ + padded_left(
        decimal(s.volume as int),
        2,
    ) + "  rate="@ + decimal(s.sample_rate_hz as int) + "Hz"@ + tail
}

fn line_of_sample(sample: &Sample) -> (r: String)
    ensures
        r@ == sample_line(sample@),
{
    let index: String = count_text(sample.index as u64);
    let frames: String = count_text((sample.pcm16.len() / 2) as u64);
    let volume: String = count_text(sample.volume as u64);
    let mut out: String = "  ".to_owned();
    push_left_padded(&mut out, index.as_str(), 2);
    out.append(". ");
    if sample.name.as_str().is_empty() {
        push_right_padded(&mut out, "(unnamed)", 22);
    } else {
        push_right_padded(&mut out, sample.name.as_str(), 22);
    }
    out.append(" ");
    push_left_padded(&mut out, frames.as_str(), 6);
    out.append(" frames  vol=");
    push_left_padded(&mut out, volume.as_str(), 2);
    out.append("  rate=");
    push_decimal(&mut out, sample.sample_rate_hz as u64);
    out.append("Hz");
    if sample.has_loop() {
        let span: String = span_of_loop(sample);
        let ghost before = out@;
        out.append(", ");
        out.append(span.as_str());
        assert(out@ =~= before + (", "@ + loop_span(sample@)));
    }
    assert(out@ =~= sample_line(sample@));
    out
}

/// What is said of a sample when it is extracted.
pub open spec fn sample_detail_of(s: SampleView) -> Seq<char> {
    "  Verbose: "@ + decimal(s.pcm16.len() as int / 2) + " frames, "@ + decimal(
        s.sample_rate_hz as int,
    ) + "Hz, volume="@ + decimal(s.volume as int) + ", "@ + (if s.has_loop() {
        loop_span(s)
    } else {
        "no loop"@
    })
}

pub fn sample_detail(sample: &Sample) -> (r: String)
    ensures
        r@ == sample_detail_of(sample@),
{
    let mut out: String = "  Verbose: ".to_owned();
    push_decimal(&mut out, (sample.pcm16.len() / 2) as u64);
    out.append(" frames, ");
    push_decimal(&mut out, sample.sample_rate_hz as u64);
    out.append("Hz, volume=");
    push_decimal(&mut out, sample.volume as u64);
    out.append(", ");
    if sample.has_loop() {
        let span: String = span_of_loop(sample);
        out.append(span.as_str());
    } else {
        out.append("no loop");
    }
    out
}

/// The lines of the samples that have sound.
pub open spec fn sample_lines(samples: Seq<SampleView>) -> Seq<Seq<char>>
    decreases samples.len(),
{
    if samples.len() == 0 {
        Seq::empty()
    } else if samples.last().is_empty() {
        sample_lines(samples.drop_last())
    } else {
        sample_lines(samples.drop_last()).push(sample_line(samples.last()))
    }
}

/// The contents of a module, given the codes of its effects.
pub open spec fn module_lines(m: ModuleView, effects: Seq<u32>) -> Seq<Seq<char>> {
    seq![
        "Title:      "@ + m.title,
        "Format:     "@ + m.source_format,
        "Channels:   "@ + decimal(m.num_channels as int),
        "Patterns:   "@ + decimal(m.patterns.len() as int),
        "Order:      ["@ + listed(m.order, false) + "]"@,
        "Restart at: "@ + decimal(m.restart_position as int),
        "Speed/BPM:  "@ + decimal(m.initial_speed_ticks as int) + " ticks/row, "@ + decimal(
            m.initial_tempo_bpm as int,
        ) + " BPM (initial)"@,
        "Effects:    "@ + (if effects.len() == 0 {
            "(none)"@
        } else {
            listed(effects, true)
        }),
        ""@,
        "Samples:"@,
    ] + sample_lines(m.samples)
}

fn pair(a: &str, b: &str) -> (r: String)
    ensures
        r@ == a@ + b@,
{
    let mut out: String = a.to_owned();
    out.append(b);
    out
}

fn with_number(a: &str, n: u64) -> (r: String)
    ensures
        r@ == a@ + decimal(n as int),
{
    let mut out: String = a.to_owned();
    push_decimal(&mut out, n);
    out
}

/// Displays the contents of a module, given the codes of its effects.
pub fn list_module(module: &Module, effects: &Vec<u32>) -> (r: Vec<String>)
    ensures
        string_views(r@) == module_lines(module@, effects@),
{
    let mut lines: Vec<String> = Vec::new();
    lines.push(pair("Title:      ", module.title.as_str()));
    lines.push(pair("Format:     ", module.source_format.as_str()));
    lines.push(with_number("Channels:   ", module.num_channels as u64));
    lines.push(with_number("Patterns:   ", module.patterns.len() as u64));
    let order: String = list_numbers(&module.order, false);
    let mut order_line: String = pair("Order:      [", order.as_str());
    order_line.append("]");
    lines.push(order_line);
    lines.push(with_number("Restart at: ", module.restart_position as u64));
    let mut speed: String = with_number("Speed/BPM:  ", module.initial_speed_ticks as u64);
    speed.append(" ticks/row, ");
    push_decimal(&mut speed, module.initial_tempo_bpm as u64);
    speed.append(" BPM (initial)");
    lines.push(speed);
    if effects.len() == 0 {
        lines.push(pair("Effects:    ", "(none)"));
    } else {
        let codes: String = list_numbers(effects, true);
        lines.push(pair("Effects:    ", codes.as_str()));
    }
    lines.push("".to_owned());
    lines.push("Samples:".to_owned());
    let ghost head = string_views(lines@);
    proof {
        let full = module_lines(module@, effects@);
        assert(head =~= full.take(10));
    }
    let ghost views = module@.samples;
    let mut i: usize = 0;
    assert(views.take(0) =~= Seq::<SampleView>::empty());
    assert(head + sample_lines(views.take(0)) =~= head);
    while i < module.samples.len()
        invariant
            i <= module.samples.len(),
            views == module@.samples,
            string_views(lines@) == head + sample_lines(views.take(i as int)),
        decreases module.samples.len() - i,
    {
        let sample: &Sample = &module.samples[i];
        proof {
            assert(views.take(i + 1).drop_last() =~= views.take(i as int));
            assert(views.take(i + 1).last() == sample@);
        }
        let ghost before = string_views(lines@);
        if !sample.is_empty() {
            let line: String = line_of_sample(sample);
            push_line(&mut lines, line);
        }
        i += 1;
        assert(string_views(lines@) =~= head + sample_lines(views.take(i as int)));
    }
    assert(views.take(i as int) =~= views);
    assert(head + sample_lines(views) =~= module_lines(module@, effects@));
    lines
}

/// A number of rows in beats, with two decimals.
pub open spec fn beats_of(rows: int) -> Seq<char> {
    decimal(rows / 4) + (if rows % 4 == 0 {
        ".00"@
    } else if rows % 4 == 1 {
        ".25"@
    } else if rows % 4 == 2 {
        ".50"@
    } else {
        ".75"@
    })
}

pub fn beats_text(rows: usize) -> (r: String)
    ensures
        r@ == beats_of(rows as int),
{
    let mut out: String = count_text((rows / 4) as u64);
    if rows % 4 == 0 {
        out.append(".00");
    } else if rows % 4 == 1 {
        out.append(".25");
    } else if rows % 4 == 2 {
        out.append(".50");
    } else {
        out.append(".75");
    }
    out
}

/// How many notes the first `k` samples have together, those without sound left aside.
pub open spec fn notes_up_to(
    samples: Seq<SampleView>,
    events: Seq<Seq<NoteEventView>>,
    k: int,
) -> int
    decreases k,
{
    if k <= 0 {
        0
    } else {
        notes_up_to(samples, events, k - 1) + if samples[k - 1].is_empty() {
            0
        } else {
            events[k - 1].len() as int
        }
    }
}

/// The notes of each sample of a module.
pub open spec fn events_by_sample(m: ModuleView, song: SongEvents) -> Seq<Seq<NoteEventView>> {
    m.samples.map_values(|s: SampleView| song.notes_for(s.index))
}

/// A number of things, at most what 64 bits hold.
pub open spec fn capped(n: int) -> u64 {
    if n > u64::MAX {
        u64::MAX
    } else {
        n as u64
    }
}

fn more(a: u64, b: u64) -> (r: u64)
    ensures
        r == capped(a + b),
{
    if a > u64::MAX - b {
        u64::MAX
    } else {
        a + b
    }
}

proof fn lemma_totals_grow(samples: Seq<SampleView>, events: Seq<Seq<NoteEventView>>, k: int)
    ensures
        voice_tracks(samples, events, k) >= 0,
        notes_up_to(samples, events, k) >= 0,
    decreases k,
{
    if k > 0 {
        lemma_totals_grow(samples, events, k - 1);
        lemma_a_voice_at_least(events[k - 1]);
    }
}

/// How many tracks the set of a song has, groups not counted, and how many notes: for each
/// sample that sounds a track for each of its voices.
pub fn song_totals(module: &Module, song: &SongEvents) -> (r: (u64, u64))
    ensures
        ({
            let events = events_by_sample(module@, *song);
            let n = module@.samples.len() as int;
            &&& r.0 == capped(voice_tracks(module@.samples, events, n))
            &&& r.1 == capped(notes_up_to(module@.samples, events, n))
        }),
{
    let ghost samples = module@.samples;
    let ghost events = events_by_sample(module@, *song);
    let mut tracks: u64 = 0;
    let mut notes: u64 = 0;
    let mut i: usize = 0;
    while i < module.samples.len()
        invariant
            i <= module.samples.len(),
            samples == module@.samples,
            events == events_by_sample(module@, *song),
            tracks == capped(voice_tracks(samples, events, i as int)),
            notes == capped(notes_up_to(samples, events, i as int)),
        decreases module.samples.len() - i,
    {
        let sample: &Sample = &module.samples[i];
        proof {
            assert(samples[i as int] == sample@);
            assert(events[i as int] == song.notes_for(sample.index));
            lemma_totals_grow(samples, events, i as int);
        }
        if !sample.is_empty() {
            match song.notes_of(sample.index) {
                Some(list) => {
                    assert(song.notes_for(sample.index) == event_views(list@));
                    tracks = more(more(tracks, highest_voice(list) as u64), 1);
                    notes = more(notes, list.len() as u64);
                },
                None => {
                    tracks = more(tracks, 1);
                },
            }
        }
        i += 1;
    }
    (tracks, notes)
}

/// A song in one line, with its tracks or without.
pub open spec fn song_text(tracks: Option<u64>, notes: u64, changes: int, rows: int) -> Seq<char> {
    "Verbose: "@ + (match tracks {
        Some(n) => decimal(n as int) + " track(s), "@,
        None => Seq::empty(),
    }) + decimal(notes as int) + " note(s), "@ + decimal(changes) + " tempo change(s), "@
        + beats_of(rows) + " beats total"@
}

pub fn song_line(tracks: Option<u64>, notes: u64, song: &SongEvents) -> (r: String)
    ensures
        r@ == song_text(
            tracks,
            notes,
            song.tempo_changes.len() as int,
            song.total_rows as int,
        ),
{
    let mut out: String = "Verbose: ".to_owned();
    match tracks {
        Some(n) => {
            push_decimal(&mut out, n);
            out.append(" track(s), ");
            assert(out@ =~= "Verbose: "@ + (decimal(n as int) + " track(s), "@));
        },
        None => {
            assert(out@ =~= "Verbose: "@ + Seq::<char>::empty());
        },
    }
    push_decimal(&mut out, notes);
    out.append(" note(s), ");
    push_decimal(&mut out, song.tempo_changes.len() as u64);
    out.append(" tempo change(s), ");
    let beats: String = beats_text(song.total_rows);
    out.append(beats.as_str());
    out.append(" beats total");
    out
}

/// A tag, or that it is not known.
pub open spec fn known(tag: Option<Seq<char>>) -> Seq<char> {
    match tag {
        Some(t) => t,
        None => "(unknown)"@,
    }
}

fn tag_line(label: &str, tag: &Option<String>) -> (r: String)
    ensures
        r@ == label@ + known(text_of(*tag)),
{
    match tag {
        Some(t) => pair(label, t.as_str()),
        None => pair(label, "(unknown)"),
    }
}

/// A chip that is emulated, if the file uses it.
pub open spec fn chip_lines(name: Seq<char>, clock: u32) -> Seq<Seq<char>> {
    if clock > 0 {
        seq!["  "@ + name + " @ "@ + decimal(clock as int) + " Hz — emulated by convert"@]
    } else {
        Seq::empty()
    }
}

fn push_chip(lines: &mut Vec<String>, name: &str, clock: u32)
    ensures
        string_views(final(lines)@) == string_views(old(lines)@) + chip_lines(name@, clock),
{
    let ghost start = string_views(lines@);
    if clock > 0 {
        let mut line: String = pair("  ", name);
        line.append(" @ ");
        push_decimal(&mut line, clock as u64);
        line.append(" Hz — emulated by convert");
        push_line(lines, line);
        assert(string_views(lines@) =~= start + chip_lines(name@, clock));
    } else {
        assert(start + chip_lines(name@, clock) =~= start);
    }
}

/// The chips that can be emulated, and their clocks.
pub open spec fn emulated_chips(v: VgmFileView) -> Seq<(Seq<char>, u32)> {
    seq![
        ("YM2413 (OPLL FM)"@, v.clocks.ym2413),
        (
            if v.ay8910_is_ym {
                "AY8910 (PSG) [YM2149-compatible]"@
            } else {
                "AY8910 (PSG)"@
            },
            v.clocks.ay8910,
        ),
        ("K051649/SCC (Konami)"@, v.clocks.scc),
        ("YM3526 (OPL FM)"@, v.clocks.ym3526),
        ("YM3812 (OPL2 FM)"@, v.clocks.ym3812),
        ("YM2612 (OPN2 FM, Sega Genesis/Mega Drive)"@, v.clocks.ym2612),
        ("YM2151 (OPM FM, arcade/X68000)"@, v.clocks.ym2151),
        ("YM2203 (OPN FM)"@, v.clocks.ym2203),
        ("YM2608 (OPNA FM)"@, v.clocks.ym2608),
        ("YM2610 (OPNB FM, Neo Geo)"@, v.clocks.ym2610),
        ("Sega PCM"@, v.clocks.segapcm),
        ("RF5C68 (PCM)"@, v.clocks.rf5c68),
        ("RF5C164 (PCM)"@, v.clocks.rf5c164),
        ("GameBoy DMG"@, v.clocks.gb_dmg),
        ("NES APU"@, v.clocks.nes_apu),
    ]
}

/// Names and clocks.
pub open spec fn clock_views(list: Seq<(&str, u32)>) -> Seq<(Seq<char>, u32)> {
    list.map_values(|p: (&str, u32)| (p.0@, p.1))
}

/// The lines of the chips that a file uses.
pub open spec fn emulated_lines(list: Seq<(Seq<char>, u32)>) -> Seq<Seq<char>>
    decreases list.len(),
{
    if list.len() == 0 {
        Seq::empty()
    } else {
        emulated_lines(list.drop_last()) + chip_lines(list.last().0, list.last().1)
    }
}

fn push_emulated(lines: &mut Vec<String>, vgm: &VgmFile)
    ensures
        string_views(final(lines)@) == string_views(old(lines)@) + emulated_lines(
            emulated_chips(vgm@),
        ),
{
    let ay: &str = if vgm.ay8910_is_ym {
        "AY8910 (PSG) [YM2149-compatible]"
    } else {
        "AY8910 (PSG)"
    };
    let chips: Vec<(&str, u32)> = vec![
        ("YM2413 (OPLL FM)", vgm.ym2413_clock),
        (ay, vgm.ay8910_clock),
        ("K051649/SCC (Konami)", vgm.scc_clock),
        ("YM3526 (OPL FM)", vgm.ym3526_clock),
        ("YM3812 (OPL2 FM)", vgm.ym3812_clock),
        ("YM2612 (OPN2 FM, Sega Genesis/Mega Drive)", vgm.ym2612_clock),
        ("YM2151 (OPM FM, arcade/X68000)", vgm.ym2151_clock),
        ("YM2203 (OPN FM)", vgm.ym2203_clock),
        ("YM2608 (OPNA FM)", vgm.ym2608_clock),
        ("YM2610 (OPNB FM, Neo Geo)", vgm.ym2610_clock),
        ("Sega PCM", vgm.segapcm_clock),
        ("RF5C68 (PCM)", vgm.rf5c68_clock),
        ("RF5C164 (PCM)", vgm.rf5c164_clock),
        ("GameBoy DMG", vgm.gb_dmg_clock),
        ("NES APU", vgm.nes_apu_clock),
    ];
    let ghost list = emulated_chips(vgm@);
    assert(clock_views(chips@) =~= list);
    let ghost start = string_views(lines@);
    let mut i: usize = 0;
    assert(list.take(0) =~= Seq::<(Seq<char>, u32)>::empty());
    assert(start + emulated_lines(list.take(0)) =~= start);
    while i < chips.len()
        invariant
            i <= chips.len(),
            clock_views(chips@) == list,
            string_views(lines@) == start + emulated_lines(list.take(i as int)),
        decreases chips.len() - i,
    {
        proof {
            assert(list.take(i + 1).drop_last() =~= list.take(i as int));
            assert(list.take(i + 1).last() == (chips[i as int].0@, chips[i as int].1));
        }
        push_chip(lines, chips[i].0, chips[i].1);
        i += 1;
        assert(string_views(lines@) =~= start + emulated_lines(list.take(i as int)));
    }
    assert(list.take(i as int) =~= list);
}

/// A command of each chip that is not emulated, in the order of the chips' names.
pub const OTHER_CHIPS: [u8; 29] = [
    0xD4,
    0xD5,
    0xBE,
    0xD6,
    0xBF,
    0xB9,
    0xBA,
    0xD3,
    0xB5,
    0xC3,
    0xB7,
    0xB8,
    0xB2,
    0xBB,
    0xC4,
    0xBD,
    0xC5,
    0xC7,
    0xBC,
    0xC6,
    0xC8,
    0x5C,
    0x5E,
    0xD1,
    0xD0,
    0x5D,
    0xA1,
    0xB6,
    0x00,
];

/// Two commands go to the same chip.
pub open spec fn same_chip(a: u8, b: u8) -> bool {
    chip_name(a)@ == chip_name(b)@
}

/// How many writes go to the chip of a command, among the commands below `k`.
pub open spec fn writes_to(m: Map<u8, u32>, chip: u8, k: int) -> int
    decreases k,
{
    if k <= 0 {
        0
    } else if m.contains_key((k - 1) as u8) && same_chip((k - 1) as u8, chip) {
        writes_to(m, chip, k - 1) + m[(k - 1) as u8]
    } else {
        writes_to(m, chip, k - 1)
    }
}

/// The chip of a command is used, by one of the commands below `k`.
pub open spec fn is_used(m: Map<u8, u32>, chip: u8, k: int) -> bool
    decreases k,
{
    if k <= 0 {
        false
    } else {
        (m.contains_key((k - 1) as u8) && same_chip((k - 1) as u8, chip)) || is_used(
            m,
            chip,
            k - 1,
        )
    }
}

/// The lines of the first `n` chips that are not emulated, those that are used.
pub open spec fn other_lines(m: Map<u8, u32>, n: int) -> Seq<Seq<char>>
    decreases n,
{
    if n <= 0 {
        Seq::empty()
    } else {
        let chip = OTHER_CHIPS[n - 1];
        if is_used(m, chip, 256) {
            other_lines(m, n - 1).push(
                "  "@ + chip_name(chip)@ + ": "@ + decimal(writes_to(m, chip, 256))
                    + " register write(s)"@,
            )
        } else {
            other_lines(m, n - 1)
        }
    }
}

fn count_writes(m: &BTreeMap<u8, u32>, chip: u8) -> (r: Option<u64>)
    ensures
        match r {
            Some(n) => is_used(m@, chip, 256) && n == writes_to(m@, chip, 256),
            None => !is_used(m@, chip, 256),
        },
{
    let mut used: bool = false;
    let mut total: u64 = 0;
    let mut k: u64 = 0;
    while k < 256
        invariant
            k <= 256,
            used == is_used(m@, chip, k as int),
            total == writes_to(m@, chip, k as int),
            total <= k * 0xffff_ffff,
        decreases 256 - k,
    {
        let cmd: u8 = k as u8;
        match lookup_byte(m, cmd) {
            Some(n) => {
                if same_text(unsupported_chip_name(cmd), unsupported_chip_name(chip)) {
                    used = true;
                    total += n as u64;
                }
            },
            None => {},
        }
        k += 1;
    }
    if used {
        Some(total)
    } else {
        None
    }
}

fn push_others(lines: &mut Vec<String>, m: &BTreeMap<u8, u32>)
    ensures
        string_views(final(lines)@) == string_views(old(lines)@) + other_lines(
            m@,
            OTHER_CHIPS@.len() as int,
        ),
{
    let ghost start = string_views(lines@);
    let mut i: usize = 0;
    assert(start + other_lines(m@, 0) =~= start);
    while i < OTHER_CHIPS.len()
        invariant
            i <= OTHER_CHIPS@.len(),
            string_views(lines@) == start + other_lines(m@, i as int),
        decreases OTHER_CHIPS@.len() - i,
    {
        let chip: u8 = OTHER_CHIPS[i];
        match count_writes(m, chip) {
            Some(n) => {
                let mut line: String = pair("  ", unsupported_chip_name(chip));
                line.append(": ");
                push_decimal(&mut line, n);
                line.append(" register write(s)");
                push_line(lines, line);
            },
            None => {},
        }
        i += 1;
        assert(string_views(lines@) =~= start + other_lines(m@, i as int));
    }
}

/// The contents of a chip rip. Its times, in seconds with one decimal, are given as texts.
pub open spec fn vgm_lines(
    v: VgmFileView,
    duration: Seq<char>,
    loop_start: Seq<char>,
    loop_length: Seq<char>,
) -> Seq<Seq<char>> {
    let head = seq![
        "Title:      "@ + known(v.tags.title),
        "Game:       "@ + known(v.tags.game),
        "System:     "@ + known(v.tags.system),
        "Author:     "@ + known(v.tags.author),
        "Format:     VGM v"@ + version_text(v.version),
        "Duration:   "@ + duration + "s ("@ + decimal(v.total_samples as int)
            + " samples @ 44100Hz)"@,
        if v.loop_start_sample is Some {
            "Loop:       from "@ + loop_start + "s, "@ + loop_length + "s long"@
        } else {
            "Loop:       (none)"@
        },
        ""@,
        "Chips:"@,
    ];
    head + emulated_lines(emulated_chips(v)) + (if other_lines(
        v.unsupported_commands,
        OTHER_CHIPS@.len() as int,
    ).len() > 0 {
        seq![
            ""@,
            "Other chips used in this file (not emulated, silently skipped by convert):"@,
        ] + other_lines(v.unsupported_commands, OTHER_CHIPS@.len() as int)
    } else {
        Seq::empty()
    })
}

/// Displays the contents of a chip rip.
pub fn summary_lines(vgm: &VgmFile, duration: &str, loop_start: &str, loop_length: &str) -> (r: Vec<
    String,
>)
    ensures
        string_views(r@) == vgm_lines(vgm@, duration@, loop_start@, loop_length@),
{
    let mut lines: Vec<String> = Vec::new();
    lines.push(tag_line("Title:      ", &vgm.title));
    lines.push(tag_line("Game:       ", &vgm.game));
    lines.push(tag_line("System:     ", &vgm.system));
    lines.push(tag_line("Author:     ", &vgm.author));
    let version: String = version_string(vgm.version);
    lines.push(pair("Format:     VGM v", version.as_str()));
    let mut long: String = pair("Duration:   ", duration);
    long.append("s (");
    push_decimal(&mut long, vgm.total_samples);
    long.append(" samples @ 44100Hz)");
    lines.push(long);
    if vgm.loop_start_sample.is_some() {
        let mut repeat: String = pair("Loop:       from ", loop_start);
        repeat.append("s, ");
        repeat.append(loop_length);
        repeat.append("s long");
        lines.push(repeat);
    } else {
        lines.push("Loop:       (none)".to_owned());
    }
    lines.push("".to_owned());
    lines.push("Chips:".to_owned());
    let ghost head = string_views(lines@);
    assert(head =~= vgm_lines(vgm@, duration@, loop_start@, loop_length@).take(9));
    push_emulated(&mut lines, vgm);
    let ghost middle = string_views(lines@);
    let mut others: Vec<String> = Vec::new();
    assert(string_views(others@) =~= Seq::<Seq<char>>::empty());
    push_others(&mut others, &vgm.unsupported_commands);
    let ghost list = other_lines(vgm@.unsupported_commands, OTHER_CHIPS@.len() as int);
    assert(string_views(others@) =~= list);
    if others.len() > 0 {
        push_line(&mut lines, "".to_owned());
        push_line(
            &mut lines,
            "Other chips used in this file (not emulated, silently skipped by convert):".to_owned(),
        );
        let ghost before = lines@;
        let ghost rest = others@;
        lines.append(&mut others);
        assert(string_views(lines@) =~= string_views(before) + string_views(rest));
    }
    assert(string_views(lines@) =~= vgm_lines(vgm@, duration@, loop_start@, loop_length@));
    lines
}

/// A chip and its clock, if the file uses it.
pub open spec fn clock_texts(name: Seq<char>, clock: u32) -> Seq<Seq<char>> {
    if clock > 0 {
        seq![name + "="@ + decimal(clock as int) + "Hz"@]
    } else {
        Seq::empty()
    }
}

/// The less common chips, and their clocks.
pub open spec fn extra_chips(v: VgmFileView) -> Seq<(Seq<char>, u32)> {
    seq![
        ("YM2612"@, v.clocks.ym2612),
        ("YM2151"@, v.clocks.ym2151),
        ("YM2203"@, v.clocks.ym2203),
        ("YM2608"@, v.clocks.ym2608),
        ("YM2610"@, v.clocks.ym2610),
        ("SegaPCM"@, v.clocks.segapcm),
        ("RF5C68"@, v.clocks.rf5c68),
        ("RF5C164"@, v.clocks.rf5c164),
        ("GB-DMG"@, v.clocks.gb_dmg),
        ("NES-APU"@, v.clocks.nes_apu),
    ]
}

/// The clocks of the chips that a file uses.
pub open spec fn used_clocks(list: Seq<(Seq<char>, u32)>) -> Seq<Seq<char>>
    decreases list.len(),
{
    if list.len() == 0 {
        Seq::empty()
    } else {
        used_clocks(list.drop_last()) + clock_texts(list.last().0, list.last().1)
    }
}

/// Texts with another one between them.
pub open spec fn joined(list: Seq<Seq<char>>, between: Seq<char>) -> Seq<char>
    decreases list.len(),
{
    if list.len() == 0 {
        Seq::empty()
    } else if list.len() == 1 {
        list[0]
    } else {
        joined(list.drop_last(), between) + between + list.last()
    }
}

fn push_clock(list: &mut Vec<String>, name: &str, clock: u32)
    ensures
        string_views(final(list)@) == string_views(old(list)@) + clock_texts(name@, clock),
{
    let ghost start = string_views(list@);
    if clock > 0 {
        let mut text: String = pair(name, "=");
        push_decimal(&mut text, clock as u64);
        text.append("Hz");
        push_line(list, text);
        assert(string_views(list@) =~= start + clock_texts(name@, clock));
    } else {
        assert(start + clock_texts(name@, clock) =~= start);
    }
}

fn join_texts(list: &Vec<String>, between: &str) -> (r: String)
    ensures
        r@ == joined(string_views(list@), between@),
{
    let ghost views = string_views(list@);
    let mut out: String = String::new();
    let mut i: usize = 0;
    assert(views.take(0) =~= Seq::<Seq<char>>::empty());
    while i < list.len()
        invariant
            i <= list.len(),
            views == string_views(list@),
            out@ == joined(views.take(i as int), between@),
        decreases list.len() - i,
    {
        proof {
            assert(views.take(i + 1).drop_last() =~= views.take(i as int));
            assert(views.take(i + 1).last() == list[i as int]@);
        }
        let ghost before = out@;
        if i > 0 {
            out.append(between);
        }
        out.append(list[i].as_str());
        i += 1;
        assert(out@ =~= joined(views.take(i as int), between@));
    }
    assert(views.take(i as int) =~= views);
    out
}

/// What is said of a chip rip when it is converted. Its duration is given as text.
pub open spec fn vgm_detail_lines(v: VgmFileView, duration: Seq<char>) -> Seq<Seq<char>> {
    let first = "Verbose: VGM v"@ + version_text(v.version) + ", "@ + duration + "s, YM2413="@
        + decimal(v.clocks.ym2413 as int) + "Hz AY8910="@ + decimal(v.clocks.ay8910 as int)
        + "Hz SCC="@ + decimal(v.clocks.scc as int) + "Hz YM3526="@ + decimal(
        v.clocks.ym3526 as int,
    ) + "Hz YM3812="@ + decimal(v.clocks.ym3812 as int) + "Hz"@;
    let others = other_lines(v.unsupported_commands, OTHER_CHIPS@.len() as int);
    seq![first] + (if used_clocks(extra_chips(v)).len() > 0 {
        seq!["Verbose: "@ + joined(used_clocks(extra_chips(v)), " "@)]
    } else {
        Seq::empty()
    }) + (if others.len() > 0 {
        seq!["Verbose: other chips found in this file are not emulated and will be silent:"@]
            + others
    } else {
        Seq::empty()
    })
}

fn list_extra(vgm: &VgmFile) -> (r: Vec<String>)
    ensures
        string_views(r@) == used_clocks(extra_chips(vgm@)),
{
    let chips: Vec<(&str, u32)> = vec![
        ("YM2612", vgm.ym2612_clock),
        ("YM2151", vgm.ym2151_clock),
        ("YM2203", vgm.ym2203_clock),
        ("YM2608", vgm.ym2608_clock),
        ("YM2610", vgm.ym2610_clock),
        ("SegaPCM", vgm.segapcm_clock),
        ("RF5C68", vgm.rf5c68_clock),
        ("RF5C164", vgm.rf5c164_clock),
        ("GB-DMG", vgm.gb_dmg_clock),
        ("NES-APU", vgm.nes_apu_clock),
    ];
    let ghost list = extra_chips(vgm@);
    assert(clock_views(chips@) =~= list);
    let mut out: Vec<String> = Vec::new();
    let mut i: usize = 0;
    assert(list.take(0) =~= Seq::<(Seq<char>, u32)>::empty());
    assert(string_views(out@) =~= Seq::<Seq<char>>::empty());
    while i < chips.len()
        invariant
            i <= chips.len(),
            clock_views(chips@) == list,
            string_views(out@) == used_clocks(list.take(i as int)),
        decreases chips.len() - i,
    {
        proof {
            assert(list.take(i + 1).drop_last() =~= list.take(i as int));
            assert(list.take(i + 1).last() == (chips[i as int].0@, chips[i as int].1));
        }
        push_clock(&mut out, chips[i].0, chips[i].1);
        i += 1;
    }
    assert(list.take(i as int) =~= list);
    out
}

/// Says what chips a rip uses when it is converted.
pub fn vgm_details(vgm: &VgmFile, duration: &str) -> (r: Vec<String>)
    ensures
        string_views(r@) == vgm_detail_lines(vgm@, duration@),
{
    let version: String = version_string(vgm.version);
    let mut first: String = pair("Verbose: VGM v", version.as_str());
    first.append(", ");
    first.append(duration);
    first.append("s, YM2413=");
    push_decimal(&mut first, vgm.ym2413_clock as u64);
    first.append("Hz AY8910=");
    push_decimal(&mut first, vgm.ay8910_clock as u64);
    first.append("Hz SCC=");
    push_decimal(&mut first, vgm.scc_clock as u64);
    first.append("Hz YM3526=");
    push_decimal(&mut first, vgm.ym3526_clock as u64);
    first.append("Hz YM3812=");
    push_decimal(&mut first, vgm.ym3812_clock as u64);
    first.append("Hz");
    let mut lines: Vec<String> = Vec::new();
    lines.push(first);
    assert(string_views(lines@) =~= seq![first@]);
    let clocks: Vec<String> = list_extra(vgm);
    assert(string_views(clocks@).len() == clocks.len());
    if clocks.len() > 0 {
        let all: String = join_texts(&clocks, " ");
        push_line(&mut lines, pair("Verbose: ", all.as_str()));
    }
    let mut others: Vec<String> = Vec::new();
    assert(string_views(others@) =~= Seq::<Seq<char>>::empty());
    push_others(&mut others, &vgm.unsupported_commands);
    assert(string_views(others@) =~= other_lines(
        vgm@.unsupported_commands,
        OTHER_CHIPS@.len() as int,
    ));
    if others.len() > 0 {
        push_line(
            &mut lines,
            "Verbose: other chips found in this file are not emulated and will be silent:".to_owned(),
        );
        let ghost before = lines@;
        let ghost rest = others@;
        lines.append(&mut others);
        assert(string_views(lines@) =~= string_views(before) + string_views(rest));
    }
    assert(string_views(lines@) =~= vgm_detail_lines(vgm@, duration@));
    lines
}

/// What is said once a chip rip is converted: a warning where there is nothing to hear, else,
/// where details are asked for, how many tracks there are and whether they are cut.
pub open spec fn conversion_text(stems: int, looped: bool, verbose: bool) -> Option<Seq<char>> {
    if stems == 0 {
        Some(
            "\nWarning: the project has no tracks. None of this file's music data is on a chip this converter emulates — run `ablemod list` on it to see which chip(s) actually carry the music."@,
        )
    } else if !verbose {
        None
    } else if looped {
        Some(
            "Verbose: "@ + decimal(stems)
                + " WAV track(s), each split into intro+loop clips at the file's declared loop point"@,
        )
    } else {
        Some(
            "Verbose: "@ + decimal(stems)
                + " WAV track(s) (no declared loop point — one full-length clip each)"@,
        )
    }
}

pub fn conversion_line(stems: usize, looped: bool, verbose: bool) -> (r: Option<String>)
    ensures
        match r {
            Some(line) => conversion_text(stems as int, looped, verbose) == Some(line@),
            None => conversion_text(stems as int, looped, verbose) is None,
        },
{
    if stems == 0 {
        return Some(
            "\nWarning: the project has no tracks. None of this file's music data is on a chip this converter emulates — run `ablemod list` on it to see which chip(s) actually carry the music.".to_owned(),
        );
    }
    if !verbose {
        return None;
    }
    let mut line: String = "Verbose: ".to_owned();
    push_decimal(&mut line, stems as u64);
    if looped {
        line.append(
            " WAV track(s), each split into intro+loop clips at the file's declared loop point",
        );
    } else {
        line.append(" WAV track(s) (no declared loop point — one full-length clip each)");
    }
    Some(line)
}

/// What is said of the stems that were written, or that there were none.
pub open spec fn stem_lines(names: Seq<Seq<char>>, dir: Seq<char>, verbose: bool) -> Seq<
    Seq<char>,
> {
    if names.len() == 0 {
        seq![
            "\nWarning: no tracks to write. None of this file's music data is on a chip this converter emulates — run `ablemod list` on it to see which chip(s) actually carry the music."@,
        ]
    } else {
        let first = "wrote "@ + decimal(names.len() as int) + " track(s) to "@ + dir;
        if verbose {
            seq![first, "Verbose: "@ + joined(names, ", "@)]
        } else {
            seq![first]
        }
    }
}

pub fn list_stems(names: &Vec<String>, dir: &str, verbose: bool) -> (r: Vec<String>)
    ensures
        string_views(r@) == stem_lines(string_views(names@), dir@, verbose),
{
    let mut lines: Vec<String> = Vec::new();
    assert(string_views(lines@) =~= Seq::<Seq<char>>::empty());
    if names.len() == 0 {
        push_line(
            &mut lines,
            "\nWarning: no tracks to write. None of this file's music data is on a chip this converter emulates — run `ablemod list` on it to see which chip(s) actually carry the music.".to_owned(),
        );
        return lines;
    }
    let mut first: String = "wrote ".to_owned();
    push_decimal(&mut first, names.len() as u64);
    first.append(" track(s) to ");
    first.append(dir);
    push_line(&mut lines, first);
    if verbose {
        let all: String = join_texts(names, ", ");
        push_line(&mut lines, pair("Verbose: ", all.as_str()));
    }
    lines
}

/// Where a track of the preview is shown: the row and the column of its cell, or that it has
/// none.
pub open spec fn cell_text(i: int, tracks: int, name: Seq<char>) -> Seq<char> {
    let cells = cells_of(tracks);
    if i < cells {
        let columns = grid_columns(cells + 1);
        let rows = grid_rows(cells + 1);
        let slot = slot_of(i, center_of(columns as u32, rows as u32) as int);
        "  ["@ + decimal(slot / columns) + ", "@ + decimal(slot % columns) + "] "@ + name
    } else {
        "  (no cell, still playing) "@ + name
    }
}

fn cell_line(i: usize, tracks: usize, name: &str) -> (r: String)
    requires
        i < tracks,
    ensures
        r@ == cell_text(i as int, tracks as int, name@),
{
    let cells: usize = cell_count(tracks);
    if i >= cells {
        return pair("  (no cell, still playing) ", name);
    }
    let (columns, rows) = grid_dims(cells + 1);
    let slot: usize = slot_for_track(i, center_slot(columns, rows));
    let mut line: String = "  [".to_owned();
    push_decimal(&mut line, slot as u64 / columns as u64);
    line.append(", ");
    push_decimal(&mut line, slot as u64 % columns as u64);
    line.append("] ");
    line.append(name);
    line
}

/// The lines of the first tracks of a preview.
pub open spec fn cell_lines(names: Seq<Seq<char>>, n: int) -> Seq<Seq<char>> {
    Seq::new(n as nat, |i: int| cell_text(i, names.len() as int, names[i]))
}

/// What is said of the tracks of a preview: how many there are, where each is shown, and whether
/// some are not shown. The duration is given as text.
pub open spec fn preview_lines(names: Seq<Seq<char>>, rate: u32, duration: Seq<char>) -> Seq<
    Seq<char>,
> {
    let n = names.len() as int;
    let first = "Loaded "@ + decimal(n) + " channel(s) @ "@ + decimal(rate as int) + "Hz, "@
        + duration + "s:"@;
    let last = "Note: only the first "@ + decimal(cells_of(n))
        + " channels get their own cell (one slot is always the info panel) — every channel still plays."@;
    seq![first] + cell_lines(names, n) + (if n > cells_of(n) {
        seq![last]
    } else {
        Seq::empty()
    })
}

pub fn list_tracks(names: &Vec<String>, rate: u32, duration: &str) -> (r: Vec<String>)
    ensures
        string_views(r@) == preview_lines(string_views(names@), rate, duration@),
{
    let ghost views = string_views(names@);
    let mut first: String = "Loaded ".to_owned();
    push_decimal(&mut first, names.len() as u64);
    first.append(" channel(s) @ ");
    push_decimal(&mut first, rate as u64);
    first.append("Hz, ");
    first.append(duration);
    first.append("s:");
    let ghost head = first@;
    let mut lines: Vec<String> = Vec::new();
    assert(string_views(lines@) =~= Seq::<Seq<char>>::empty());
    push_line(&mut lines, first);
    let mut i: usize = 0;
    assert(string_views(lines@) =~= seq![head] + cell_lines(views, 0));
    while i < names.len()
        invariant
            i <= names.len(),
            views == string_views(names@),
            string_views(lines@) == seq![head] + cell_lines(views, i as int),
        decreases names.len() - i,
    {
        push_line(&mut lines, cell_line(i, names.len(), names[i].as_str()));
        i += 1;
        assert(string_views(lines@) =~= seq![head] + cell_lines(views, i as int));
    }
    let cells: usize = cell_count(names.len());
    let ghost before = string_views(lines@);
    if names.len() > cells {
        let mut last: String = "Note: only the first ".to_owned();
        push_decimal(&mut last, cells as u64);
        last.append(
            " channels get their own cell (one slot is always the info panel) — every channel still plays.",
        );
        push_line(&mut lines, last);
        assert(string_views(lines@) =~= before + seq![last@]);
    } else {
        assert(before + Seq::<Seq<char>>::empty() =~= before);
    }
    lines
}

} // verus!
