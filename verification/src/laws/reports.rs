//! What the commands print tells what was read.
use crate::formats::base::{ModuleView, SampleView};
use crate::formats::vgm::VgmFileView;
use crate::report::{
    beats_of, chip_lines, conversion_text, effect_label, effect_line,
    effect_name_in, emulated_chips, emulated_lines, is_table, joined, known, listed, loop_span,
    module_lines, sample_detail_of, sample_line, sample_lines, song_text, stands_before, stem_lines,
    vgm_lines,
};
use crate::text::{
    decimal, hex_upper, padded_left, padded_right, spaces, trim_end, trim_start, trimmed,
    whitespace,
};
use vstd::prelude::*;

verus! {

/// Whether a text stands at a place of a line.
pub open spec fn stands_at(line: Seq<char>, text: Seq<char>, k: int) -> bool {
    0 <= k && k + text.len() <= line.len() && line.subrange(k, k + text.len()) == text
}

/// Whether a line says a text somewhere.
#[verifier::opaque]
pub open spec fn says(line: Seq<char>, text: Seq<char>) -> bool {
    exists|k: int| stands_at(line, text, k)
}

proof fn lemma_says(line: Seq<char>, before: Seq<char>, text: Seq<char>, after: Seq<char>)
    requires
        line =~= before + text + after,
    ensures
        says(line, text),
{
    reveal(says);
    let k = before.len() as int;
    assert(line.subrange(k, k + text.len()) =~= text);
    assert(stands_at(line, text, k));
}

proof fn lemma_still_says(a: Seq<char>, b: Seq<char>, text: Seq<char>)
    requires
        says(a, text) || says(b, text),
    ensures
        says(a + b, text),
{
    reveal(says);
    if says(a, text) {
        let k = choose|k: int| stands_at(a, text, k);
        assert((a + b).subrange(k, k + text.len()) =~= a.subrange(k, k + text.len()));
        assert(stands_at(a + b, text, k));
    } else {
        let k = choose|k: int| stands_at(b, text, k);
        let n = a.len() as int;
        assert((a + b).subrange(n + k, n + k + text.len()) =~= b.subrange(k, k + text.len()));
        assert(stands_at(a + b, text, n + k));
    }
}

/// A text that is brought to a width is not shorter than the width, keeps what it was, and has
/// nothing but spaces beside it.
pub proof fn law_texts_are_padded(s: Seq<char>, width: int)
    ensures
        padded_right(s, width).len() == if s.len() < width { width } else { s.len() as int },
        padded_left(s, width).len() == padded_right(s, width).len(),
        padded_right(s, width).take(s.len() as int) == s,
        padded_left(s, width).skip(padded_left(s, width).len() - s.len()) == s,
        forall|i: int|
            s.len() <= i < padded_right(s, width).len() ==> padded_right(s, width)[i] == ' ',
        forall|i: int|
            0 <= i < padded_left(s, width).len() - s.len() ==> padded_left(s, width)[i] == ' ',
{
    assert(padded_right(s, width).take(s.len() as int) =~= s);
    assert(padded_left(s, width).skip(padded_left(s, width).len() - s.len()) =~= s);
}

proof fn lemma_trimmed_end(s: Seq<char>) -> (n: int)
    ensures
        0 <= n <= s.len(),
        trim_end(s) == s.take(n),
        n > 0 ==> !whitespace(s[n - 1]),
        forall|i: int| n <= i < s.len() ==> whitespace(#[trigger] s[i]),
    decreases s.len(),
{
    if s.len() > 0 && whitespace(s.last()) {
        let n = lemma_trimmed_end(s.drop_last());
        assert(s.drop_last().take(n) =~= s.take(n));
        assert forall|i: int| n <= i < s.len() implies whitespace(#[trigger] s[i]) by {
            if i < s.len() - 1 {
                assert(s.drop_last()[i] == s[i]);
            }
        }
        n
    } else {
        assert(s.take(s.len() as int) =~= s);
        s.len() as int
    }
}

proof fn lemma_trimmed_start(s: Seq<char>) -> (n: int)
    ensures
        0 <= n <= s.len(),
        trim_start(s) == s.skip(n),
        n < s.len() ==> !whitespace(s[n]),
        forall|i: int| 0 <= i < n ==> whitespace(#[trigger] s[i]),
    decreases s.len(),
{
    if s.len() > 0 && whitespace(s[0]) {
        let n = lemma_trimmed_start(s.drop_first());
        assert(s.drop_first().skip(n) =~= s.skip(n + 1));
        assert forall|i: int| 0 <= i < n + 1 implies whitespace(#[trigger] s[i]) by {
            if i > 0 {
                assert(s.drop_first()[i - 1] == s[i]);
            }
        }
        n + 1
    } else {
        assert(s.skip(0) =~= s);
        0
    }
}

/// Trimming takes the white space at both ends, all of it and nothing else.
pub proof fn law_trimming_takes_the_white_space(s: Seq<char>)
    ensures
        exists|a: int, b: int|
            #![trigger s.subrange(a, b)]
            0 <= a <= b <= s.len() && trimmed(s) == s.subrange(a, b) && (forall|i: int|
                0 <= i < a || b <= i < s.len() ==> whitespace(#[trigger] s[i])),
        trimmed(s).len() > 0 ==> !whitespace(trimmed(s)[0]) && !whitespace(trimmed(s).last()),
{
    let b = lemma_trimmed_end(s);
    let e = s.take(b);
    let a = lemma_trimmed_start(e);
    assert(e.skip(a) =~= s.subrange(a, b));
    assert forall|i: int| 0 <= i < a || b <= i < s.len() implies whitespace(#[trigger] s[i]) by {
        if i < a {
            assert(e[i] == s[i]);
        }
    }
    if a < b {
        assert(e[a] == s[a]);
    }
}

/// A hexadecimal number is written digit by digit, the letters large.
pub proof fn law_hexadecimal_digits(n: int, d: int)
    requires
        0 <= d < 16,
        0 <= n,
    ensures
        d < 10 ==> hex_upper(d) == seq![('0' as int + d) as char],
        d >= 10 ==> hex_upper(d) == seq![('A' as int + d - 10) as char],
        n > 0 ==> hex_upper(16 * n + d) == hex_upper(n) + hex_upper(d),
{
    if n > 0 {
        assert((16 * n + d) / 16 == n && (16 * n + d) % 16 == d);
        assert(hex_upper(16 * n + d) =~= hex_upper(n) + hex_upper(d));
    }
}

proof fn lemma_line_of_sample(s: SampleView)
    ensures
        ({
            let name = if s.name.len() == 0 {
                "(unnamed)"@
            } else {
                s.name
            };
            let tail = if s.loop_length > 0 {
                ", "@ + loop_span(s)
            } else {
                Seq::empty()
            };
            let index = decimal(s.index as int);
            let frames = decimal(s.pcm16.len() as int / 2);
            let volume = decimal(s.volume as int);
            let rate = decimal(s.sample_rate_hz as int);
            let a1 = "  "@ + spaces(2 - index.len()) + (index + ". "@);
            let b2 = a1 + name + spaces(22 - name.len()) + " "@ + spaces(6 - frames.len());
            let b3 = b2 + (frames + " frames"@) + seq![' ', ' ', 'v', 'o', 'l', '='] + spaces(
                2 - volume.len(),
            );
            sample_line(s) == b3 + (volume + "  rate="@) + (rate + "Hz"@) + tail
        }),
{
    reveal_strlit(" frames  vol=");
    reveal_strlit(" frames");
    let name = if s.name.len() == 0 {
        "(unnamed)"@
    } else {
        s.name
    };
    let tail = if s.loop_length > 0 {
        ", "@ + loop_span(s)
    } else {
        Seq::empty()
    };
    let index = decimal(s.index as int);
    let frames = decimal(s.pcm16.len() as int / 2);
    let volume = decimal(s.volume as int);
    let rate = decimal(s.sample_rate_hz as int);
    let a1 = "  "@ + spaces(2 - index.len()) + (index + ". "@);
    let b2 = a1 + name + spaces(22 - name.len()) + " "@ + spaces(6 - frames.len());
    let v = seq![' ', ' ', 'v', 'o', 'l', '='];
    let b3 = b2 + (frames + " frames"@) + v + spaces(2 - volume.len());
    let l1 = "  "@ + padded_left(index, 2) + ". "@;
    assert(l1 =~= a1);
    let l2 = l1 + padded_right(name, 22) + " "@ + padded_left(frames, 6);
    assert(l2 =~= b2 + frames);
    assert(" frames  vol="@ =~= " frames"@ + v);
    let l3 = l2 + " frames  vol="@ + padded_left(volume, 2);
    assert(l3 =~= b3 + volume);
    let l4 = l3 + "  rate="@ + rate + "Hz"@;
    assert(l4 =~= b3 + (volume + "  rate="@) + (rate + "Hz"@));
    assert(sample_line(s) == l4 + tail);
}

proof fn lemma_rate_is_said(a: Seq<char>, rate: Seq<char>)
    ensures
        says(a + "  rate="@ + rate + "Hz"@, "rate="@ + rate + "Hz"@),
        (a + "  rate="@ + rate + "Hz"@).last() == 'z',
{
    reveal_strlit("  rate=");
    reveal_strlit("rate=");
    reveal_strlit("Hz");
    assert("  rate="@ =~= seq![' ', ' '] + "rate="@);
    lemma_says(
        a + "  rate="@ + rate + "Hz"@,
        a + seq![' ', ' '],
        "rate="@ + rate + "Hz"@,
        Seq::empty(),
    );
}

/// The line of a sample says its number, its name, its frames (two bytes each), its volume and its
/// rate, and from where to where it loops; one without a loop ends with its rate.
pub proof fn law_sample_lines_tell_the_sample(s: SampleView)
    ensures
        ({
            let line = sample_line(s);
            &&& says(line, decimal(s.index as int) + ". "@)
            &&& s.name.len() > 0 ==> says(line, s.name)
            &&& s.name.len() == 0 ==> says(line, "(unnamed)"@)
            &&& says(line, decimal(s.pcm16.len() as int / 2) + " frames"@)
            &&& says(line, decimal(s.volume as int) + "  rate="@)
            &&& says(line, "rate="@ + decimal(s.sample_rate_hz as int) + "Hz"@)
            &&& s.loop_length > 0 ==> says(
                line,
                "loop "@ + decimal(s.loop_start as int) + "-"@ + decimal(
                    s.loop_start as int + s.loop_length as int,
                ),
            )
            &&& s.loop_length == 0 ==> line.last() == 'z'
        }),
{
    let line = sample_line(s);
    let name = if s.name.len() == 0 {
        "(unnamed)"@
    } else {
        s.name
    };
    let tail = if s.loop_length > 0 {
        ", "@ + loop_span(s)
    } else {
        Seq::empty()
    };
    let index = decimal(s.index as int);
    let frames = decimal(s.pcm16.len() as int / 2);
    let volume = decimal(s.volume as int);
    let rate = decimal(s.sample_rate_hz as int);
    let t1 = index + ". "@;
    let t3 = frames + " frames"@;
    let t4 = volume + "  rate="@;
    let t5 = "rate="@ + rate + "Hz"@;
    let a1 = "  "@ + spaces(2 - index.len()) + t1;
    let a2 = a1 + name;
    let b2 = a2 + spaces(22 - name.len()) + " "@ + spaces(6 - frames.len());
    let a3 = b2 + t3;
    let b3 = a3 + seq![' ', ' ', 'v', 'o', 'l', '='] + spaces(2 - volume.len());
    let a4 = b3 + t4;
    let a5 = a4 + (rate + "Hz"@);
    lemma_line_of_sample(s);
    assert(line == a5 + tail);
    lemma_says(t1, Seq::empty(), t1, Seq::empty());
    lemma_says(name, Seq::empty(), name, Seq::empty());
    lemma_says(t3, Seq::empty(), t3, Seq::empty());
    lemma_says(t4, Seq::empty(), t4, Seq::empty());
    lemma_still_says("  "@ + spaces(2 - index.len()), t1, t1);
    lemma_still_says(a1, name, t1);
    lemma_still_says(a1, name, name);
    lemma_still_says(a2, spaces(22 - name.len()), t1);
    lemma_still_says(a2, spaces(22 - name.len()), name);
    lemma_still_says(a2 + spaces(22 - name.len()), " "@, t1);
    lemma_still_says(a2 + spaces(22 - name.len()), " "@, name);
    lemma_still_says(a2 + spaces(22 - name.len()) + " "@, spaces(6 - frames.len()), t1);
    lemma_still_says(a2 + spaces(22 - name.len()) + " "@, spaces(6 - frames.len()), name);
    lemma_still_says(b2, t3, t1);
    lemma_still_says(b2, t3, name);
    lemma_still_says(b2, t3, t3);
    let v = seq![' ', ' ', 'v', 'o', 'l', '='];
    lemma_still_says(a3, v, t1);
    lemma_still_says(a3, v, name);
    lemma_still_says(a3, v, t3);
    lemma_still_says(a3 + v, spaces(2 - volume.len()), t1);
    lemma_still_says(a3 + v, spaces(2 - volume.len()), name);
    lemma_still_says(a3 + v, spaces(2 - volume.len()), t3);
    lemma_still_says(b3, t4, t1);
    lemma_still_says(b3, t4, name);
    lemma_still_says(b3, t4, t3);
    lemma_still_says(b3, t4, t4);
    lemma_still_says(a4, rate + "Hz"@, t1);
    lemma_still_says(a4, rate + "Hz"@, name);
    lemma_still_says(a4, rate + "Hz"@, t3);
    lemma_still_says(a4, rate + "Hz"@, t4);
    lemma_rate_is_said(b3 + volume, rate);
    assert(a5 == b3 + volume + "  rate="@ + rate + "Hz"@) by {
        assert(a5 =~= b3 + volume + "  rate="@ + rate + "Hz"@);
    }
    lemma_still_says(a5, tail, t1);
    lemma_still_says(a5, tail, name);
    lemma_still_says(a5, tail, t3);
    lemma_still_says(a5, tail, t4);
    lemma_still_says(a5, tail, t5);
    if s.loop_length > 0 {
        lemma_says(tail, ", "@, loop_span(s), Seq::empty());
        lemma_still_says(a5, tail, loop_span(s));
        assert(loop_span(s) =~= "loop "@ + decimal(s.loop_start as int) + "-"@ + decimal(
            s.loop_start as int + s.loop_length as int,
        ));
    } else {
        assert(line =~= a5);
    }
}

/// Every sample with a sound has its line, and the lines stand in the order of the samples; a
/// sample without a sound has none.
pub proof fn law_sounding_samples_are_listed(samples: Seq<SampleView>, i: int)
    requires
        0 <= i < samples.len(),
    ensures
        samples[i].pcm16.len() > 0 ==> {
            &&& sample_lines(samples.take(i)).len() < sample_lines(samples).len()
            &&& sample_lines(samples)[sample_lines(samples.take(i)).len() as int] == sample_line(
                samples[i],
            )
        },
        samples[i].pcm16.len() == 0 ==> sample_lines(samples.take(i + 1)) == sample_lines(
            samples.take(i),
        ),
        sample_lines(samples).len() <= samples.len(),
    decreases samples.len(),
{
    let next = samples.take(i + 1);
    assert(next.drop_last() =~= samples.take(i));
    assert(next.last() == samples[i]);
    if i == samples.len() - 1 {
        assert(next =~= samples);
        if i > 0 {
            law_sounding_samples_are_listed(samples.drop_last(), 0);
        }
    } else {
        let shorter = samples.drop_last();
        law_sounding_samples_are_listed(shorter, i);
        assert(shorter.take(i) =~= samples.take(i));
        assert(shorter[i] == samples[i]);
    }
}

/// The head of the list says title, format, channels, patterns, restart and the first speed and
/// tempo, each behind its name; the samples follow behind ten lines.
pub proof fn law_modules_are_described(m: ModuleView, effects: Seq<u32>)
    ensures
        ({
            let lines = module_lines(m, effects);
            &&& lines[0] == "Title:      "@ + m.title
            &&& lines[1] == "Format:     "@ + m.source_format
            &&& lines[2] == "Channels:   "@ + decimal(m.num_channels as int)
            &&& lines[3] == "Patterns:   "@ + decimal(m.patterns.len() as int)
            &&& says(lines[4], listed(m.order, false))
            &&& lines[5] == "Restart at: "@ + decimal(m.restart_position as int)
            &&& says(lines[6], decimal(m.initial_speed_ticks as int) + " ticks/row"@)
            &&& says(lines[6], decimal(m.initial_tempo_bpm as int) + " BPM"@)
            &&& effects.len() == 0 ==> says(lines[7], "(none)"@)
            &&& effects.len() > 0 ==> says(lines[7], listed(effects, true))
            &&& lines.skip(10) == sample_lines(m.samples)
        }),
{
    reveal_strlit(" ticks/row, ");
    reveal_strlit(" ticks/row");
    reveal_strlit(" BPM (initial)");
    reveal_strlit(" BPM");
    let lines = module_lines(m, effects);
    let speed = decimal(m.initial_speed_ticks as int);
    let tempo = decimal(m.initial_tempo_bpm as int);
    lemma_says(lines[4], "Order:      ["@, listed(m.order, false), "]"@);
    assert(" ticks/row, "@ =~= " ticks/row"@ + seq![',', ' ']);
    assert(" BPM (initial)"@ =~= " BPM"@ + seq![' ', '(', 'i', 'n', 'i', 't', 'i', 'a', 'l', ')']);
    lemma_says(
        lines[6],
        "Speed/BPM:  "@,
        speed + " ticks/row"@,
        seq![',', ' '] + tempo + " BPM (initial)"@,
    );
    lemma_says(
        lines[6],
        "Speed/BPM:  "@ + speed + " ticks/row, "@,
        tempo + " BPM"@,
        seq![' ', '(', 'i', 'n', 'i', 't', 'i', 'a', 'l', ')'],
    );
    if effects.len() == 0 {
        lemma_says(lines[7], "Effects:    "@, "(none)"@, Seq::empty());
    } else {
        lemma_says(lines[7], "Effects:    "@, listed(effects, true), Seq::empty());
    }
    assert(lines.skip(10) =~= sample_lines(m.samples));
}

/// Numbers are listed in their order, with a comma between two.
pub proof fn law_numbers_are_listed(numbers: Seq<u32>, n: u32)
    ensures
        listed(seq![n], false) == decimal(n as int),
        listed(seq![n], true) == hex_upper(n as int),
        numbers.len() > 0 ==> listed(numbers.push(n), false) == listed(numbers, false) + ", "@
            + decimal(n as int),
        numbers.len() > 0 ==> listed(numbers.push(n), true) == listed(numbers, true) + ", "@
            + hex_upper(n as int),
{
    assert(numbers.push(n).drop_last() =~= numbers);
}

/// Four rows are a beat: the two decimals and what stands before the point are the rows in
/// hundredths of a beat.
pub proof fn law_beats_are_quarters_of_rows(rows: int)
    requires
        0 <= rows,
    ensures
        ({
            let text = beats_of(rows);
            let n = text.len() - 3;
            let tens = text[n + 1] as int - '0' as int;
            let ones = text[n + 2] as int - '0' as int;
            exists|beats: int|
                text.take(n) == #[trigger] decimal(beats) && text[n] == '.' && 100 * beats + 10
                    * tens + ones == 25 * rows
        }),
{
    reveal_strlit(".00");
    reveal_strlit(".25");
    reveal_strlit(".50");
    reveal_strlit(".75");
    let text = beats_of(rows);
    assert(text.take(text.len() - 3) =~= decimal(rows / 4));
}

/// A table puts what occurs more often before what occurs less often, and the smaller of two
/// numbers that occur equally often first; it holds every number that occurs, once.
pub proof fn law_tables_begin_with_the_most_frequent(rows: Seq<(u32, u32)>, counts: Map<u32, u32>)
    requires
        is_table(rows, counts),
    ensures
        forall|i: int, j: int|
            0 <= i < j < rows.len() ==> (#[trigger] rows[i]).1 >= (#[trigger] rows[j]).1
                && rows[i].0 != rows[j].0 && (rows[i].1 == rows[j].1 ==> rows[i].0 < rows[j].0),
        forall|i: int| 0 <= i < rows.len() ==> counts[(#[trigger] rows[i]).0] == rows[i].1,
        forall|code: u32| #[trigger]
            counts.contains_key(code) ==> exists|i: int|
                0 <= i < rows.len() && (#[trigger] rows[i]).0 == code,
{
    assert forall|i: int, j: int| 0 <= i < j < rows.len() implies (#[trigger] rows[i]).1 >= (
    #[trigger] rows[j]).1 && rows[i].0 != rows[j].0 && (rows[i].1 == rows[j].1 ==> rows[i].0
        < rows[j].0) by {
        assert(stands_before(rows[i], rows[j]));
        assert(counts[rows[i].0] == rows[i].1 && counts[rows[j].0] == rows[j].1);
    }
    assert forall|code: u32| #[trigger] counts.contains_key(code) implies exists|i: int|
        0 <= i < rows.len() && (#[trigger] rows[i]).0 == code by {
        let i = choose|i: int| 0 <= i < rows.len() && rows[i] == (code, counts[code]);
        assert(rows[i].0 == code);
    }
}

/// An effect is called by its digit and two letters for its parameter, a part of the extended
/// effect by the letter E, the digit of the part and one letter.
pub proof fn law_effects_are_called_by_their_digits(n: u32)
    requires
        n < 16,
    ensures
        effect_label(n) == hex_upper(n as int) + "xx"@,
        effect_label((0xE0 + n) as u32) == "E"@ + hex_upper(n as int) + "x"@,
{
}

/// The line of an effect says what it is called, its name and how often it occurs.
pub proof fn law_effect_lines_tell_the_effect(xm: bool, row: (u32, u32))
    ensures
        says(effect_line(xm, row), effect_label(row.0)),
        says(effect_line(xm, row), effect_name_in(xm, row.0)),
        says(effect_line(xm, row), " "@ + decimal(row.1 as int) + " occurrence(s)"@),
{
    let line = effect_line(xm, row);
    let label = effect_label(row.0);
    let name = effect_name_in(xm, row.0);
    let times = " "@ + decimal(row.1 as int) + " occurrence(s)"@;
    let named = name + spaces(32 - name.len());
    lemma_says(line, "  "@, label, spaces(5 - label.len()) + " "@ + named + times);
    lemma_says(
        line,
        "  "@ + label + spaces(5 - label.len()) + " "@,
        name,
        spaces(32 - name.len()) + times,
    );
    lemma_says(line, "  "@ + label + spaces(5 - label.len()) + " "@ + named, times, Seq::empty());
}

/// A chip whose clock is told has its line, with its name and its clock; one without a clock has
/// none. The lines stand in the order of the chips.
pub proof fn law_chips_with_a_clock_are_listed(
    list: Seq<(Seq<char>, u32)>,
    name: Seq<char>,
    clock: u32,
)
    ensures
        ({
            let before = emulated_lines(list);
            let after = emulated_lines(list.push((name, clock)));
            &&& clock == 0 ==> after == before
            &&& clock > 0 ==> after.len() == before.len() + 1 && after.drop_last() == before
                && says(after.last(), name) && says(
                after.last(),
                " @ "@ + decimal(clock as int) + " Hz"@,
            )
        }),
{
    let longer = list.push((name, clock));
    assert(longer.drop_last() =~= list);
    let before = emulated_lines(list);
    let after = emulated_lines(longer);
    if clock > 0 {
        let line = chip_lines(name, clock)[0];
        reveal_strlit(" Hz");
        reveal_strlit(" Hz — emulated by convert");
        let text = " Hz — emulated by convert"@;
        assert(text =~= " Hz"@ + text.skip(3));
        lemma_says(line, "  "@, name, " @ "@ + decimal(clock as int) + text);
        lemma_says(line, "  "@ + name, " @ "@ + decimal(clock as int) + " Hz"@, text.skip(3));
        assert(after.last() == line);
        assert(after.drop_last() =~= before);
    } else {
        assert(after =~= before);
    }
}

/// Each chip is listed with its own clock.
pub proof fn law_chips_have_their_own_clock(v: VgmFileView)
    ensures
        ({
            let list = emulated_chips(v);
            &&& says(list[0].0, "YM2413"@) && list[0].1 == v.clocks.ym2413
            &&& says(list[1].0, "AY8910"@) && list[1].1 == v.clocks.ay8910
            &&& says(list[1].0, "YM2149"@) <== v.ay8910_is_ym
            &&& says(list[2].0, "SCC"@) && list[2].1 == v.clocks.scc
            &&& says(list[3].0, "YM3526"@) && list[3].1 == v.clocks.ym3526
            &&& says(list[4].0, "YM3812"@) && list[4].1 == v.clocks.ym3812
            &&& says(list[5].0, "YM2612"@) && list[5].1 == v.clocks.ym2612
            &&& says(list[6].0, "YM2151"@) && list[6].1 == v.clocks.ym2151
            &&& says(list[7].0, "YM2203"@) && list[7].1 == v.clocks.ym2203
            &&& says(list[8].0, "YM2608"@) && list[8].1 == v.clocks.ym2608
            &&& says(list[9].0, "YM2610"@) && list[9].1 == v.clocks.ym2610
            &&& list[10] == ("Sega PCM"@, v.clocks.segapcm)
            &&& says(list[11].0, "RF5C68"@) && list[11].1 == v.clocks.rf5c68
            &&& says(list[12].0, "RF5C164"@) && list[12].1 == v.clocks.rf5c164
            &&& list[13] == ("GameBoy DMG"@, v.clocks.gb_dmg)
            &&& list[14] == ("NES APU"@, v.clocks.nes_apu)
        }),
{
    let list = emulated_chips(v);
    reveal_strlit("YM2413 (OPLL FM)");
    reveal_strlit("YM2413");
    reveal_strlit("AY8910 (PSG) [YM2149-compatible]");
    reveal_strlit("AY8910 (PSG)");
    reveal_strlit("AY8910");
    reveal_strlit("YM2149");
    reveal_strlit("K051649/SCC (Konami)");
    reveal_strlit("SCC");
    reveal_strlit("YM3526 (OPL FM)");
    reveal_strlit("YM3526");
    reveal_strlit("YM3812 (OPL2 FM)");
    reveal_strlit("YM3812");
    reveal_strlit("YM2612 (OPN2 FM, Sega Genesis/Mega Drive)");
    reveal_strlit("YM2612");
    reveal_strlit("YM2151 (OPM FM, arcade/X68000)");
    reveal_strlit("YM2151");
    reveal_strlit("YM2203 (OPN FM)");
    reveal_strlit("YM2203");
    reveal_strlit("YM2608 (OPNA FM)");
    reveal_strlit("YM2608");
    reveal_strlit("YM2610 (OPNB FM, Neo Geo)");
    reveal_strlit("YM2610");
    reveal_strlit("RF5C68 (PCM)");
    reveal_strlit("RF5C68");
    reveal_strlit("RF5C164 (PCM)");
    reveal_strlit("RF5C164");
    lemma_said_at(list[0].0, "YM2413"@, 0);
    lemma_said_at(list[1].0, "AY8910"@, 0);
    if v.ay8910_is_ym {
        lemma_said_at(list[1].0, "YM2149"@, 14);
    }
    lemma_said_at(list[2].0, "SCC"@, 8);
    lemma_said_at(list[3].0, "YM3526"@, 0);
    lemma_said_at(list[4].0, "YM3812"@, 0);
    lemma_said_at(list[5].0, "YM2612"@, 0);
    lemma_said_at(list[6].0, "YM2151"@, 0);
    lemma_said_at(list[7].0, "YM2203"@, 0);
    lemma_said_at(list[8].0, "YM2608"@, 0);
    lemma_said_at(list[9].0, "YM2610"@, 0);
    lemma_said_at(list[11].0, "RF5C68"@, 0);
    lemma_said_at(list[12].0, "RF5C164"@, 0);
}

proof fn lemma_said_at(line: Seq<char>, text: Seq<char>, k: int)
    requires
        0 <= k && k + text.len() <= line.len(),
        forall|i: int| 0 <= i < text.len() ==> line[k + i] == #[trigger] text[i],
    ensures
        says(line, text),
{
    reveal(says);
    assert(line.subrange(k, k + text.len()) =~= text);
    assert(stands_at(line, text, k));
}

/// The head of the list of a recording says its tags, what is not told being called unknown, how
/// many samples it lasts, and where it loops if it does.
pub proof fn law_recordings_are_described(
    v: VgmFileView,
    duration: Seq<char>,
    loop_start: Seq<char>,
    loop_length: Seq<char>,
)
    ensures
        ({
            let lines = vgm_lines(v, duration, loop_start, loop_length);
            &&& lines[0] == "Title:      "@ + known(v.tags.title)
            &&& lines[1] == "Game:       "@ + known(v.tags.game)
            &&& lines[2] == "System:     "@ + known(v.tags.system)
            &&& lines[3] == "Author:     "@ + known(v.tags.author)
            &&& says(lines[5], duration + "s ("@ + decimal(v.total_samples as int) + " samples"@)
            &&& v.loop_start_sample is None ==> lines[6] == "Loop:       (none)"@
            &&& v.loop_start_sample is Some ==> says(lines[6], "from "@ + loop_start) && says(
                lines[6],
                loop_length + "s long"@,
            )
        }),
        forall|t: Seq<char>| #[trigger] known(Some(t)) == t,
        known(None) == "(unknown)"@,
{
    let lines = vgm_lines(v, duration, loop_start, loop_length);
    reveal_strlit(" samples @ 44100Hz)");
    reveal_strlit(" samples");
    let text = " samples @ 44100Hz)"@;
    assert(text =~= " samples"@ + text.skip(8));
    lemma_says(
        lines[5],
        "Duration:   "@,
        duration + "s ("@ + decimal(v.total_samples as int) + " samples"@,
        text.skip(8),
    );
    if v.loop_start_sample is Some {
        reveal_strlit("Loop:       from ");
        reveal_strlit("from ");
        let head = "Loop:       from "@;
        assert(head =~= head.take(12) + "from "@);
        lemma_says(lines[6], head.take(12), "from "@ + loop_start, "s, "@ + loop_length + "s long"@);
        lemma_says(lines[6], head + loop_start + "s, "@, loop_length + "s long"@, Seq::empty());
    }
}

/// Where there is nothing to write, a warning is given and nothing is said to be written; else the
/// number of the stems is said, and where the recording loops they are said to be split.
pub proof fn law_conversions_are_told(stems: int, looped: bool, verbose: bool)
    requires
        stems >= 0,
    ensures
        stems == 0 ==> (conversion_text(stems, looped, verbose) matches Some(t) && says(
            t,
            "Warning"@,
        )),
        stems > 0 && !verbose ==> conversion_text(stems, looped, verbose) is None,
        stems > 0 && verbose ==> (conversion_text(stems, looped, verbose) matches Some(t) && says(
            t,
            decimal(stems) + " WAV track(s)"@,
        ) && says(
            t,
            if looped {
                "intro+loop"@
            } else {
                "full-length"@
            },
        )),
{
    if stems == 0 {
        reveal_strlit("\nWarning: the project has no tracks. None of this file's music data is on a chip this converter emulates — run `ablemod list` on it to see which chip(s) actually carry the music.");
        reveal_strlit("Warning");
        lemma_said_at(conversion_text(stems, looped, verbose)->0, "Warning"@, 1);
    } else if verbose {
        reveal_strlit(" WAV track(s)");
        let t = conversion_text(stems, looped, verbose)->0;
        let n = decimal(stems);
        if looped {
            reveal_strlit(" WAV track(s), each split into intro+loop clips at the file's declared loop point");
            reveal_strlit("intro+loop");
            let text = " WAV track(s), each split into intro+loop clips at the file's declared loop point"@;
            lemma_said_at(text, "intro+loop"@, 31);
            lemma_still_says("Verbose: "@ + n, text, "intro+loop"@);
            assert(text =~= " WAV track(s)"@ + text.skip(13));
            lemma_says(t, "Verbose: "@, n + " WAV track(s)"@, text.skip(13));
        } else {
            reveal_strlit(" WAV track(s) (no declared loop point — one full-length clip each)");
            reveal_strlit("full-length");
            let text = " WAV track(s) (no declared loop point — one full-length clip each)"@;
            lemma_said_at(text, "full-length"@, 44);
            lemma_still_says("Verbose: "@ + n, text, "full-length"@);
            assert(text =~= " WAV track(s)"@ + text.skip(13));
            lemma_says(t, "Verbose: "@, n + " WAV track(s)"@, text.skip(13));
        }
    }
}

proof fn lemma_joined_says(list: Seq<Seq<char>>, between: Seq<char>, i: int)
    requires
        0 <= i < list.len(),
    ensures
        says(joined(list, between), list[i]),
    decreases list.len(),
{
    let last = list.len() - 1;
    if list.len() == 1 {
        lemma_says(list[0], Seq::empty(), list[0], Seq::empty());
    } else if i == last {
        lemma_says(
            joined(list, between),
            joined(list.drop_last(), between) + between,
            list[i],
            Seq::empty(),
        );
    } else {
        lemma_joined_says(list.drop_last(), between, i);
        assert(list.drop_last()[i] == list[i]);
        lemma_still_says(joined(list.drop_last(), between), between, list[i]);
        lemma_still_says(joined(list.drop_last(), between) + between, list.last(), list[i]);
    }
}

/// What is written is told by its number and its place, and by every name where that is asked for.
pub proof fn law_written_stems_are_told(
    names: Seq<Seq<char>>,
    dir: Seq<char>,
    verbose: bool,
    i: int,
)
    requires
        0 <= i < names.len(),
    ensures
        stem_lines(names, dir, verbose)[0] == "wrote "@ + decimal(names.len() as int)
            + " track(s) to "@ + dir,
        stem_lines(names, dir, verbose).len() == if verbose { 2int } else { 1int },
        verbose ==> says(stem_lines(names, dir, verbose)[1], names[i]),
{
    if verbose {
        lemma_joined_says(names, ", "@, i);
        lemma_still_says("Verbose: "@, joined(names, ", "@), names[i]);
    }
}

/// The detail of a sample says its frames, its rate, its volume, and its loop if it has one.
pub proof fn law_sample_details_tell_the_sample(s: SampleView)
    ensures
        ({
            let line = sample_detail_of(s);
            let frames = decimal(s.pcm16.len() as int / 2) + " frames"@;
            &&& says(line, frames)
            &&& says(line, decimal(s.sample_rate_hz as int) + "Hz, volume="@ + decimal(s.volume as int))
            &&& s.loop_length == 0 ==> says(line, "no loop"@)
            &&& s.loop_length > 0 ==> says(line, "loop "@ + decimal(s.loop_start as int) + "-"@
                + decimal(s.loop_start as int + s.loop_length as int))
        }),
{
    reveal_strlit(" frames, ");
    reveal_strlit(" frames");
    let line = sample_detail_of(s);
    let n = decimal(s.pcm16.len() as int / 2);
    let rate = decimal(s.sample_rate_hz as int);
    let volume = decimal(s.volume as int);
    let tail = if s.loop_length > 0 {
        loop_span(s)
    } else {
        "no loop"@
    };
    let text = " frames, "@;
    assert(text =~= " frames"@ + text.skip(7));
    let rest = rate + "Hz, volume="@ + volume;
    lemma_says(line, "  Verbose: "@, n + " frames"@, text.skip(7) + rest + ", "@ + tail);
    lemma_says(line, "  Verbose: "@ + n + text, rest, ", "@ + tail);
    lemma_says(line, "  Verbose: "@ + n + text + rest + ", "@, tail, Seq::empty());
}

/// The summary of a song says its notes, its tempo changes and its beats.
pub proof fn law_songs_are_summed_up(tracks: Option<u64>, notes: u64, changes: int, rows: int)
    ensures
        ({
            let line = song_text(tracks, notes, changes, rows);
            &&& says(line, decimal(notes as int) + " note(s), "@ + decimal(changes)
                + " tempo change(s), "@ + beats_of(rows) + " beats"@)
            &&& tracks matches Some(n) ==> says(line, decimal(n as int) + " track(s)"@)
        }),
{
    reveal_strlit(" beats total");
    reveal_strlit(" beats");
    reveal_strlit(" track(s), ");
    reveal_strlit(" track(s)");
    let line = song_text(tracks, notes, changes, rows);
    let first = match tracks {
        Some(n) => decimal(n as int) + " track(s), "@,
        None => Seq::empty(),
    };
    let body = decimal(notes as int) + " note(s), "@ + decimal(changes) + " tempo change(s), "@
        + beats_of(rows);
    let end = " beats total"@;
    assert(end =~= " beats"@ + end.skip(6));
    lemma_says(line, "Verbose: "@ + first, body + " beats"@, end.skip(6));
    if let Some(n) = tracks {
        let t = " track(s), "@;
        assert(t =~= " track(s)"@ + t.skip(9));
        lemma_says(line, "Verbose: "@, decimal(n as int) + " track(s)"@, t.skip(9) + body + end);
    }
}

} // verus!
