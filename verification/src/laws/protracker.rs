//! What a ProTracker file says, and what is read of it.
use crate::formats::protracker::{
    cell_of, complete, largest, lemma_sound_grows, law_smaller_periods_are_no_lower,
    law_table_periods_keep_their_note, module_of, note_of_period, num_channels, num_patterns,
    num_samples, order_table, patterns_at, period, sample_length, sample_of, song_at, sound_at,
    widened,
};
use vstd::prelude::*;

verus! {

/// The four bytes at a place of a file hold a sample number, a period, an effect and its
/// parameter, as a ProTracker packs them: the digits of the sample number stand apart, the high
/// one above the period and the low one above the effect.
pub open spec fn packed_at(
    data: Seq<u8>,
    at: int,
    sample: int,
    period: int,
    effect: int,
    param: int,
) -> bool {
    &&& 0 <= sample < 256
    &&& 0 <= period < 4096
    &&& 0 <= effect < 16
    &&& 0 <= param < 256
    &&& data[at] == (sample / 16) * 16 + period / 256
    &&& data[at + 1] == period % 256
    &&& data[at + 2] == (sample % 16) * 16 + effect
    &&& data[at + 3] == param
}

proof fn lemma_packed_cell(
    data: Seq<u8>,
    at: int,
    sample: int,
    period: int,
    effect: int,
    param: int,
)
    requires
        packed_at(data, at, sample, period, effect, param),
    ensures
        ({
            let c = cell_of(data[at], data[at + 1], data[at + 2], data[at + 3]);
            &&& c.sample_index == if sample == 0 {
                None
            } else {
                Some(sample as u32)
            }
            &&& c.midi_note == if period == 0 {
                None
            } else {
                Some(note_of_period(period))
            }
            &&& c.effect == if effect == 0 && param == 0 {
                None
            } else {
                Some(effect as u32)
            }
            &&& c.effect_param == if effect == 0 && param == 0 {
                None
            } else {
                Some(param as u32)
            }
            &&& c.volume == if effect != 12 {
                None
            } else if param >= 64 {
                Some(64u32)
            } else {
                Some(param as u32)
            }
            &&& !c.note_off
        }),
{
    let b0 = data[at];
    let b2 = data[at + 2];
    assert(b0 / 16 == sample / 16 && b0 % 16 == period / 256) by (nonlinear_arith)
        requires
            b0 == (sample / 16) * 16 + period / 256,
            0 <= period / 256 < 16,
            0 <= sample,
    ;
    assert(b2 / 16 == sample % 16 && b2 % 16 == effect) by (nonlinear_arith)
        requires
            b2 == (sample % 16) * 16 + effect,
            0 <= effect < 16,
            0 <= sample,
    ;
}

/// What is packed into a cell is read back: the sample number with both of its digits, 0 for
/// none; the effect and its parameter, where they are not both 0; a volume, at most 64, from Set
/// Volume alone; and a note from any period but 0. This holds of every cell of the file: the
/// patterns stand behind the header, each of 64 rows, and each row holds a cell for every channel.
pub proof fn law_cells_are_read_back(
    data: Seq<u8>,
    p: int,
    r: int,
    c: int,
    sample: int,
    period: int,
    effect: int,
    param: int,
)
    requires
        0 <= p < module_of(data).patterns.len(),
        0 <= r < 64,
        0 <= c < module_of(data).num_channels <= 99,
        packed_at(
            data,
            (if module_of(data).samples.len() == 31 {
                1084int
            } else {
                600
            }) + ((p * 64 + r) * module_of(data).num_channels + c) * 4,
            sample,
            period,
            effect,
            param,
        ),
    ensures
        module_of(data).patterns[p].len() == 64,
        module_of(data).patterns[p][r].len() == module_of(data).num_channels,
        ({
            let cell = module_of(data).patterns[p][r][c];
            &&& cell.sample_index == if sample == 0 {
                None
            } else {
                Some(sample as u32)
            }
            &&& cell.midi_note is Some <==> period != 0
            &&& cell.effect == if effect == 0 && param == 0 {
                None
            } else {
                Some(effect as u32)
            }
            &&& cell.effect_param == if effect == 0 && param == 0 {
                None
            } else {
                Some(param as u32)
            }
            &&& cell.volume == if effect != 12 {
                None
            } else if param >= 64 {
                Some(64u32)
            } else {
                Some(param as u32)
            }
            &&& !cell.note_off
        }),
{
    lemma_channels_fit(data);
    let n = num_channels(data);
    let m = module_of(data);
    let at = patterns_at(data) + p * (64 * (4 * n)) + r * (4 * n) + 4 * c;
    assert(((p * 64 + r) * n + c) * 4 == p * (64 * (4 * n)) + r * (4 * n) + 4 * c)
        by (nonlinear_arith);
    assert(m.patterns[p][r][c] == cell_of(data[at], data[at + 1], data[at + 2], data[at + 3]));
    lemma_packed_cell(data, at, sample, period, effect, param);
}

proof fn lemma_channels_fit(data: Seq<u8>)
    ensures
        0 <= num_channels(data) <= 99,
        module_of(data).num_channels == num_channels(data),
        module_of(data).samples.len() == 31 || module_of(data).samples.len() == 15,
{
}

/// The note of a cell is the one whose period, among those of three octaves, is nearest to the
/// cell's; a smaller period is never a lower note; and twice the period is the same note an
/// octave lower, so 428 is middle C, 856 the C below and 214 the one above.
pub proof fn law_periods_are_notes(p: int, q: int)
    requires
        0 < p <= q,
    ensures
        note_of_period(p) >= note_of_period(q),
        48 <= note_of_period(q) <= note_of_period(p) <= 83,
        note_of_period(428) == 60,
        note_of_period(856) == 48,
        note_of_period(214) == 72,
        note_of_period(113) == 83,
{
    law_smaller_periods_are_no_lower(p, q);
    law_smaller_periods_are_no_lower(q, q);
    law_table_periods_keep_their_note(0);
    law_table_periods_keep_their_note(12);
    law_table_periods_keep_their_note(24);
    law_table_periods_keep_their_note(35);
    assert(period(0) == 856 && period(24) == 214 && period(35) == 113);
}

/// The twelfth power.
pub open spec fn pow12(x: int) -> int {
    let x3 = x * x * x;
    let x6 = x3 * x3;
    x6 * x6
}

/// The periods of the notes are those of equal temperament, to within two units: twelve steps
/// down from 856, each by the twelfth root of two.
pub proof fn law_periods_are_tempered(k: int, up: int)
    requires
        0 <= k < 12,
        up == vstd::arithmetic::power2::pow2(k as nat),
    ensures
        pow12(period(k) - 2) * up <= pow12(856) <= pow12(period(k) + 2) * up,
        2 * period(12 + k) <= period(k) <= 2 * period(12 + k) + 1,
        4 * period(24 + k) <= period(k) <= 4 * period(24 + k) + 3,
{
    vstd::arithmetic::power2::lemma2_to64();
    if k == 0 {
        assert(period(0) == 856);
        assert(pow12(854) * 1 <= pow12(856) <= pow12(858) * 1) by (nonlinear_arith);
    }
    if k == 1 {
        assert(period(1) == 808);
        assert(pow12(806) * 2 <= pow12(856) <= pow12(810) * 2) by (nonlinear_arith);
    }
    if k == 2 {
        assert(period(2) == 762);
        assert(pow12(760) * 4 <= pow12(856) <= pow12(764) * 4) by (nonlinear_arith);
    }
    if k == 3 {
        assert(period(3) == 720);
        assert(pow12(718) * 8 <= pow12(856) <= pow12(722) * 8) by (nonlinear_arith);
    }
    if k == 4 {
        assert(period(4) == 678);
        assert(pow12(676) * 16 <= pow12(856) <= pow12(680) * 16) by (nonlinear_arith);
    }
    if k == 5 {
        assert(period(5) == 640);
        assert(pow12(638) * 32 <= pow12(856) <= pow12(642) * 32) by (nonlinear_arith);
    }
    if k == 6 {
        assert(period(6) == 604);
        assert(pow12(602) * 64 <= pow12(856) <= pow12(606) * 64) by (nonlinear_arith);
    }
    if k == 7 {
        assert(period(7) == 570);
        assert(pow12(568) * 128 <= pow12(856) <= pow12(572) * 128) by (nonlinear_arith);
    }
    if k == 8 {
        assert(period(8) == 538);
        assert(pow12(536) * 256 <= pow12(856) <= pow12(540) * 256) by (nonlinear_arith);
    }
    if k == 9 {
        assert(period(9) == 508);
        assert(pow12(506) * 512 <= pow12(856) <= pow12(510) * 512) by (nonlinear_arith);
    }
    if k == 10 {
        assert(period(10) == 480);
        assert(pow12(478) * 1024 <= pow12(856) <= pow12(482) * 1024) by (nonlinear_arith);
    }
    if k == 11 {
        assert(period(11) == 453);
        assert(pow12(451) * 2048 <= pow12(856) <= pow12(455) * 2048) by (nonlinear_arith);
    }
}

/// A tag of a digit and CHN gives that many channels, one of two digits and CH the number that
/// they make, and ProTracker's own M.K. four. All of them say that there are 31 samples; without
/// a known tag there are 15, and four channels.
pub proof fn law_tags_count_channels(data: Seq<u8>, tens: int, ones: int)
    requires
        data.len() >= 1084,
        0 <= tens <= 9,
        0 <= ones <= 9,
    ensures
        data[1080] == 48 + ones && data[1081] == 67 && data[1082] == 72 && data[1083] == 78
            ==> module_of(data).num_channels == ones && module_of(data).samples.len() == 31,
        data[1080] == 48 + tens && data[1081] == 48 + ones && data[1082] == 67 && data[1083] == 72
            ==> module_of(data).num_channels == 10 * tens + ones && module_of(data).samples.len()
            == 31,
        data[1080] == 77 && data[1081] == 46 && data[1082] == 75 && data[1083] == 46 ==> module_of(
            data,
        ).num_channels == 4 && module_of(data).samples.len() == 31,
        data[1080] == 0 ==> module_of(data).num_channels == 4
            && module_of(data).samples.len() == 15,
{
    let t = data.subrange(1080, 1084);
    assert(t.len() == 4);
    assert(t[0] == data[1080] && t[1] == data[1081] && t[2] == data[1082] && t[3] == data[1083]);
    let mk = seq![0x4Du8, 0x2E, 0x4B, 0x2E];
    if data[1080] == 77 && data[1081] == 46 && data[1082] == 75 && data[1083] == 46 {
        assert(t =~= mk);
    }
    let known = seq![
        mk,
        seq![0x4Du8, 0x21, 0x4B, 0x21],
        seq![0x4Du8, 0x26, 0x4B, 0x21],
        seq![0x4Eu8, 0x2E, 0x54, 0x2E],
        seq![0x46u8, 0x4C, 0x54, 0x34],
        seq![0x46u8, 0x4C, 0x54, 0x38],
        seq![0x43u8, 0x44, 0x38, 0x31],
        seq![0x4Fu8, 0x4B, 0x54, 0x41],
        seq![0x4Fu8, 0x43, 0x54, 0x41],
        seq![0x31u8, 0x36, 0x43, 0x4E],
        seq![0x33u8, 0x32, 0x43, 0x4E],
    ];
    assert(forall|k: int| 0 <= k < 11 ==> (#[trigger] known[k]).len() == 4);
    assert(mk[0] == 0x4D && mk[3] == 0x2E);
    assert(known[1][0] == 0x4D && known[2][0] == 0x4D && known[3][0] == 0x4E && known[4][0] == 0x46
        && known[5][0] == 0x46 && known[6][0] == 0x43 && known[7][0] == 0x4F && known[8][0]
        == 0x4F);
    assert(known[9][3] == 0x4E && known[9][2] == 0x43 && known[10][3] == 0x4E && known[10][2]
        == 0x43 && known[9][0] == 0x31 && known[10][0] == 0x33);
}

/// Where the song stands in a file: behind the title and the headers of its samples.
pub open spec fn song_start(data: Seq<u8>) -> int {
    if module_of(data).samples.len() == 31 {
        950
    } else {
        470
    }
}

/// The order of the song is as long as its first byte says, and lists the bytes from the third
/// on; the second is where it starts over. There are patterns up to the largest number of the
/// whole table of 128, and no more. A song starts at 125 beats per minute and 6 ticks a row.
pub proof fn law_song_is_read(data: Seq<u8>, k: int)
    requires
        data.len() >= 1084,
        data[song_start(data)] <= 128,
        0 <= k < 128,
    ensures
        ({
            let m = module_of(data);
            let at = song_start(data);
            &&& m.order.len() == data[at]
            &&& k < data[at] ==> m.order[k] == data[at + 2 + k]
            &&& m.restart_position == data[at + 1]
            &&& data[at + 2 + k] < m.patterns.len()
            &&& exists|j: int| 0 <= j < 128 && #[trigger] data[at + 2 + j] == m.patterns.len() - 1
            &&& m.initial_tempo_bpm == 125
            &&& m.initial_speed_ticks == 6
            &&& !m.linear_frequency_table
        }),
{
    lemma_channels_fit(data);
    let at = song_start(data);
    assert(at == song_at(data));
    let t = order_table(data);
    lemma_largest(t);
    assert(t[k] == data[at + 2 + k]);
    let j = choose|j: int| 0 <= j < t.len() && t[j] == largest(t);
    assert(t[j] == data[at + 2 + j]);
}

proof fn lemma_largest(s: Seq<u8>)
    requires
        s.len() > 0,
    ensures
        forall|i: int|
            0 <= i < s.len() ==> #[trigger] s[i] <= largest(s),
        exists|i: int| 0 <= i < s.len() && s[i] == largest(s),
    decreases s.len(),
{
    let d = s.drop_last();
    if d.len() > 0 {
        lemma_largest(d);
        let j = choose|j: int| 0 <= j < d.len() && d[j] == largest(d);
        assert(s[j] == d[j]);
        assert forall|i: int| 0 <= i < s.len() implies #[trigger] s[i]
            <= largest(s) by {
            if i < d.len() {
                assert(s[i] == d[i]);
            }
        }
        assert(s[s.len() - 1] == s.last());
    } else {
        assert(largest(d) == 0);
        assert(s[0] == s.last());
    }
}

/// The bytes of the sounds of the first `n` samples.
pub open spec fn bytes_of_sounds(data: Seq<u8>, n: int) -> int
    decreases n,
{
    if n <= 0 {
        0
    } else {
        bytes_of_sounds(data, n - 1) + module_of(data).samples[n - 1].pcm16.len() / 2
    }
}

/// A sample has as many frames as its header says, in words of two bytes, and each frame is the
/// byte of the file as the high byte of a 16-bit number. Lengths and loops count words; a loop of
/// a word or none is no loop. The fine tuning is the low digit as a signed number. The sounds
/// follow one another behind the patterns.
pub proof fn law_samples_are_read(data: Seq<u8>, i: int, k: int)
    requires
        complete(data),
        0 <= i < module_of(data).samples.len(),
    ensures
        ({
            let s = module_of(data).samples[i];
            let h = 20 + 30 * i;
            let m = module_of(data);
            let start = (if m.samples.len() == 31 {
                1084int
            } else {
                600
            }) + m.patterns.len() * m.num_channels * 256 + bytes_of_sounds(data, i);
            &&& s.index == i + 1
            &&& s.pcm16.len() == 4 * (256 * data[h + 22] + data[h + 23])
            &&& -8 <= s.finetune < 8
            &&& (s.finetune - data[h + 24]) % 16 == 0
            &&& s.volume <= 64
            &&& data[h + 25] <= 64 ==> s.volume == data[h + 25]
            &&& data[h + 25] > 64 ==> s.volume == 64
            &&& s.loop_start == 2 * (256 * data[h + 26] + data[h + 27])
            &&& s.loop_length == 2 * (256 * data[h + 28] + data[h + 29]) || s.loop_length == 0
            &&& s.loop_length == 0 <==> 256 * data[h + 28] + data[h + 29] <= 1
            &&& s.base_note == 60
            &&& s.pan == 0
            &&& s.volume_envelope is None && s.panning_envelope is None
            &&& 0 <= k < s.pcm16.len() / 2 ==> s.pcm16[2 * k] == 0
                && s.pcm16[2 * k + 1] == data[start + k]
        }),
{
    lemma_channels_fit(data);
    lemma_sounds(data, i);
    let m = module_of(data);
    let n = num_channels(data);
    let at = sound_at(data, i);
    let len = sample_length(data, i);
    let start = patterns_at(data) + m.patterns.len() * m.num_channels * 256 + bytes_of_sounds(
        data,
        i,
    );
    assert(m.samples[i] == sample_of(data, i));
    assert(m.patterns.len() * n * 256 == num_patterns(data) * (64 * (4 * n))) by (nonlinear_arith)
        requires
            m.patterns.len() == num_patterns(data),
    ;
    assert(at == start);
    lemma_sound_grows(data, i + 1, num_samples(data));
    lemma_sound_grows(data, 0, i);
    if 0 <= k < len {
        let raw = data.subrange(at, at + len);
        assert(widened(raw)[2 * k] == 0);
        assert(widened(raw)[2 * k + 1] == raw[k]);
    }
}

proof fn lemma_sounds(data: Seq<u8>, i: int)
    requires
        complete(data),
        0 <= i <= module_of(data).samples.len(),
    ensures
        sound_at(data, i) == sound_at(data, 0) + bytes_of_sounds(data, i),
        forall|j: int|
            0 <= j < module_of(data).samples.len() ==> (#[trigger] module_of(
                data,
            ).samples[j]).pcm16.len() == 2 * sample_length(data, j),
    decreases i,
{
    assert forall|j: int| 0 <= j < module_of(data).samples.len() implies (#[trigger] module_of(
        data,
    ).samples[j]).pcm16.len() == 2 * sample_length(data, j) by {
        lemma_sound_grows(data, 0, j);
        lemma_sound_grows(data, j + 1, num_samples(data));
        assert(module_of(data).samples[j] == sample_of(data, j));
    }
    if i > 0 {
        lemma_sounds(data, i - 1);
        assert(module_of(data).samples[i - 1].pcm16.len() == 2 * sample_length(data, i - 1));
    }
}

} // verus!
