//! What a VGM file says, and what is read of it.
use crate::formats::vgm::{
    behind, kind, loop_byte, loop_marked, none_seen, note_chip, parsed, run_stream, step,
    stream_start, tag_texts, text_end, units, Chip, Kind, RegisterWrite, Seen, StreamView,
};
use crate::laws::fasttracker2::{long, word};
use crate::text::utf16_text;
use vstd::prelude::*;

verus! {

/// The chip that a command writes a register of.
pub open spec fn written_chip(cmd: u8) -> Option<Chip> {
    if cmd == 0x51 {
        Some(Chip::Ym2413)
    } else if cmd == 0x5A {
        Some(Chip::Ym3812)
    } else if cmd == 0x5B {
        Some(Chip::Ym3526)
    } else if cmd == 0xA0 {
        Some(Chip::Ay8910)
    } else {
        None
    }
}

/// How many samples a command of one byte waits: a frame of 60 or 50 to the second of 44100, or
/// one to sixteen.
pub open spec fn short_wait(cmd: u8) -> Option<int> {
    if cmd == 0x62 {
        Some(44100int / 60)
    } else if cmd == 0x63 {
        Some(44100int / 50)
    } else if 0x70 <= cmd <= 0x7F {
        Some(cmd - 0x70 + 1)
    } else {
        None
    }
}

/// A command with a chip, a register and a value logs that write at its time, and one that waits
/// only lets time pass: the two bytes behind 0x61, the low one first, or a time of its own. None
/// of them changes what was logged before.
pub proof fn law_commands_write_and_wait(data: Seq<u8>, s: StreamView)
    requires
        0 <= s.pos < data.len(),
    ensures
        ({
            let cmd = data[s.pos];
            let next = step(data, s);
            &&& written_chip(cmd) matches Some(chip) ==> {
                &&& next is Ok <==> s.pos + 3 <= data.len()
                &&& next matches Ok(t) ==> t == (StreamView {
                    pos: s.pos + 3,
                    writes: s.writes.push(
                        RegisterWrite {
                            at_sample: s.at_sample,
                            chip,
                            port: 0,
                            reg: data[s.pos + 1],
                            value: data[s.pos + 2],
                        },
                    ),
                    ..s
                })
            }
            &&& cmd == 0xD2 ==> {
                &&& next is Ok <==> s.pos + 4 <= data.len()
                &&& next matches Ok(t) ==> t == (StreamView {
                    pos: s.pos + 4,
                    writes: s.writes.push(
                        RegisterWrite {
                            at_sample: s.at_sample,
                            chip: Chip::Scc,
                            port: data[s.pos + 1],
                            reg: data[s.pos + 2],
                            value: data[s.pos + 3],
                        },
                    ),
                    ..s
                })
            }
            &&& cmd == 0x61 ==> {
                &&& next is Ok <==> s.pos + 3 <= data.len()
                &&& next matches Ok(t) ==> t.pos == s.pos + 3 && t == (StreamView {
                    pos: t.pos,
                    at_sample: t.at_sample,
                    ..s
                }) && (s.at_sample + word(data, s.pos + 1) <= u64::MAX ==> t.at_sample
                    == s.at_sample + word(data, s.pos + 1))
            }
            &&& short_wait(cmd) matches Some(wait) ==> (next matches Ok(t) && t.pos == s.pos + 1
                && t == (StreamView { pos: t.pos, at_sample: t.at_sample, ..s }) && (s.at_sample
                + wait <= u64::MAX ==> t.at_sample == s.at_sample + wait))
        }),
{
    reveal(kind);
    assert(0x70 <= data[s.pos] <= 0x7F ==> data[s.pos] % 16 == data[s.pos] - 0x70);
}

/// The sizes of the commands that are passed over: three bytes or four, as their class has it,
/// and a block of data is as long as its own four bytes say, behind the seven of its head.
pub proof fn law_other_commands_are_passed_over(data: Seq<u8>, s: StreamView)
    requires
        0 <= s.pos < data.len(),
    ensures
        ({
            let cmd = data[s.pos];
            let next = step(data, s);
            let three = 0x52 <= cmd <= 0x59 || 0x5C <= cmd <= 0x5F || 0xA1 <= cmd <= 0xAF || 0xB0
                <= cmd <= 0xBF;
            let four = 0xC0 <= cmd <= 0xC8 || 0xD0 <= cmd <= 0xD6 && cmd != 0xD2;
            &&& three && s.pos + 3 <= data.len() ==> (next matches Ok(t) && t.pos == s.pos + 3)
            &&& four && s.pos + 4 <= data.len() ==> (next matches Ok(t) && t.pos == s.pos + 4)
            &&& three || four ==> (next matches Ok(t) && t.writes == s.writes && t.at_sample
                == s.at_sample && t.loop_start == s.loop_start)
            &&& cmd == 0x67 && s.pos + 7 <= data.len() ==> (next matches Ok(t) && t.writes
                == s.writes && t.at_sample == s.at_sample && (s.pos + 7 + long(data, s.pos + 3)
                <= data.len() ==> t.pos == s.pos + 7 + long(data, s.pos + 3)))
        }),
{
    reveal(kind);
}

/// A chip is noted once one of its commands was read, and by no other chip's.
pub proof fn law_chips_are_noted(s: Seen, cmd: u8)
    ensures
        ({
            let t = note_chip(s, cmd);
            &&& t.ym2612 <==> s.ym2612 || cmd == 0x52 || cmd == 0x53
            &&& t.ym2151 <==> s.ym2151 || cmd == 0x54
            &&& t.ym2203 <==> s.ym2203 || cmd == 0x55
            &&& t.ym2608 <==> s.ym2608 || cmd == 0x56 || cmd == 0x57
            &&& t.ym2610 <==> s.ym2610 || cmd == 0x58 || cmd == 0x59
            &&& t.rf5c68 <==> s.rf5c68 || cmd == 0xB0 || cmd == 0xC1
            &&& t.rf5c164 <==> s.rf5c164 || cmd == 0xB1 || cmd == 0xC2
            &&& t.gb_dmg <==> s.gb_dmg || cmd == 0xB3
            &&& t.nes_apu <==> s.nes_apu || cmd == 0xB4
            &&& t.segapcm <==> s.segapcm || cmd == 0xC0
        }),
{
    reveal(note_chip);
}

/// What was logged stays as it was logged, at its place, and the stream ends at the command
/// that ends it or with the file: every other is carried out in turn.
pub proof fn law_streams_are_read_in_turn(data: Seq<u8>, lb: Option<int>, s: StreamView)
    requires
        0 <= s.pos <= data.len(),
    ensures
        ({
            let all = run_stream(data, lb, s);
            let here = loop_marked(s, lb);
            &&& all matches Ok(e) ==> s.writes.is_prefix_of(e.writes) && (s.loop_start is Some
                ==> e.loop_start == s.loop_start) && s.at_sample <= e.at_sample
            &&& s.pos == data.len() ==> all == Ok::<StreamView, Seq<char>>(s)
            &&& s.pos < data.len() && data[s.pos] == 0x66 ==> all == Ok::<StreamView, Seq<char>>(
                here,
            )
            &&& s.pos < data.len() && data[s.pos] != 0x66 ==> all == match step(data, here) {
                Ok(next) => run_stream(data, lb, next),
                Err(e) => Err(e),
            }
            &&& lb == Some(s.pos) && s.loop_start is None && s.pos < data.len() ==> (all
                matches Ok(e) ==> e.loop_start == Some(s.at_sample))
        }),
    decreases data.len() - s.pos,
{
    assert(kind(0x66) == Kind::End && forall|c: u8| kind(c) == Kind::End ==> c == 0x66) by {
        reveal(kind);
    }
    if s.pos < data.len() && data[s.pos] != 0x66 {
        let here = loop_marked(s, lb);
        assert(kind(data[s.pos]) != Kind::End);
        crate::formats::vgm::lemma_step_advances(data, here);
        match step(data, here) {
            Ok(next) => {
                law_streams_are_read_in_turn(data, lb, next);
                lemma_step_keeps(data, here);
                assert(here.writes.is_prefix_of(next.writes));
            },
            Err(_) => {},
        }
    }
}

proof fn lemma_step_keeps(data: Seq<u8>, s: StreamView)
    requires
        0 <= s.pos < data.len(),
    ensures
        step(data, s) matches Ok(t) ==> s.writes.is_prefix_of(t.writes) && t.loop_start
            == s.loop_start && s.at_sample <= t.at_sample,
{
    reveal(kind);
}

/// The number at a place of the header, zero where the file is too short.
pub open spec fn header_long(data: Seq<u8>, at: int) -> int {
    if at + 4 <= data.len() {
        long(data, at)
    } else {
        0
    }
}

/// A header's clock, from the version on that has it; the two highest bits are no part of it.
pub open spec fn header_clock(data: Seq<u8>, version: int, at: int) -> int {
    if header_long(data, 8) >= version {
        header_long(data, at) % 0x4000_0000
    } else {
        0
    }
}

/// What stands in a file's header: its version, its length and that of its loop, whether its PSG
/// is a Yamaha, and the clocks of its chips, each of which is zero unless the chip is used.
pub proof fn law_headers_are_read(data: Seq<u8>)
    ensures
        parsed(data) matches Ok(f) ==> {
            let since151 = header_long(data, 8) >= 0x151;
            &&& data[0] == 0x56 && data[1] == 0x67 && data[2] == 0x6D && data[3] == 0x20
            &&& f.version == header_long(data, 8)
            &&& f.total_samples == header_long(data, 0x18)
            &&& f.loop_samples == header_long(data, 0x20)
            &&& f.ay8910_is_ym <==> since151 && data.len() > 0x78 && data[0x78] != 0
            &&& f.raw_data == data
            &&& f.clocks.ym2413 > 0 ==> f.clocks.ym2413 == header_long(data, 0x10)
            &&& f.clocks.ay8910 > 0 ==> since151 && f.clocks.ay8910 == header_long(data, 0x74)
            &&& f.clocks.ym3526 > 0 ==> since151 && f.clocks.ym3526 == header_long(data, 0x54)
            &&& f.clocks.ym3812 > 0 ==> since151 && f.clocks.ym3812 == header_long(data, 0x50)
            &&& f.clocks.scc > 0 ==> since151 && f.clocks.scc == 3_579_545 && header_long(
                data,
                0x9C,
            ) > 0
            &&& f.clocks.ym2612 > 0 ==> f.clocks.ym2612 == header_clock(data, 0x110, 0x2C)
            &&& f.clocks.ym2151 > 0 ==> f.clocks.ym2151 == header_clock(data, 0x110, 0x30)
            &&& f.clocks.ym2203 > 0 ==> f.clocks.ym2203 == header_clock(data, 0x151, 0x44)
            &&& f.clocks.ym2608 > 0 ==> f.clocks.ym2608 == header_clock(data, 0x151, 0x48)
            &&& f.clocks.ym2610 > 0 ==> f.clocks.ym2610 == header_clock(data, 0x151, 0x4C)
            &&& f.clocks.segapcm > 0 ==> f.clocks.segapcm == header_clock(data, 0x151, 0x38)
            &&& f.clocks.rf5c68 > 0 ==> f.clocks.rf5c68 == header_clock(data, 0x151, 0x40)
            &&& f.clocks.rf5c164 > 0 ==> f.clocks.rf5c164 == header_clock(data, 0x151, 0x6C)
            &&& f.clocks.gb_dmg > 0 ==> f.clocks.gb_dmg == header_clock(data, 0x161, 0x80)
            &&& f.clocks.nes_apu > 0 ==> f.clocks.nes_apu == header_clock(data, 0x161, 0x84)
        },
{
}

/// A chip that a file writes to has the clock of the header, and one that it does not has none.
pub proof fn law_used_chips_have_their_clock(data: Seq<u8>, i: int)
    requires
        parsed(data) is Ok,
        0 <= i < parsed(data)->Ok_0.writes.len(),
    ensures
        ({
            let f = parsed(data)->Ok_0;
            let since151 = header_long(data, 8) >= 0x151;
            &&& f.writes[i].chip == Chip::Ym2413 ==> f.clocks.ym2413 == header_long(data, 0x10)
            &&& f.writes[i].chip == Chip::Ay8910 && since151 ==> f.clocks.ay8910 == header_long(
                data,
                0x74,
            )
            &&& f.writes[i].chip == Chip::Ym3526 && since151 ==> f.clocks.ym3526 == header_long(
                data,
                0x54,
            )
            &&& f.writes[i].chip == Chip::Ym3812 && since151 ==> f.clocks.ym3812 == header_long(
                data,
                0x50,
            )
            &&& f.writes[i].chip == Chip::Scc && since151 && header_long(data, 0x9C) > 0
                ==> f.clocks.scc == 3_579_545
        }),
{
    let f = parsed(data)->Ok_0;
    assert(crate::formats::vgm::written(f.writes, f.writes[i].chip));
}

/// A file's commands begin where its header says, from version 1.50 on, and behind the header
/// otherwise; its loop begins at the byte that the header points at.
pub proof fn law_streams_begin_where_the_header_says(data: Seq<u8>)
    ensures
        ({
            let s = stream_start(data);
            let offset = header_long(data, 0x34);
            &&& header_long(data, 8) >= 0x150 && offset != 0 && 0x34 + offset < data.len()
                ==> s.pos == 0x34 + offset
            &&& (header_long(data, 8) < 0x150 || offset == 0) && 0x40 < data.len() ==> s.pos
                == 0x40
            &&& s.at_sample == 0
            &&& s.writes.len() == 0
            &&& s.loop_start is None
            &&& s.seen == none_seen()
            &&& header_long(data, 0x1C) != 0 ==> loop_byte(data) == Some(
                0x1C + header_long(data, 0x1C),
            )
            &&& header_long(data, 0x1C) == 0 ==> loop_byte(data) is None
        }),
        parsed(data) matches Ok(f) ==> run_stream(data, loop_byte(data), stream_start(data))
            matches Ok(e) && f.writes == e.writes && f.loop_start_sample == e.loop_start,
{
}

/// Texts stand one behind the other in a file's tags, each up to two zero bytes.
pub open spec fn texts_at(data: Seq<u8>, at: Seq<int>) -> bool {
    &&& at.len() > 0
    &&& at.last() <= data.len()
    &&& forall|k: int, j: int|
        0 <= k && j == k + 1 && j < at.len() ==> {
            &&& (#[trigger] at[j] - #[trigger] at[k]) % 2 == 0
            &&& at[k] + 2 <= at[j]
            &&& data[at[j] - 2] == 0 && data[at[j] - 1] == 0
            &&& forall|i: int|
                0 <= i && at[k] + 2 * i < at[j] - 2 ==> !(data[#[trigger] (at[k] + 2 * i)] == 0
                    && data[at[k] + 2 * i + 1] == 0)
        }
}

proof fn lemma_text_end(data: Seq<u8>, from: int, pos: int, end: int)
    requires
        0 <= from <= pos <= end,
        (pos - from) % 2 == 0,
        (end - from) % 2 == 0,
        end + 2 <= data.len(),
        data[end] == 0 && data[end + 1] == 0,
        forall|i: int|
            0 <= i && from + 2 * i < end ==> !(data[#[trigger] (from + 2 * i)] == 0 && data[from + 2
                * i + 1] == 0),
    ensures
        text_end(data, pos) == end,
    decreases end - pos,
{
    if pos < end {
        let i = (pos - from) / 2;
        assert(pos == from + 2 * i);
        assert(!(data[from + 2 * i] == 0 && data[from + 2 * i + 1] == 0));
        lemma_text_end(data, from, pos + 2, end);
    }
}

proof fn lemma_texts(data: Seq<u8>, at: Seq<int>, k: int, n: nat)
    requires
        texts_at(data, at),
        0 <= at[0],
        0 <= k,
        k + n < at.len(),
    ensures
        tag_texts(data, at[k], n).len() == n,
        forall|i: int|
            0 <= i < n ==> #[trigger] tag_texts(data, at[k], n)[i] == utf16_text(
                units(data, at[k + i], at[k + i + 1] - 2),
            ),
    decreases n,
{
    if n > 0 {
        lemma_texts_ascend(data, at, k);
        lemma_texts_end(data, at, k + 1);
        assert(at[k + 1] - at[k] >= 2);
        assert((at[k + 1] - 2 - at[k]) % 2 == 0);
        lemma_text_end(data, at[k], at[k], at[k + 1] - 2);
        lemma_texts(data, at, k + 1, (n - 1) as nat);
        let rest = tag_texts(data, at[k + 1], (n - 1) as nat);
        let all = tag_texts(data, at[k], n);
        assert(all == seq![utf16_text(units(data, at[k], at[k + 1] - 2))] + rest);
        assert forall|i: int| 0 <= i < n implies #[trigger] all[i] == utf16_text(
            units(data, at[k + i], at[k + i + 1] - 2),
        ) by {
            if i > 0 {
                assert(all[i] == rest[i - 1]);
            }
        }
    }
}

proof fn lemma_texts_ascend(data: Seq<u8>, at: Seq<int>, k: int)
    requires
        texts_at(data, at),
        0 <= at[0],
        0 <= k < at.len(),
    ensures
        0 <= at[k],
    decreases k,
{
    if k > 0 {
        lemma_texts_ascend(data, at, k - 1);
        assert(at[k - 1] + 2 <= at[k]);
    }
}

proof fn lemma_texts_end(data: Seq<u8>, at: Seq<int>, k: int)
    requires
        texts_at(data, at),
        0 <= k < at.len(),
    ensures
        at[k] <= data.len(),
    decreases at.len() - k,
{
    if k < at.len() - 1 {
        lemma_texts_end(data, at, k + 1);
        assert(at[k] + 2 <= at[k + 1]);
    }
}

/// The text is what stands between two places; where nothing does, there is none.
pub open spec fn is_text(text: Option<Seq<char>>, data: Seq<u8>, from: int, to: int) -> bool {
    let t = utf16_text(units(data, from, to - 2));
    &&& text is Some <==> t.len() > 0
    &&& text matches Some(x) ==> x == t
}

/// The tags of a file stand where its header points at, behind twelve bytes that begin with
/// "Gd3 ": the first text is its title, the third its game, the fifth its system and the seventh
/// its author.
pub proof fn law_tags_are_read(data: Seq<u8>, at: Seq<int>)
    requires
        header_long(data, 0x14) != 0,
        at.len() == 12,
        at[0] == 0x14 + header_long(data, 0x14) + 12,
        data[at[0] - 12] == 0x47 && data[at[0] - 11] == 0x64 && data[at[0] - 10] == 0x33
            && data[at[0] - 9] == 0x20,
        texts_at(data, at),
    ensures
        parsed(data) matches Ok(f) ==> {
            &&& is_text(f.tags.title, data, at[0], at[1])
            &&& is_text(f.tags.game, data, at[2], at[3])
            &&& is_text(f.tags.system, data, at[4], at[5])
            &&& is_text(f.tags.author, data, at[6], at[7])
        },
{
    lemma_texts_end(data, at, 0);
    lemma_texts(data, at, 0, 11);
    let t = tag_texts(data, at[0], 11);
    assert(t[0] == utf16_text(units(data, at[0], at[1] - 2)));
    assert(t[2] == utf16_text(units(data, at[2], at[3] - 2)));
    assert(t[4] == utf16_text(units(data, at[4], at[5] - 2)));
    assert(t[6] == utf16_text(units(data, at[6], at[7] - 2)));
}

} // verus!
