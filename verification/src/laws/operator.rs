//! What the registers of an OPL make its channels play.
use crate::export::clock::{law_nearest_is_near, nearest};
use crate::export::pace::Pace;
use crate::export::vgm_operator::{
    all_opl_gains, feedback_percent, first_operator, level_gain, level_velocity, operator_track,
    opl_channel, opl_key, opl_registers, opl_unplayed, rate_time, sustain_gain, OperatorRegs,
    OplNoteView, OplPlayedView, OplRegisters, LEVEL_GAINS, RATE_TIMES, SUSTAIN_GAINS,
};
use crate::export::vgm_wavetable::{group_end, lemma_group_end, note_of};
use crate::formats::vgm::{Chip, RegisterWrite};
use vstd::prelude::*;

verus! {

/// What a register of a chip holds after the first `k` writes: 0 until it is written.
pub open spec fn held_by(writes: Seq<RegisterWrite>, chip: Chip, reg: int, k: int) -> int
    decreases k,
{
    if k <= 0 {
        0
    } else if writes[k - 1].chip == chip && writes[k - 1].reg == reg {
        writes[k - 1].value as int
    } else {
        held_by(writes, chip, reg, k - 1)
    }
}

/// The first of the two operators of a channel: they stand in three groups of six, first the
/// three modulators and then the three carriers.
pub open spec fn modulator_of(ch: int) -> int {
    if ch < 3 {
        ch
    } else if ch < 6 {
        ch + 5
    } else {
        ch + 10
    }
}

proof fn lemma_held_byte(writes: Seq<RegisterWrite>, chip: Chip, reg: int, k: int)
    ensures
        0 <= held_by(writes, chip, reg, k) < 256,
    decreases k,
{
    if k > 0 {
        lemma_held_byte(writes, chip, reg, k - 1);
    }
}

/// The channels read what was written last: the frequency from the low byte in register A0 and the
/// two bits above it in B0, the block from the three bits above those, and the level of each
/// operator, its rates and its multiple from the registers of its slot.
pub proof fn law_channels_read_their_registers(
    writes: Seq<RegisterWrite>,
    chip: Chip,
    ch: int,
    k: int,
)
    requires
        0 <= ch < 9,
        0 <= k <= writes.len(),
    ensures
        ({
            let r = opl_registers(writes, chip, ch, k);
            let low = held_by(writes, chip, 0xA0 + ch, k);
            let high = held_by(writes, chip, 0xB0 + ch, k);
            let m = modulator_of(ch);
            let c = m + 3;
            &&& r.fnum == low + 256 * (high % 4)
            &&& r.block == high / 4 % 8
            &&& r.feedback == held_by(writes, chip, 0xC0 + ch, k) / 2 % 8
            &&& r.modulator.multiple == held_by(writes, chip, 0x20 + m, k) % 16
            &&& r.carrier.multiple == held_by(writes, chip, 0x20 + c, k) % 16
            &&& r.modulator.total_level == held_by(writes, chip, 0x40 + m, k) % 64
            &&& r.carrier.total_level == held_by(writes, chip, 0x40 + c, k) % 64
            &&& r.modulator.attack_rate == held_by(writes, chip, 0x60 + m, k) / 16
            &&& r.carrier.attack_rate == held_by(writes, chip, 0x60 + c, k) / 16
            &&& r.modulator.decay_rate == held_by(writes, chip, 0x60 + m, k) % 16
            &&& r.carrier.decay_rate == held_by(writes, chip, 0x60 + c, k) % 16
            &&& r.modulator.sustain_level == held_by(writes, chip, 0x80 + m, k) / 16
            &&& r.carrier.sustain_level == held_by(writes, chip, 0x80 + c, k) / 16
            &&& r.modulator.release_rate == held_by(writes, chip, 0x80 + m, k) % 16
            &&& r.carrier.release_rate == held_by(writes, chip, 0x80 + c, k) % 16
        }),
    decreases k,
{
    if k > 0 {
        law_channels_read_their_registers(writes, chip, ch, k - 1);
        let w = writes[k - 1];
        let r = opl_registers(writes, chip, ch, k - 1);
        lemma_held_byte(writes, chip, 0xA0 + ch, k - 1);
        lemma_held_byte(writes, chip, 0xB0 + ch, k - 1);
        if w.chip == chip {
            lemma_channel_write(r, ch, w.reg, w.value);
            lemma_slot_write(r, ch, w.reg, w.value);
        }
    }
}

proof fn lemma_class(reg: u8)
    ensures
        ({
            let class = reg - reg as int % 32;
            class == 0 || class == 0x20 || class == 0x40 || class == 0x60 || class == 0x80 || class
                == 0xA0 || class == 0xC0 || class == 0xE0
        }),
{
}

proof fn lemma_channel_write(r: OplRegisters, ch: int, reg: u8, value: u8)
    requires
        0 <= ch < 9,
        r.fnum < 1024,
    ensures
        ({
            let q = r.write(ch, reg, value);
            &&& q.fnum == if reg == 0xA0 + ch {
                256 * (r.fnum as int / 256) + value
            } else if reg == 0xB0 + ch {
                r.fnum as int % 256 + 256 * (value as int % 4)
            } else {
                r.fnum as int
            }
            &&& q.block == if reg == 0xB0 + ch {
                value / 4 % 8
            } else {
                r.block
            }
            &&& q.feedback == if reg == 0xC0 + ch {
                value / 2 % 8
            } else {
                r.feedback
            }
        }),
{
    lemma_class(reg);
}

proof fn lemma_operator_write(o: OperatorRegs, class: int, value: u8)
    ensures
        ({
            let q = o.write(class, value);
            &&& q.multiple == if class == 0x20 {
                value % 16
            } else {
                o.multiple
            }
            &&& q.total_level == if class == 0x40 {
                value % 64
            } else {
                o.total_level
            }
            &&& q.attack_rate == if class == 0x60 {
                value / 16
            } else {
                o.attack_rate
            }
            &&& q.decay_rate == if class == 0x60 {
                value % 16
            } else {
                o.decay_rate
            }
            &&& q.sustain_level == if class == 0x80 {
                value / 16
            } else {
                o.sustain_level
            }
            &&& q.release_rate == if class == 0x80 {
                value % 16
            } else {
                o.release_rate
            }
        }),
{
}

/// What a write to one of the registers of a slot makes of its operator.
spec fn slot_written(o: OperatorRegs, slot: int, reg: u8, value: u8) -> OperatorRegs {
    OperatorRegs {
        multiple: if reg == 0x20 + slot {
            value % 16
        } else {
            o.multiple
        },
        total_level: if reg == 0x40 + slot {
            value % 64
        } else {
            o.total_level
        },
        attack_rate: if reg == 0x60 + slot {
            value / 16
        } else {
            o.attack_rate
        },
        decay_rate: if reg == 0x60 + slot {
            value % 16
        } else {
            o.decay_rate
        },
        sustain_level: if reg == 0x80 + slot {
            value / 16
        } else {
            o.sustain_level
        },
        release_rate: if reg == 0x80 + slot {
            value % 16
        } else {
            o.release_rate
        },
    }
}

proof fn lemma_slot_write(r: OplRegisters, ch: int, reg: u8, value: u8)
    requires
        0 <= ch < 9,
    ensures
        r.write(ch, reg, value).modulator == slot_written(
            r.modulator,
            modulator_of(ch),
            reg,
            value,
        ),
        r.write(ch, reg, value).carrier == slot_written(
            r.carrier,
            modulator_of(ch) + 3,
            reg,
            value,
        ),
{
    lemma_class(reg);
    let class = reg - reg as int % 32;
    let offset = reg as int % 32;
    let m = modulator_of(ch);
    assert(m == first_operator(ch) && 0 <= m <= 18);
    lemma_operator_write(r.modulator, class, value);
    lemma_operator_write(r.carrier, class, value);
    let q = r.write(ch, reg, value);
    if 0x20 <= class <= 0x80 && offset == m {
        assert(q.modulator =~= slot_written(r.modulator, m, reg, value));
        assert(q.carrier =~= slot_written(r.carrier, m + 3, reg, value));
    } else if 0x20 <= class <= 0x80 && offset == m + 3 {
        assert(q.modulator =~= slot_written(r.modulator, m, reg, value));
        assert(q.carrier =~= slot_written(r.carrier, m + 3, reg, value));
    } else {
        assert(q.modulator == r.modulator && q.carrier == r.carrier);
    }
}

/// The log holds all of its writes at a time: the last of them is the one before `k`.
pub open spec fn all_written_at(writes: Seq<RegisterWrite>, k: int, at: u64) -> bool {
    &&& 0 < k <= writes.len()
    &&& writes[k - 1].at_sample == at
    &&& k < writes.len() ==> writes[k].at_sample != at
}

/// A note has the pitch that is nearest to what the chip was set to when it began: the tone of
/// the block and the frequency in its registers, of the 1024 of each block. Its velocity is of 127
/// what the carrier's level is of full loudness.
pub open spec fn begun_by(
    n: OplNoteView,
    writes: Seq<RegisterWrite>,
    k: int,
    chip: Chip,
    ch: int,
    tones: Seq<i64>,
) -> bool {
    let low = held_by(writes, chip, 0xA0 + ch, k);
    let high = held_by(writes, chip, 0xB0 + ch, k);
    let fnum = low + 256 * (high % 4);
    let tone = tones[1024 * (high / 4 % 8) + fnum];
    let level = held_by(writes, chip, 0x43 + modulator_of(ch), k) % 64;
    &&& all_written_at(writes, k, n.start)
    &&& fnum > 0
    &&& 0 <= n.pitch <= 127
    &&& 0 <= tone <= 127_000_000 ==> -500_000 <= 1_000_000 * n.pitch - tone <= 500_000
    &&& tone < 0 ==> n.pitch == 0
    &&& tone > 127_000_000 ==> n.pitch == 127
    &&& n.velocity == level_velocity(level as u8)
    &&& n.levels.len() > 0 && n.levels[0] == (n.start, level as u8)
}

proof fn lemma_note_is_near(tone: i64)
    ensures
        0 <= note_of(tone) <= 127,
        0 <= tone <= 127_000_000 ==> -500_000 <= 1_000_000 * note_of(tone) - tone <= 500_000,
        tone < 0 ==> note_of(tone) == 0,
        tone > 127_000_000 ==> note_of(tone) == 127,
{
    law_nearest_is_near(tone as int, 1_000_000);
}

spec fn begun(
    n: OplNoteView,
    writes: Seq<RegisterWrite>,
    chip: Chip,
    ch: int,
    tones: Seq<i64>,
) -> bool {
    exists|k: int| #[trigger] begun_by(n, writes, k, chip, ch, tones)
}

spec fn all_begun(
    p: OplPlayedView,
    writes: Seq<RegisterWrite>,
    chip: Chip,
    ch: int,
    tones: Seq<i64>,
) -> bool {
    &&& p.open matches Some(o) ==> begun(o, writes, chip, ch, tones)
    &&& forall|i: int|
        0 <= i < p.notes.len() ==> begun(#[trigger] p.notes[i], writes, chip, ch, tones)
            && p.notes[i].start < p.notes[i].end
}

proof fn lemma_opened_begun(
    p: OplPlayedView,
    writes: Seq<RegisterWrite>,
    k: int,
    at: u64,
    chip: Chip,
    ch: int,
    tones: Seq<i64>,
)
    requires
        0 <= ch < 9,
        all_written_at(writes, k, at),
        all_begun(p, writes, chip, ch, tones),
        p.open is None,
    ensures
        all_begun(p.opened(opl_registers(writes, chip, ch, k), at, tones), writes, chip, ch, tones),
{
    let r = opl_registers(writes, chip, ch, k);
    law_channels_read_their_registers(writes, chip, ch, k);
    let q = p.opened(r, at, tones);
    lemma_note_is_near(tones[1024 * r.block + r.fnum]);
    lemma_held_byte(writes, chip, 0xA0 + ch, k);
    lemma_held_byte(writes, chip, 0xB0 + ch, k);
    if r.fnum > 0 {
        assert(begun_by(q.open->0, writes, k, chip, ch, tones));
    }
}

proof fn lemma_closed_begun(
    p: OplPlayedView,
    writes: Seq<RegisterWrite>,
    at: u64,
    chip: Chip,
    ch: int,
    tones: Seq<i64>,
)
    requires
        all_begun(p, writes, chip, ch, tones),
    ensures
        all_begun(p.closed_at(at), writes, chip, ch, tones),
        p.closed_at(at).open is None,
{
    match p.open {
        None => {},
        Some(o) => {
            let k = choose|k: int| #[trigger] begun_by(o, writes, k, chip, ch, tones);
            assert(begun_by(OplNoteView { end: at, ..o }, writes, k, chip, ch, tones));
        },
    }
}

proof fn lemma_group_begun(
    p: OplPlayedView,
    writes: Seq<RegisterWrite>,
    i: int,
    j: int,
    chip: Chip,
    ch: int,
    tones: Seq<i64>,
)
    requires
        0 <= ch < 9,
        0 <= i < j,
        all_written_at(writes, j, writes[i].at_sample),
        all_begun(p, writes, chip, ch, tones),
    ensures
        all_begun(
            p.after_group(
                opl_registers(writes, chip, ch, i),
                opl_registers(writes, chip, ch, j),
                opl_key(writes, chip, ch, i, j),
                writes[i].at_sample,
                tones,
            ),
            writes,
            chip,
            ch,
            tones,
        ),
{
    let at = writes[i].at_sample;
    let before = opl_registers(writes, chip, ch, i);
    let r = opl_registers(writes, chip, ch, j);
    let key = opl_key(writes, chip, ch, i, j);
    let up = OplPlayedView { key: true, ..p };
    let down = OplPlayedView { key: false, ..p };
    lemma_closed_begun(up, writes, at, chip, ch, tones);
    lemma_closed_begun(down, writes, at, chip, ch, tones);
    lemma_opened_begun(up.closed_at(at), writes, j, at, chip, ch, tones);
    let keyed = p.keyed(r, key, at, tones);
    assert(all_begun(keyed, writes, chip, ch, tones));
    lemma_closed_begun(keyed, writes, at, chip, ch, tones);
    lemma_opened_begun(keyed.closed_at(at), writes, j, at, chip, ch, tones);
    match keyed.open {
        None => {},
        Some(o) => {
            let k = choose|k: int| #[trigger] begun_by(o, writes, k, chip, ch, tones);
            let longer = OplNoteView { levels: o.levels.push((at, r.carrier.total_level)), ..o };
            assert(longer.levels[0] == o.levels[0]);
            assert(begun_by(longer, writes, k, chip, ch, tones));
        },
    }
}

proof fn lemma_played_begun(
    p: OplPlayedView,
    writes: Seq<RegisterWrite>,
    i: int,
    chip: Chip,
    ch: int,
    tones: Seq<i64>,
)
    requires
        0 <= i,
        0 <= ch < 9,
        all_begun(p, writes, chip, ch, tones),
    ensures
        all_begun(p.played(writes, i, chip, ch, tones), writes, chip, ch, tones),
    decreases writes.len() - i,
{
    if i < writes.len() {
        let at = writes[i].at_sample;
        let j = group_end(writes, at, i + 1);
        lemma_group_end(writes, at, i + 1);
        lemma_whole_group(writes, at, i + 1);
        lemma_group_begun(p, writes, i, j, chip, ch, tones);
        lemma_played_begun(
            p.after_group(
                opl_registers(writes, chip, ch, i),
                opl_registers(writes, chip, ch, j),
                opl_key(writes, chip, ch, i, j),
                at,
                tones,
            ),
            writes,
            j,
            chip,
            ch,
            tones,
        );
    }
}

proof fn lemma_whole_group(writes: Seq<RegisterWrite>, at: u64, j: int)
    requires
        0 < j <= writes.len(),
        writes[j - 1].at_sample == at,
    ensures
        all_written_at(writes, group_end(writes, at, j), at),
    decreases writes.len() - j,
{
    if j < writes.len() && writes[j].at_sample == at {
        lemma_whole_group(writes, at, j + 1);
    }
}

/// Every note that an OPL plays is the one that its registers were set to when it began, with
/// both the block and the frequency, and ends after it began: see `begun_by`.
pub proof fn law_opl_notes_are_what_was_written(
    writes: Seq<RegisterWrite>,
    total_samples: u64,
    chip: Chip,
    ch: int,
    tones: Seq<i64>,
    i: int,
)
    requires
        0 <= ch < 9,
        0 <= i < opl_channel(writes, total_samples, chip, ch, tones).notes.len(),
    ensures
        ({
            let n = opl_channel(writes, total_samples, chip, ch, tones).notes[i];
            &&& n.start < n.end
            &&& exists|k: int| #[trigger] begun_by(n, writes, k, chip, ch, tones)
        }),
{
    let p = opl_unplayed().played(writes, 0, chip, ch, tones);
    assert(all_begun(opl_unplayed(), writes, chip, ch, tones));
    lemma_played_begun(opl_unplayed(), writes, 0, chip, ch, tones);
    lemma_closed_begun(p, writes, total_samples, chip, ch, tones);
    assert(begun(
        opl_channel(writes, total_samples, chip, ch, tones).notes[i],
        writes,
        chip,
        ch,
        tones,
    ));
}

/// Where each block of the tones is an octave above the one before, the same frequency one block
/// higher is a note twelve higher.
pub proof fn law_blocks_are_octaves(
    p: OplPlayedView,
    r: OplRegisters,
    at: u64,
    tones: Seq<i64>,
)
    requires
        0 < r.fnum < 1024,
        r.block < 7,
        tones.len() == 8192,
        0 <= tones[1024 * r.block + r.fnum] <= 115_000_000,
        tones[1024 * (r.block + 1) + r.fnum] == tones[1024 * r.block + r.fnum] + 12_000_000,
    ensures
        p.opened(OplRegisters { block: (r.block + 1) as u8, ..r }, at, tones).open->0.pitch
            == p.opened(r, at, tones).open->0.pitch + 12,
{
}

/// A note is louder the less its carrier is attenuated: struck with 127 at no attenuation, and
/// never with more at a higher one. Eight steps of attenuation are six decibels: half, almost.
pub proof fn law_opl_levels_attenuate(level: u8, more: u8)
    requires
        level <= more < 64,
    ensures
        level_velocity(more) <= level_velocity(level),
        level_velocity(0) == 127,
        level_gain(0) == 1_000_000,
        level_gain(more) <= level_gain(level),
        level < more ==> level_gain(more) < level_gain(level),
        more + 8 < 64 ==> 501_000 * level_gain(more) - 1_000_000 <= 1_000_000 * level_gain(
            (more + 8) as u8,
        ) <= 502_000 * level_gain(more) + 1_000_000,
        1 <= level_velocity(more),
        level_velocity(more) > 1 ==> -1_000_000 <= 2 * (1_000_000 * level_velocity(more) - 127
            * level_gain(more)) <= 1_000_000,
{
    lemma_level_gains(level, more);
    law_nearest_is_near(127 * level_gain(level), 1_000_000);
    law_nearest_is_near(127 * level_gain(more), 1_000_000);
}

proof fn lemma_level_gains(level: u8, more: u8)
    requires
        level <= more < 64,
    ensures
        level_gain(0) == 1_000_000,
        0 < level_gain(more) <= level_gain(level) <= 1_000_000,
        level < more ==> level_gain(more) < level_gain(level),
        more + 8 < 64 ==> 501_000 * level_gain(more) - 1_000_000 <= 1_000_000 * level_gain(
            (more + 8) as u8,
        ) <= 502_000 * level_gain(more) + 1_000_000,
    decreases more - level,
{
    lemma_next_level(more);
    if level < more {
        lemma_level_gains(level, (more - 1) as u8);
        lemma_next_level((more - 1) as u8);
    }
    if level > 0 {
        lemma_first_level(level);
    } else {
        lemma_next_level(0);
    }
}

proof fn lemma_first_level(level: u8)
    requires
        level < 64,
    ensures
        level_gain(level) <= 1_000_000,
        level_gain(0) == 1_000_000,
    decreases level,
{
    lemma_next_level(0);
    if level > 0 {
        lemma_first_level((level - 1) as u8);
        lemma_next_level((level - 1) as u8);
    }
}

proof fn lemma_next_level(level: u8)
    requires
        level < 64,
    ensures
        level_gain(0) == 1_000_000,
        0 < level_gain(level),
        level < 63 ==> level_gain((level + 1) as u8) < level_gain(level),
        level + 8 < 64 ==> 501_000 * level_gain(level) - 1_000_000 <= 1_000_000 * level_gain(
            (level + 8) as u8,
        ) <= 502_000 * level_gain(level) + 1_000_000,
{
    assert(LEVEL_GAINS[0] == 1000000);
    assert(LEVEL_GAINS[1] == 917276);
    assert(LEVEL_GAINS[2] == 841395);
    assert(LEVEL_GAINS[3] == 771792);
    assert(LEVEL_GAINS[4] == 707946);
    assert(LEVEL_GAINS[5] == 649382);
    assert(LEVEL_GAINS[6] == 595662);
    assert(LEVEL_GAINS[7] == 546387);
    assert(LEVEL_GAINS[8] == 501187);
    assert(LEVEL_GAINS[9] == 459727);
    assert(LEVEL_GAINS[10] == 421697);
    assert(LEVEL_GAINS[11] == 386812);
    assert(LEVEL_GAINS[12] == 354813);
    assert(LEVEL_GAINS[13] == 325462);
    assert(LEVEL_GAINS[14] == 298538);
    assert(LEVEL_GAINS[15] == 273842);
    assert(LEVEL_GAINS[16] == 251189);
    assert(LEVEL_GAINS[17] == 230409);
    assert(LEVEL_GAINS[18] == 211349);
    assert(LEVEL_GAINS[19] == 193865);
    assert(LEVEL_GAINS[20] == 177828);
    assert(LEVEL_GAINS[21] == 163117);
    assert(LEVEL_GAINS[22] == 149624);
    assert(LEVEL_GAINS[23] == 137246);
    assert(LEVEL_GAINS[24] == 125893);
    assert(LEVEL_GAINS[25] == 115478);
    assert(LEVEL_GAINS[26] == 105925);
    assert(LEVEL_GAINS[27] == 97163);
    assert(LEVEL_GAINS[28] == 89125);
    assert(LEVEL_GAINS[29] == 81752);
    assert(LEVEL_GAINS[30] == 74989);
    assert(LEVEL_GAINS[31] == 68786);
    assert(LEVEL_GAINS[32] == 63096);
    assert(LEVEL_GAINS[33] == 57876);
    assert(LEVEL_GAINS[34] == 53088);
    assert(LEVEL_GAINS[35] == 48697);
    assert(LEVEL_GAINS[36] == 44668);
    assert(LEVEL_GAINS[37] == 40973);
    assert(LEVEL_GAINS[38] == 37584);
    assert(LEVEL_GAINS[39] == 34475);
    assert(LEVEL_GAINS[40] == 31623);
    assert(LEVEL_GAINS[41] == 29007);
    assert(LEVEL_GAINS[42] == 26607);
    assert(LEVEL_GAINS[43] == 24406);
    assert(LEVEL_GAINS[44] == 22387);
    assert(LEVEL_GAINS[45] == 20535);
    assert(LEVEL_GAINS[46] == 18836);
    assert(LEVEL_GAINS[47] == 17278);
    assert(LEVEL_GAINS[48] == 15849);
    assert(LEVEL_GAINS[49] == 14538);
    assert(LEVEL_GAINS[50] == 13335);
    assert(LEVEL_GAINS[51] == 12232);
    assert(LEVEL_GAINS[52] == 11220);
    assert(LEVEL_GAINS[53] == 10292);
    assert(LEVEL_GAINS[54] == 9441);
    assert(LEVEL_GAINS[55] == 8660);
    assert(LEVEL_GAINS[56] == 7943);
    assert(LEVEL_GAINS[57] == 7286);
    assert(LEVEL_GAINS[58] == 6683);
    assert(LEVEL_GAINS[59] == 6131);
    assert(LEVEL_GAINS[60] == 5623);
    assert(LEVEL_GAINS[61] == 5158);
    assert(LEVEL_GAINS[62] == 4732);
    assert(LEVEL_GAINS[63] == 4340);
    assert(level == 0 || level == 1 || level == 2 || level == 3 || level == 4 || level == 5
        || level == 6 || level == 7 || level == 8 || level == 9 || level == 10 || level == 11
        || level == 12 || level == 13 || level == 14 || level == 15 || level == 16 || level == 17
        || level == 18 || level == 19 || level == 20 || level == 21 || level == 22 || level == 23
        || level == 24 || level == 25 || level == 26 || level == 27 || level == 28 || level == 29
        || level == 30 || level == 31 || level == 32 || level == 33 || level == 34 || level == 35
        || level == 36 || level == 37 || level == 38 || level == 39 || level == 40 || level == 41
        || level == 42 || level == 43 || level == 44 || level == 45 || level == 46 || level == 47
        || level == 48 || level == 49 || level == 50 || level == 51 || level == 52 || level == 53
        || level == 54 || level == 55 || level == 56 || level == 57 || level == 58 || level == 59
        || level == 60 || level == 61 || level == 62 || level == 63);
}

/// The rates of an envelope stand for times from eight seconds down to half a millisecond, each
/// somewhat more than half of the one before.
pub proof fn law_opl_rates_are_times(rate: u8)
    requires
        rate < 16,
    ensures
        rate_time(0) == 8_000_000_000,
        rate_time(15) == 500_000,
        rate < 15 ==> 1906 * rate_time((rate + 1) as u8) <= 1000 * rate_time(rate) <= 1908
            * rate_time((rate + 1) as u8),
{
    assert(RATE_TIMES[0] == 8_000_000_000);
    assert(RATE_TIMES[1] == 4_195_805_245);
    assert(RATE_TIMES[2] == 2_200_597_706);
    assert(RATE_TIMES[3] == 1_154_159_925);
    assert(RATE_TIMES[4] == 605_328_783);
    assert(RATE_TIMES[5] == 317_480_210);
    assert(RATE_TIMES[6] == 166_510_641);
    assert(RATE_TIMES[7] == 87_330_778);
    assert(RATE_TIMES[8] == 45_802_867);
    assert(RATE_TIMES[9] == 24_022_489);
    assert(RATE_TIMES[10] == 12_599_210);
    assert(RATE_TIMES[11] == 6_607_979);
    assert(RATE_TIMES[12] == 3_465_724);
    assert(RATE_TIMES[13] == 1_817_688);
    assert(RATE_TIMES[14] == 953_333);
    assert(RATE_TIMES[15] == 500_000);
    assert(rate == 0 || rate == 1 || rate == 2 || rate == 3 || rate == 4 || rate == 5 || rate == 6
        || rate == 7 || rate == 8 || rate == 9 || rate == 10 || rate == 11 || rate == 12 || rate
        == 13 || rate == 14 || rate == 15);
}

/// A sustain level holds full gain at zero and three decibels less at each step, and none at
/// the last.
pub proof fn law_opl_sustain_levels_attenuate(level: u8)
    requires
        level < 16,
    ensures
        sustain_gain(0) == 1_000_000,
        sustain_gain(15) == 316,
        level < 14 ==> 707 * sustain_gain(level) - 1000 <= 1000 * sustain_gain((level + 1) as u8)
            <= 709 * sustain_gain(level) + 1000,
{
    assert(SUSTAIN_GAINS[0] == 1_000_000);
    assert(SUSTAIN_GAINS[1] == 707_946);
    assert(SUSTAIN_GAINS[2] == 501_187);
    assert(SUSTAIN_GAINS[3] == 354_813);
    assert(SUSTAIN_GAINS[4] == 251_189);
    assert(SUSTAIN_GAINS[5] == 177_828);
    assert(SUSTAIN_GAINS[6] == 125_893);
    assert(SUSTAIN_GAINS[7] == 89_125);
    assert(SUSTAIN_GAINS[8] == 63_096);
    assert(SUSTAIN_GAINS[9] == 44_668);
    assert(SUSTAIN_GAINS[10] == 31_623);
    assert(SUSTAIN_GAINS[11] == 22_387);
    assert(SUSTAIN_GAINS[12] == 15_849);
    assert(SUSTAIN_GAINS[13] == 11_220);
    assert(SUSTAIN_GAINS[14] == 7_943);
    assert(SUSTAIN_GAINS[15] == 316);
    assert(level == 0 || level == 1 || level == 2 || level == 3 || level == 4 || level == 5 || level
        == 6 || level == 7 || level == 8 || level == 9 || level == 10 || level == 11 || level == 12
        || level == 13 || level == 14 || level == 15);
}

/// The feedback goes in seven even steps from none to all of it.
pub proof fn law_opl_feedback_is_even(feedback: u8)
    requires
        feedback <= 7,
    ensures
        feedback_percent(0) == 0,
        feedback_percent(7) == 100_000_000,
        -7 <= 2 * (7 * feedback_percent(feedback) - 100_000_000 * feedback) <= 7,
{
    law_nearest_is_near(100_000_000 * feedback as int, 7);
    assert(nearest(0, 7) == 0);
    assert(nearest(700_000_000, 7) == 100_000_000);
}

/// The key of a channel is a bit of its own; of several writes at a time the last one counts.
pub proof fn law_opl_keys_are_bits(writes: Seq<RegisterWrite>, chip: Chip, ch: int, i: int, j: int)
    requires
        0 <= i < j <= writes.len(),
        0 <= ch < 9,
    ensures
        ({
            let w = writes[j - 1];
            opl_key(writes, chip, ch, i, j) == if w.chip == chip && w.reg == 0xB0 + ch {
                Some(w.value as int % 64 >= 32)
            } else {
                opl_key(writes, chip, ch, i, j - 1)
            }
        }),
        opl_key(writes, chip, ch, i, i) is None,
{
}

/// A silent channel begins a note when its key goes down, and one that plays ends it when the key
/// goes up; a new frequency ends a note and begins another; while nothing changes, it plays on.
pub proof fn law_opl_keys_begin_and_end_notes(
    p: OplPlayedView,
    before: OplRegisters,
    r: OplRegisters,
    at: u64,
    tones: Seq<i64>,
)
    requires
        r.fnum > 0,
    ensures
        ({
            let down = p.after_group(before, r, Some(true), at, tones);
            let up = p.after_group(r, r, Some(false), at, tones);
            let on = p.after_group(before, r, None, at, tones);
            &&& !p.key && p.open is None ==> down.key && down.notes == p.notes
                && (down.open matches Some(
                o,
            ) && o.start == at)
            &&& p.key ==> !up.key && up.open is None
            &&& p.key && (p.open matches Some(o) && o.start < at) ==> up.notes == p.notes.push(
                OplNoteView { end: at, ..p.open->0 },
            )
            &&& p.key && (p.open matches Some(o) && o.start < at) && (r.fnum != before.fnum
                || r.block
                != before.block) ==> on.notes == p.notes.push(
                OplNoteView { end: at, ..p.open->0 },
            ) && (on.open matches Some(o) && o.start == at)
            &&& r == before ==> on == p
        }),
{
}

/// The track of a channel has its notes, at their times, and their levels as gains.
pub proof fn law_opl_tracks_play_their_notes(p: OplPlayedView, pace: Pace, i: int)
    requires
        0 <= i < p.notes.len(),
    ensures
        ({
            let t = operator_track(p, pace);
            let n = p.notes[i];
            &&& t.patch == p.patch
            &&& t.notes.len() == p.notes.len()
            &&& t.notes[i].start == pace.micros(n.start as int)
            &&& t.notes[i].duration == pace.micros(n.end - n.start)
            &&& t.notes[i].pitch == n.pitch
            &&& t.notes[i].velocity == n.velocity
        }),
{
}

/// The gains of the last note stand behind those of the notes before, each at its time.
pub proof fn law_opl_gains_follow(notes: Seq<OplNoteView>, pace: Pace, k: int)
    requires
        notes.len() > 0,
        0 <= k < notes.last().levels.len(),
    ensures
        ({
            let before = all_opl_gains(notes.drop_last(), pace);
            let all = all_opl_gains(notes, pace);
            let (time, level) = notes.last().levels[k];
            &&& before.is_prefix_of(all)
            &&& all.len() == before.len() + notes.last().levels.len()
            &&& all[before.len() + k].time == pace.micros(time as int)
            &&& all[before.len() + k].value == level_gain(level)
            &&& all[before.len() + k].glide <==> k > 0
        }),
{
}

} // verus!
