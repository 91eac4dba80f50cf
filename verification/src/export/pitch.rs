//! How far the bends of a note are from its pitch.
//!
//! A module counts pitch in periods. By the linear table, periods lie evenly: sixteen to a
//! semitone, 1152 being note 60. By the Amiga's, an octave halves them, which takes logarithms.
use crate::export::automation::{clamp64, clamped};
use crate::export::clock::{nearest, round_signed};
use crate::export::midi::PITCH_BEND_RANGE_SEMITONES;
use crate::export::notes::NoteEvent;
use crate::export::simulate::{BendStep, PitchBend};
use vstd::prelude::*;

verus! {

/// Steps of the sine that a vibrato follows.
pub const SINES: usize = 256;

/// The period of a note by the linear table.
pub open spec fn linear_period(note: int) -> int {
    1152 - 16 * (note - 60)
}

/// A period moved by one step of a curve. Vibrato and arpeggio leave it where it is.
pub open spec fn moved(period: int, step: BendStep) -> int {
    match step {
        BendStep::Slide { delta } => if period + delta < 1 {
            1
        } else if period + delta > 32000 {
            32000
        } else {
            period + delta
        },
        BendStep::Toward { note, step } => {
            let target = linear_period(note as int);
            if period < target {
                if period + step < target {
                    period + step
                } else {
                    target
                }
            } else if period - step > target {
                period - step
            } else {
                target
            }
        },
        _ => period,
    }
}

/// The period of a note behind all the steps of its curve.
pub open spec fn period_behind(pitch: int, bends: Seq<PitchBend>) -> int
    decreases bends.len(),
{
    if bends.len() == 0 {
        linear_period(pitch)
    } else {
        moved(period_behind(pitch, bends.drop_last()), bends.last().step)
    }
}

/// How far a period is above a pitch at one point of a curve, in millionths of a semitone: a
/// period is 62,500 of them. The sines are given in billionths.
pub open spec fn bend_at(pitch: int, period: int, step: BendStep, sines: Seq<i64>) -> i64 {
    let above = 62_500 * (linear_period(pitch) - period);
    match step {
        BendStep::Vibrato { pos, depth } => clamped(
            nearest(2_048_000 * above - 255 * (depth * sines[pos as int % 256]), 2_048_000),
        ),
        BendStep::Arpeggio { semitones } => clamped(above + 1_000_000 * semitones),
        _ => clamped(above),
    }
}

/// The bends of a note by the linear table, in millionths of a semitone.
pub open spec fn linear_curve(pitch: int, bends: Seq<PitchBend>, sines: Seq<i64>) -> Seq<i64> {
    Seq::new(
        bends.len(),
        |i: int| bend_at(pitch, period_behind(pitch, bends.take(i + 1)), bends[i].step, sines),
    )
}

fn move_period(period: i64, step: &BendStep) -> (r: i64)
    requires
        -0x10_0000_0000 <= period <= 0x10_0000_0000,
    ensures
        r == moved(period as int, *step),
        -0x10_0000_0000 <= r <= 0x10_0000_0000,
{
    match *step {
        BendStep::Slide { delta } => {
            let p: i128 = period as i128 + delta as i128;
            if p < 1 {
                1
            } else if p > 32000 {
                32000
            } else {
                p as i64
            }
        },
        BendStep::Toward { note, step } => {
            let target: i64 = 1152 - 16 * (note as i64 - 60);
            if period < target {
                let p: i128 = period as i128 + step as i128;
                if p < target as i128 {
                    p as i64
                } else {
                    target
                }
            } else {
                let p: i128 = period as i128 - step as i128;
                if p > target as i128 {
                    p as i64
                } else {
                    target
                }
            }
        },
        _ => period,
    }
}

fn bend_of(pitch: i32, period: i64, step: &BendStep, sines: &Vec<i64>) -> (r: i64)
    requires
        -0x10_0000_0000 <= period <= 0x10_0000_0000,
        sines.len() == SINES,
    ensures
        r == bend_at(pitch as int, period as int, *step, sines@),
{
    let above: i128 = 62_500 * (1152 - 16 * (pitch as i128 - 60) - period as i128);
    match *step {
        BendStep::Vibrato { pos, depth } => {
            let d: i128 = depth as i128;
            let s: i128 = sines[(pos % 256) as usize] as i128;
            assert(-0x1_0000_0000 * 0x1_0000_0000_0000_0000 <= d * s <= 0x1_0000_0000
                * 0x1_0000_0000_0000_0000) by (nonlinear_arith)
                requires
                    0 <= d <= 0x1_0000_0000,
                    -0x1_0000_0000_0000_0000 <= s <= 0x1_0000_0000_0000_0000,
            ;
            clamp64(round_signed(2_048_000 * above - 255 * (d * s), 2_048_000))
        },
        BendStep::Arpeggio { semitones } => clamp64(above + 1_000_000 * semitones as i128),
        _ => clamp64(above),
    }
}

/// Works out the bends of a note by the linear table. The sines are those of the 256 steps of a
/// turn, in billionths.
pub fn linear_bends(e: &NoteEvent, sines: &Vec<i64>) -> (r: Vec<i64>)
    requires
        sines.len() == SINES,
    ensures
        r@ == linear_curve(e.note.pitch as int, e.bends@, sines@),
{
    let ghost pitch = e.note.pitch as int;
    let ghost whole = linear_curve(pitch, e.bends@, sines@);
    let mut out: Vec<i64> = Vec::new();
    let mut period: i64 = 1152 - 16 * (e.note.pitch as i64 - 60);
    let mut i: usize = 0;
    assert(e.bends@.take(0) =~= Seq::<PitchBend>::empty());
    while i < e.bends.len()
        invariant
            i <= e.bends.len(),
            sines.len() == SINES,
            pitch == e.note.pitch,
            whole == linear_curve(pitch, e.bends@, sines@),
            period == period_behind(pitch, e.bends@.take(i as int)),
            -0x10_0000_0000 <= period <= 0x10_0000_0000,
            out@ == whole.take(i as int),
        decreases e.bends.len() - i,
    {
        proof {
            let now = e.bends@.take(i + 1);
            assert(now.drop_last() =~= e.bends@.take(i as int));
            assert(now.last() == e.bends[i as int]);
        }
        period = move_period(period, &e.bends[i].step);
        out.push(bend_of(e.note.pitch, period, &e.bends[i].step, sines));
        i += 1;
        assert(out@ =~= whole.take(i as int));
    }
    assert(out@ =~= whole);
    out
}

/// The position of a pitch wheel whose range is 48 semitones either way, for a bend in millionths
/// of a semitone: there are 8191 positions above the middle and 8192 below it. Halves are
/// rounded away from the middle.
pub open spec fn wheel_at(micros: int) -> int {
    if micros >= 48_000_000 {
        8191
    } else if micros <= -48_000_000 {
        -8192
    } else if micros >= 0 {
        nearest(8191 * micros, 48_000_000)
    } else {
        -nearest(8192 * -micros, 48_000_000)
    }
}

pub fn pitch_bend_value(micros: i64) -> (r: i16)
    ensures
        r == wheel_at(micros as int),
        -8192 <= r <= 8191,
{
    let range: i64 = 1_000_000 * PITCH_BEND_RANGE_SEMITONES as i64;
    if micros >= range {
        8191
    } else if micros <= -range {
        -8192
    } else if micros >= 0 {
        ((2 * (8191 * micros) + range) / (2 * range)) as i16
    } else {
        -((2 * (8192 * -micros) + range) / (2 * range)) as i16
    }
}

/// By the linear table a slide bends every note alike: sixteen periods are a semitone, as long as
/// the period stays in its range.
pub proof fn law_slides_are_even(pitch: int, b: PitchBend, delta: i64, sines: Seq<i64>)
    requires
        b.step == (BendStep::Slide { delta }),
        1 <= linear_period(pitch) + delta <= 32000,
    ensures
        linear_curve(pitch, seq![b], sines)[0] == clamped(-62_500 * delta),
{
    assert(seq![b].take(1) =~= seq![b]);
    assert(seq![b].drop_last() =~= Seq::<PitchBend>::empty());
    assert(period_behind(pitch, seq![b].drop_last()) == linear_period(pitch));
}

/// A slide toward a note never passes it, and a step that is long enough reaches it.
pub proof fn law_portamento_stops_at_its_note(period: int, note: i32, step: u64)
    ensures
        ({
            let target = linear_period(note as int);
            let p = moved(period, BendStep::Toward { note, step });
            &&& period <= target ==> period <= p <= target
            &&& period >= target ==> target <= p <= period
            &&& (if period < target {
                target - period
            } else {
                period - target
            }) <= step ==> p == target
        }),
{
}

} // verus!
