//! Song times as whole numbers: MIDI ticks, and millionths of a beat.
//!
//! A time in beats is a fraction; here it is multiplied by a number of units per beat and
//! rounded to the nearest whole one. The units come in twentieths: `q` is the number of units
//! per beat divided by 20.
use crate::export::simulate::{EnvelopeLevel, Note};
use crate::export::tempo::Tempo;
use crate::export::time::{Moment, NaturalLength};
use vstd::prelude::*;

verus! {

/// 480 ticks make a beat.
pub const TICK_Q: u32 = 24;

/// A million make a beat.
pub const MICRO_Q: u32 = 50_000;

/// The nearest whole number to `num / den`, the higher one if there are two.
pub open spec fn nearest(num: int, den: int) -> int {
    (2 * num + den) / (2 * den)
}

/// Rounding keeps the order of two fractions, so that the least of several rounded times is
/// the least time, rounded.
pub proof fn law_nearest_is_monotonic(a: int, b: int, c: int, d: int)
    by (nonlinear_arith)
    requires
        0 < b,
        0 < d,
        a * d <= c * b,
    ensures
        nearest(a, b) <= nearest(c, d),
{
    let x = (2 * a + b) / (2 * b);
    let y = (2 * c + d) / (2 * d);
    assert(x * (2 * b) <= 2 * a + b);
    assert(2 * c + d < (y + 1) * (2 * d));
    if x > y {
        assert(x >= y + 1);
        assert((y + 1) * (2 * b) <= 2 * a + b);
        assert((y + 1) * (2 * b) * d <= (2 * a + b) * d);
        assert((2 * a + b) * d <= (2 * c + d) * b);
        assert((2 * c + d) * b < (y + 1) * (2 * d) * b);
        assert((y + 1) * (2 * b) * d == (y + 1) * (2 * d) * b);
    }
}

/// A rounded value is within half a unit of the exact one.
pub proof fn law_nearest_is_near(num: int, den: int)
    by (nonlinear_arith)
    requires
        0 < den,
    ensures
        2 * num - den <= 2 * den * nearest(num, den) <= 2 * num + den,
{
}

proof fn lemma_shifted(num: int, den: int, k: int)
    by (nonlinear_arith)
    requires
        0 < den,
    ensures
        nearest(num + k * den, den) == nearest(num, den) + k,
{
    let x = (2 * num + den) / (2 * den);
    let r = (2 * num + den) % (2 * den);
    assert(2 * num + den == x * (2 * den) + r);
    assert(2 * (num + k * den) + den == (x + k) * (2 * den) + r);
    vstd::arithmetic::div_mod::lemma_fundamental_div_mod_converse(
        2 * (num + k * den) + den,
        2 * den,
        x + k,
        r,
    );
}

fn round_div(num: u128, den: u128) -> (r: u128)
    requires
        0 < den <= 0x1_0000_0000_0000_0000_0000_0000_0000,
        num <= 0x100_0000_0000_0000_0000_0000_0000_0000,
    ensures
        r == nearest(num as int, den as int),
        r <= num + 1,
{
    let r: u128 = (2 * num + den) / (2 * den);
    assert((2 * num + den) / (2 * den) <= num + 1) by (nonlinear_arith)
        requires
            0 < den,
            0 <= num,
    ;
    r
}

/// The parts that a moment's row is divided into, one where the moment is the row's start.
pub open spec fn parts(m: Moment) -> int {
    if m.tick == 0 || m.speed == 0 {
        1
    } else {
        m.speed as int
    }
}

/// A moment of the song.
pub open spec fn units_at(m: Moment, q: int) -> int {
    5 * q * m.row + nearest(5 * q * m.tick, parts(m))
}

/// The end of a sample that plays out.
pub open spec fn units_played_out(start: Moment, len: NaturalLength, q: int) -> int {
    5 * q * start.row + nearest(
        5 * q * start.tick * len.rate_hz + 2 * q * len.frames * len.tracker_bpm,
        start.speed * len.rate_hz,
    )
}

/// A thousandth of a beat before a moment.
pub open spec fn units_just_before(m: Moment, q: int) -> int {
    5 * q * m.row + nearest(250 * q * m.tick - q * parts(m), 50 * parts(m))
}

/// A thousandth of a beat behind a moment.
pub open spec fn units_just_after(m: Moment, q: int) -> int {
    5 * q * m.row + nearest(250 * q * m.tick + q * parts(m), 50 * parts(m))
}

/// Whether the sample has a natural length that counts.
pub open spec fn plays_out(n: Note) -> bool {
    n.natural matches Some(len) && len.rate_hz > 0 && n.start.speed > 0
}

/// Whether less than a thousandth of a beat lies between two moments.
pub open spec fn too_close(start: Moment, next: Moment) -> bool {
    250 * ((next.row - start.row) * parts(next) * parts(start) + next.tick * parts(start)
        - start.tick * parts(next)) <= parts(next) * parts(start)
}

/// Whether nothing is left of the note: it is then given a thousandth of a beat.
pub open spec fn is_instant(n: Note, next: Option<Moment>) -> bool {
    ||| n.close.le(n.start)
    ||| plays_out(n) && n.natural->0.frames * n.natural->0.tracker_bpm == 0
    ||| next matches Some(m) && too_close(n.start, m)
}

pub open spec fn least(a: int, b: int) -> int {
    if a <= b {
        a
    } else {
        b
    }
}

/// When a note ends: when its channel lets go of it, when the sample has played out, or a
/// thousandth of a beat before the next note on its voice, whichever comes first.
pub open spec fn units_end(n: Note, next: Option<Moment>, q: int) -> int {
    if is_instant(n, next) {
        units_just_after(n.start, q)
    } else {
        let closed = units_at(n.close, q);
        let played = if plays_out(n) {
            least(closed, units_played_out(n.start, n.natural->0, q))
        } else {
            closed
        };
        match next {
            Some(m) => least(played, units_just_before(m, q)),
            None => played,
        }
    }
}

/// The time between two moments.
pub open spec fn units_between(start: Moment, end: Moment, q: int) -> int {
    5 * q * (end.row - start.row) + nearest(
        5 * q * (end.tick * parts(start) - start.tick * parts(end)),
        parts(end) * parts(start),
    )
}

/// The time between two moments, less a thousandth of a beat.
pub open spec fn units_gap(start: Moment, next: Moment, q: int) -> int {
    5 * q * (next.row - start.row) + nearest(
        250 * q * (next.tick * parts(start) - start.tick * parts(next)) - q * parts(next)
            * parts(start),
        50 * parts(next) * parts(start),
    )
}

/// The natural length of a sample.
pub open spec fn units_natural(start: Moment, len: NaturalLength, q: int) -> int {
    nearest(2 * q * len.frames * len.tracker_bpm, start.speed * len.rate_hz)
}

/// How long a note lasts.
pub open spec fn units_length(n: Note, next: Option<Moment>, q: int) -> int {
    if is_instant(n, next) {
        nearest(q, 50)
    } else {
        let held = units_between(n.start, n.close, q);
        let played = if plays_out(n) {
            least(held, units_natural(n.start, n.natural->0, q))
        } else {
            held
        };
        match next {
            Some(m) => least(played, units_gap(n.start, m, q)),
            None => played,
        }
    }
}

pub const MAX_UNITS: i128 = 0x400_0000_0000_0000_0000_0000_0000_0000;

proof fn lemma_product(a: int, b: int, m: int, n: int)
    by (nonlinear_arith)
    requires
        0 <= a <= m,
        0 <= b <= n,
    ensures
        0 <= a * b <= m * n,
{
}

fn parts_of(m: &Moment) -> (r: u128)
    ensures
        r == parts(*m),
        0 < r <= 0xffff_ffff,
{
    if m.tick == 0 || m.speed == 0 {
        1
    } else {
        m.speed as u128
    }
}

fn whole_rows(row: usize, q: u32) -> (r: i128)
    requires
        q <= 50_000,
    ensures
        r == 5 * q * row,
        0 <= r <= 0x4_0000_0000_0000_0000_0000,
{
    proof {
        lemma_product(5 * q as int, row as int, 250_000, 0xffff_ffff_ffff_ffff);
    }
    5 * q as i128 * row as i128
}

pub(crate) fn round_signed(num: i128, den: u128) -> (r: i128)
    requires
        0 < den <= 0x1_0000_0000_0000_0000_0000_0000_0000,
        -0x100_0000_0000_0000_0000_0000_0000_0000 <= num,
        num <= 0x100_0000_0000_0000_0000_0000_0000_0000,
    ensures
        r == nearest(num as int, den as int),
        -0x100_0000_0000_0000_0000_0000_0000_0001 <= r,
        r <= 0x100_0000_0000_0000_0000_0000_0000_0001,
{
    if num >= 0 {
        return round_div(num as u128, den) as i128;
    }
    // A shift by whole units lifts the numerator above zero.
    let below: u128 = (-num) as u128;
    let k: u128 = below / den + 1;
    proof {
        lemma_shifted(num as int, den as int, k as int);
        assert(below < k * den <= below + den) by (nonlinear_arith)
            requires
                0 < den,
                k == below / den + 1,
        ;
        assert(k <= below + 1) by (nonlinear_arith)
            requires
                0 < den,
                k == below / den + 1,
        ;
    }
    let lifted: u128 = k * den - below;
    let r: u128 = round_div(lifted, den);
    assert(r <= 1) by (nonlinear_arith)
        requires
            r == (2 * lifted + den) / (2 * den),
            0 <= lifted <= den,
            0 < den,
    ;
    r as i128 - k as i128
}

/// A moment of the song.
pub fn moment_units(m: &Moment, q: u32) -> (r: i128)
    requires
        q <= 50_000,
    ensures
        r == units_at(*m, q as int),
        0 <= r <= MAX_UNITS,
{
    proof {
        lemma_product(5 * q as int, m.tick as int, 250_000, 0xffff_ffff);
    }
    let part: u128 = round_div(5 * q as u128 * m.tick as u128, parts_of(m));
    whole_rows(m.row, q) + part as i128
}

fn just_before_units(m: &Moment, q: u32) -> (r: i128)
    requires
        q <= 50_000,
    ensures
        r == units_just_before(*m, q as int),
        -MAX_UNITS <= r <= MAX_UNITS,
{
    let d: u128 = parts_of(m);
    proof {
        lemma_product(250 * q as int, m.tick as int, 12_500_000, 0xffff_ffff);
        lemma_product(q as int, d as int, 50_000, 0xffff_ffff);
    }
    let num: i128 = 250 * q as i128 * m.tick as i128 - q as i128 * d as i128;
    whole_rows(m.row, q) + round_signed(num, 50 * d)
}

fn just_after_units(m: &Moment, q: u32) -> (r: i128)
    requires
        q <= 50_000,
    ensures
        r == units_just_after(*m, q as int),
        0 <= r <= MAX_UNITS,
{
    let d: u128 = parts_of(m);
    proof {
        lemma_product(250 * q as int, m.tick as int, 12_500_000, 0xffff_ffff);
        lemma_product(q as int, d as int, 50_000, 0xffff_ffff);
    }
    let num: u128 = 250 * q as u128 * m.tick as u128 + q as u128 * d;
    whole_rows(m.row, q) + round_div(num, 50 * d) as i128
}

fn played_out_units(start: &Moment, len: &NaturalLength, q: u32) -> (r: i128)
    requires
        q <= 50_000,
        start.speed > 0,
        len.rate_hz > 0,
    ensures
        r == units_played_out(*start, *len, q as int),
        0 <= r <= MAX_UNITS,
{
    let num: u128 = natural_part(start.tick, len, q);
    proof {
        lemma_product(start.speed as int, len.rate_hz as int, 0xffff_ffff, 0xffff_ffff);
        assert(start.speed * len.rate_hz > 0) by (nonlinear_arith)
            requires
                start.speed > 0,
                len.rate_hz > 0,
        ;
    }
    let part: u128 = round_div(num, start.speed as u128 * len.rate_hz as u128);
    whole_rows(start.row, q) + part as i128
}

fn natural_part(tick: u32, len: &NaturalLength, q: u32) -> (r: u128)
    requires
        q <= 50_000,
    ensures
        r == 5 * q * tick * len.rate_hz + 2 * q * len.frames * len.tracker_bpm,
        r <= 0x4_0000_0000_0000_0000_0000_0000_0000,
{
    proof {
        lemma_product(5 * q as int, tick as int, 250_000, 0xffff_ffff);
        lemma_product(
            5 * q * tick,
            len.rate_hz as int,
            250_000int * 0xffff_ffff,
            0xffff_ffff,
        );
        lemma_product(2 * q as int, len.frames as int, 100_000, 0xffff_ffff_ffff_ffff);
        lemma_product(
            2 * q * len.frames,
            len.tracker_bpm as int,
            100_000int * 0xffff_ffff_ffff_ffff,
            0xffff_ffff,
        );
    }
    5 * q as u128 * tick as u128 * len.rate_hz as u128 + 2 * q as u128 * len.frames as u128
        * len.tracker_bpm as u128
}

fn natural_units(start: &Moment, len: &NaturalLength, q: u32) -> (r: i128)
    requires
        q <= 50_000,
        start.speed > 0,
        len.rate_hz > 0,
    ensures
        r == units_natural(*start, *len, q as int),
        0 <= r <= MAX_UNITS,
{
    let num: u128 = natural_part(0, len, q);
    proof {
        assert(5 * q * 0 * len.rate_hz == 0) by (nonlinear_arith);
        lemma_product(start.speed as int, len.rate_hz as int, 0xffff_ffff, 0xffff_ffff);
        assert(start.speed * len.rate_hz > 0) by (nonlinear_arith)
            requires
                start.speed > 0,
                len.rate_hz > 0,
        ;
    }
    round_div(num, start.speed as u128 * len.rate_hz as u128) as i128
}

fn are_too_close(start: &Moment, next: &Moment) -> (r: bool)
    ensures
        r == too_close(*start, *next),
{
    let a: u128 = parts_of(start);
    let b: u128 = parts_of(next);
    let ghost rows = next.row - start.row;
    let ghost ab = b * a;
    proof {
        lemma_product(next.tick as int, a as int, 0xffff_ffff, 0xffff_ffff);
        lemma_product(start.tick as int, b as int, 0xffff_ffff, 0xffff_ffff);
        lemma_product(b as int, a as int, 0xffff_ffff, 0xffff_ffff);
        assert(rows * b * a == rows * ab) by (nonlinear_arith)
            requires
                ab == b * a,
        ;
        assert(start.tick * b <= 0xffff_ffff * ab) by (nonlinear_arith)
            requires
                start.tick <= 0xffff_ffff,
                ab == b * a,
                1 <= a,
                0 < b,
        ;
        assert(next.tick * a <= 0xffff_ffff * ab) by (nonlinear_arith)
            requires
                next.tick <= 0xffff_ffff,
                ab == b * a,
                1 <= b,
                0 < a,
        ;
        assert(ab > 0) by (nonlinear_arith)
            requires
                ab == b * a,
                1 <= b,
                1 <= a,
        ;
        if rows < -0x1_0000_0000 {
            assert(rows * ab <= -0x1_0000_0000 * ab) by (nonlinear_arith)
                requires
                    rows <= -0x1_0000_0000,
                    0 < ab,
            ;
        }
        if rows > 0x1_0000_0000 {
            assert(rows * ab >= 0x1_0000_0001 * ab) by (nonlinear_arith)
                requires
                    rows >= 0x1_0000_0001,
                    0 < ab,
            ;
        }
    }
    let between: i128 = next.row as i128 - start.row as i128;
    if between < -0x1_0000_0000 {
        return true;
    }
    if between > 0x1_0000_0000 {
        return false;
    }
    proof {
        assert(-0x1_0000_0000_0000_0000_0000_0000 <= rows * ab <= 0x1_0000_0000_0000_0000_0000_0000)
            by (nonlinear_arith)
            requires
                -0x1_0000_0000 <= rows <= 0x1_0000_0000,
                0 <= ab <= 0xffff_ffff * 0xffff_ffff,
        ;
    }
    let ab: i128 = (b * a) as i128;
    250 * (between * ab + next.tick as i128 * a as i128 - start.tick as i128 * b as i128) <= ab
}

/// Whether nothing is left of the note.
fn instant(n: &Note, next: &Option<Moment>) -> (r: bool)
    ensures
        r == is_instant(*n, *next),
{
    if n.close.not_after(&n.start) {
        return true;
    }
    if let Some(len) = &n.natural {
        proof {
            if len.frames > 0 && len.tracker_bpm > 0 {
                assert(len.frames * len.tracker_bpm > 0) by (nonlinear_arith)
                    requires
                        len.frames > 0,
                        len.tracker_bpm > 0,
                ;
            } else {
                assert(len.frames * len.tracker_bpm == 0) by (nonlinear_arith)
                    requires
                        len.frames == 0 || len.tracker_bpm == 0,
                ;
            }
        }
        if len.rate_hz > 0 && n.start.speed > 0 && (len.frames == 0 || len.tracker_bpm == 0) {
            return true;
        }
    }
    match next {
        Some(m) => are_too_close(&n.start, m),
        None => false,
    }
}

fn lesser(a: i128, b: i128) -> (r: i128)
    ensures
        r == least(a as int, b as int),
{
    if a <= b {
        a
    } else {
        b
    }
}

/// When a note ends.
pub fn end_units(n: &Note, next: &Option<Moment>, q: u32) -> (r: i128)
    requires
        q <= 50_000,
    ensures
        r == units_end(*n, *next, q as int),
        -MAX_UNITS <= r <= MAX_UNITS,
{
    if instant(n, next) {
        return just_after_units(&n.start, q);
    }
    let closed: i128 = moment_units(&n.close, q);
    let played: i128 = match &n.natural {
        Some(len) => if len.rate_hz > 0 && n.start.speed > 0 {
            lesser(closed, played_out_units(&n.start, len, q))
        } else {
            closed
        },
        None => closed,
    };
    match next {
        Some(m) => lesser(played, just_before_units(m, q)),
        None => played,
    }
}

/// The time between two moments.
pub fn units_from(start: &Moment, end: &Moment, q: u32) -> (r: i128)
    requires
        q <= 50_000,
    ensures
        r == units_between(*start, *end, q as int),
        -MAX_UNITS <= r <= MAX_UNITS,
{
    let a: u128 = parts_of(start);
    let b: u128 = parts_of(end);
    let ghost diff = end.tick * a - start.tick * b;
    proof {
        lemma_product(end.tick as int, a as int, 0xffff_ffff, 0xffff_ffff);
        lemma_product(start.tick as int, b as int, 0xffff_ffff, 0xffff_ffff);
        lemma_product(b as int, a as int, 0xffff_ffff, 0xffff_ffff);
        assert(b * a > 0) by (nonlinear_arith)
            requires
                1 <= b,
                1 <= a,
        ;
        assert(-0x4_0000_0000_0000_0000_0000 <= 5 * q * diff <= 0x4_0000_0000_0000_0000_0000)
            by (nonlinear_arith)
            requires
                0 <= q <= 50_000,
                -0xffff_ffff * 0xffff_ffff <= diff <= 0xffff_ffff * 0xffff_ffff,
        ;
        assert(5 * q * end.row - 5 * q * start.row == 5 * q * (end.row - start.row))
            by (nonlinear_arith);
    }
    let num: i128 = 5 * q as i128 * (end.tick as i128 * a as i128 - start.tick as i128
        * b as i128);
    whole_rows(end.row, q) - whole_rows(start.row, q) + round_signed(num, b * a)
}

fn gap_units(start: &Moment, next: &Moment, q: u32) -> (r: i128)
    requires
        q <= 50_000,
    ensures
        r == units_gap(*start, *next, q as int),
        -MAX_UNITS <= r <= MAX_UNITS,
{
    let a: u128 = parts_of(start);
    let b: u128 = parts_of(next);
    let ghost diff = next.tick * a - start.tick * b;
    let ghost ab = b * a;
    proof {
        lemma_product(next.tick as int, a as int, 0xffff_ffff, 0xffff_ffff);
        lemma_product(start.tick as int, b as int, 0xffff_ffff, 0xffff_ffff);
        lemma_product(b as int, a as int, 0xffff_ffff, 0xffff_ffff);
        assert(ab > 0) by (nonlinear_arith)
            requires
                ab == b * a,
                1 <= b,
                1 <= a,
        ;
        assert(-0x400_0000_0000_0000_0000_0000 <= 250 * q * diff
            <= 0x400_0000_0000_0000_0000_0000) by (nonlinear_arith)
            requires
                0 <= q <= 50_000,
                -0xffff_ffff * 0xffff_ffff <= diff <= 0xffff_ffff * 0xffff_ffff,
        ;
        lemma_product(q as int, ab, 50_000, 0xffff_ffffint * 0xffff_ffff);
        assert(q * b * a == q * ab) by (nonlinear_arith)
            requires
                ab == b * a,
        ;
        assert(50 * b * a == 50 * ab) by (nonlinear_arith)
            requires
                ab == b * a,
        ;
        assert(5 * q * next.row - 5 * q * start.row == 5 * q * (next.row - start.row))
            by (nonlinear_arith);
    }
    let num: i128 = 250 * q as i128 * (next.tick as i128 * a as i128 - start.tick as i128
        * b as i128) - q as i128 * (b * a) as i128;
    whole_rows(next.row, q) - whole_rows(start.row, q) + round_signed(num, 50 * (b * a))
}

/// How long a note lasts.
pub fn length_units(n: &Note, next: &Option<Moment>, q: u32) -> (r: i128)
    requires
        q <= 50_000,
    ensures
        r == units_length(*n, *next, q as int),
        -MAX_UNITS <= r <= MAX_UNITS,
{
    if instant(n, next) {
        return round_div(q as u128, 50) as i128;
    }
    let held: i128 = units_from(&n.start, &n.close, q);
    let played: i128 = match &n.natural {
        Some(len) => if len.rate_hz > 0 && n.start.speed > 0 {
            lesser(held, natural_units(&n.start, len, q))
        } else {
            held
        },
        None => held,
    };
    match next {
        Some(m) => lesser(played, gap_units(&n.start, m, q)),
        None => played,
    }
}

/// When an envelope reaches a point: `ticks` ticks behind a moment, at the Speed of that moment.
pub open spec fn units_level(e: EnvelopeLevel, q: int) -> int {
    if e.from.speed == 0 {
        units_at(e.from, q)
    } else {
        5 * q * e.from.row + nearest(5 * q * (e.from.tick + e.ticks), e.from.speed as int)
    }
}

/// When an envelope reaches a point.
pub fn level_units(e: &EnvelopeLevel, q: u32) -> (r: i128)
    requires
        q <= 50_000,
    ensures
        r == units_level(*e, q as int),
        -MAX_UNITS <= r <= MAX_UNITS,
{
    if e.from.speed == 0 {
        return moment_units(&e.from, q);
    }
    let ticks: i128 = e.from.tick as i128 + e.ticks as i128;
    proof {
        assert(-0x8_0000_0000_0000_0000_0000 <= 5 * q * ticks <= 0x8_0000_0000_0000_0000_0000)
            by (nonlinear_arith)
            requires
                0 <= q <= 50_000,
                -0x1_0000_0000_0000_0000 <= ticks <= 0x1_0000_0000_0000_0000,
        ;
    }
    whole_rows(e.from.row, q) + round_signed(5 * q as i128 * ticks, e.from.speed as u128)
}

/// Beats per minute in millionths; none where there is no such number.
pub open spec fn bpm_micros(t: Tempo) -> Option<int> {
    if t.speed == 0 {
        None
    } else {
        Some(nearest(6_000_000 * t.tracker_bpm, t.speed as int))
    }
}

/// Microseconds per beat: `10^7 * speed / tracker_bpm`, as far as it fits 32 bits.
pub open spec fn beat_micros(t: Tempo) -> u32 {
    if t.speed == 0 {
        0
    } else if t.tracker_bpm == 0 {
        u32::MAX
    } else {
        let n = nearest(10_000_000 * t.speed, t.tracker_bpm as int);
        if n > u32::MAX {
            u32::MAX
        } else {
            n as u32
        }
    }
}

/// Beats per minute in millionths.
pub fn tempo_bpm_micros(t: &Tempo) -> (r: Option<i128>)
    ensures
        match r {
            Some(n) => bpm_micros(*t) == Some(n as int) && 0 <= n <= MAX_UNITS,
            None => bpm_micros(*t) is None,
        },
{
    if t.speed == 0 {
        None
    } else {
        Some(round_div(6_000_000 * t.tracker_bpm as u128, t.speed as u128) as i128)
    }
}

/// Microseconds per beat.
pub fn tempo_beat_micros(t: &Tempo) -> (r: u32)
    ensures
        r == beat_micros(*t),
{
    if t.speed == 0 {
        0
    } else if t.tracker_bpm == 0 {
        u32::MAX
    } else {
        let n: u128 = round_div(10_000_000 * t.speed as u128, t.tracker_bpm as u128);
        if n > u32::MAX as u128 {
            u32::MAX
        } else {
            n as u32
        }
    }
}

} // verus!
