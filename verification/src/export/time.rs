//! Exact song time.
//!
//! A row is always a 16th note, whatever the Speed value: four rows make a beat. A row is
//! divided into as many ticks as the Speed in effect on it. Times are kept as a row and a
//! tick of it, so that no rounding enters the comparison of two of them.
use vstd::prelude::*;

verus! {

/// A moment of the song: tick `tick` of row `row`, where the row has `speed` ticks.
///
/// In beats it is `row / 4 + tick / (4 * speed)`; with `tick` 0 it is the row's own start,
/// whatever `speed` is.
#[derive(Debug, Clone, Copy, PartialEq, Eq, Structural)]
pub struct Moment {
    pub row: usize,
    pub tick: u32,
    pub speed: u32,
}

impl Moment {
    /// A tick lies within its row.
    pub open spec fn wf(self) -> bool {
        self.tick == 0 || self.tick < self.speed
    }

    /// The moment is not behind `other`. Two moments of the same row have the same speed.
    pub open spec fn le(self, other: Moment) -> bool {
        self.row < other.row || (self.row == other.row && self.tick <= other.tick)
    }

    /// The ticks that the row is divided into, one where the moment is the row's start.
    pub open spec fn ticks(self) -> int {
        if self.tick == 0 {
            1
        } else {
            self.speed as int
        }
    }

    /// Whether the moment is not behind `other`.
    pub fn not_after(&self, other: &Moment) -> (r: bool)
        ensures
            r == self.le(*other),
    {
        self.row < other.row || (self.row == other.row && self.tick <= other.tick)
    }
}

/// How long a sample without a loop sounds: `frames` frames at `rate_hz`, in a song whose
/// Tempo is `tracker_bpm`.
///
/// At Speed `s` that is `frames / rate_hz` seconds at `6 * tracker_bpm / s` beats per minute.
#[derive(Debug, Clone, Copy, PartialEq, Eq, Structural)]
pub struct NaturalLength {
    pub frames: u64,
    pub rate_hz: u32,
    pub tracker_bpm: u32,
}

/// A sample that starts at `start` has played out at `at`: its natural length, in rows
/// `2 * frames * tracker_bpm / (5 * rate_hz * speed)`, is over.
///
/// A rate or a Speed of 0 gives no length, and the sample never plays out.
pub open spec fn played_out(start: Moment, len: NaturalLength, at: Moment) -> bool {
    &&& len.rate_hz > 0
    &&& start.speed > 0
    &&& (5 * len.rate_hz * start.tick + 2 * len.frames * len.tracker_bpm) * at.ticks() <= ((at.row
        - start.row) * at.ticks() + at.tick) * (5 * len.rate_hz * start.speed)
}

proof fn lemma_whole_rows(n: int, d: int, q: int, rem: int, rows: int, tick: int, ticks: int)
    by (nonlinear_arith)
    requires
        n == q * d + rem,
        0 <= rem < d,
        0 <= tick < ticks,
    ensures
        n * ticks <= (rows * ticks + tick) * d <==> (q < rows || (q == rows && rem * ticks <= tick
            * d)),
{
    if q < rows {
        assert(n * ticks <= (rows * ticks + tick) * d) by {
            assert(n < rows * d) by {
                assert((q + 1) * d <= rows * d);
            }
            assert(n * ticks <= rows * d * ticks);
            assert(rows * d * ticks == rows * ticks * d);
            assert(tick * d >= 0);
            assert((rows * ticks + tick) * d == rows * ticks * d + tick * d);
        }
    } else if q == rows {
        assert(n * ticks == rows * ticks * d + rem * ticks);
        assert((rows * ticks + tick) * d == rows * ticks * d + tick * d);
    } else {
        assert(n >= (rows + 1) * d) by {
            assert(q * d >= (rows + 1) * d);
        }
        assert(n * ticks >= (rows + 1) * d * ticks);
        assert((rows + 1) * d * ticks == rows * ticks * d + d * ticks);
        assert(d * ticks > tick * d);
        assert((rows * ticks + tick) * d == rows * ticks * d + tick * d);
    }
}

proof fn lemma_bounds(a: int, b: int, c: int, d: int)
    by (nonlinear_arith)
    requires
        0 <= a <= 0xffff_ffff,
        0 <= b <= 0xffff_ffff,
        0 <= c <= 0xffff_ffff_ffff_ffff,
        0 <= d <= 0xffff_ffff,
    ensures
        0 <= a * b <= 0xffff_fffe_0000_0001,
        0 <= c * d <= 0xffff_fffe_ffff_ffff_0000_0001,
{
}

/// Whether a sample that starts at `start` has played out at `at`.
pub fn has_played_out(start: &Moment, len: &NaturalLength, at: &Moment) -> (r: bool)
    requires
        at.wf(),
    ensures
        r == played_out(*start, *len, *at),
{
    if len.rate_hz == 0 || start.speed == 0 {
        return false;
    }
    proof {
        lemma_bounds(len.rate_hz as int, start.tick as int, len.frames as int, len.tracker_bpm as int);
        lemma_bounds(len.rate_hz as int, start.speed as int, 0, 0);
        assert(5 * len.rate_hz * start.tick == 5 * (len.rate_hz * start.tick)) by (nonlinear_arith);
        assert(2 * len.frames * len.tracker_bpm == 2 * (len.frames * len.tracker_bpm))
            by (nonlinear_arith);
        assert(5 * len.rate_hz * start.speed == 5 * (len.rate_hz * start.speed))
            by (nonlinear_arith);
    }
    let n: u128 = 5 * (len.rate_hz as u128 * start.tick as u128) + 2 * (len.frames as u128
        * len.tracker_bpm as u128);
    let d: u128 = 5 * (len.rate_hz as u128 * start.speed as u128);
    proof {
        assert(len.rate_hz * start.speed > 0) by (nonlinear_arith)
            requires
                len.rate_hz > 0,
                start.speed > 0,
        ;
    }
    let q: u128 = n / d;
    let rem: u128 = n % d;
    let ticks: u128 = if at.tick == 0 {
        1
    } else {
        at.speed as u128
    };
    proof {
        assert(n == q * d + rem) by (nonlinear_arith)
            requires
                d > 0,
                q == n / d,
                rem == n % d,
        ;
        lemma_whole_rows(
            n as int,
            d as int,
            q as int,
            rem as int,
            at.row - start.row,
            at.tick as int,
            ticks as int,
        );
    }
    if at.row < start.row {
        assert(q >= 0);
        return false;
    }
    let rows: u128 = (at.row - start.row) as u128;
    if q < rows {
        return true;
    }
    if q > rows {
        return false;
    }
    proof {
        assert(rem * ticks <= 0x5_0000_0000_0000_0000 * 0x1_0000_0000) by (nonlinear_arith)
            requires
                0 <= rem <= 0x5_0000_0000_0000_0000,
                0 <= ticks <= 0x1_0000_0000,
        ;
        assert(at.tick * d <= 0x1_0000_0000 * 0x5_0000_0000_0000_0000) by (nonlinear_arith)
            requires
                0 <= d <= 0x5_0000_0000_0000_0000,
                0 <= at.tick <= 0x1_0000_0000,
        ;
    }
    rem * ticks <= at.tick as u128 * d
}

/// What has played out at a moment has played out at every later one.
pub proof fn law_played_out_stays(start: Moment, len: NaturalLength, at: Moment, later: Moment)
    requires
        at.wf(),
        later.wf(),
        at.le(later),
        at.row == later.row && at.tick > 0 ==> at.speed == later.speed,
        played_out(start, len, at),
    ensures
        played_out(start, len, later),
{
    let n = 5 * len.rate_hz * start.tick + 2 * len.frames * len.tracker_bpm;
    let d = 5 * len.rate_hz * start.speed;
    assert(d > 0) by (nonlinear_arith)
        requires
            len.rate_hz > 0,
            start.speed > 0,
            d == 5 * len.rate_hz * start.speed,
    ;
    let q = n / d;
    let rem = n % d;
    assert(n == q * d + rem && 0 <= rem < d) by (nonlinear_arith)
        requires
            d > 0,
            q == n / d,
            rem == n % d,
    ;
    let r1 = at.row - start.row;
    let r2 = later.row - start.row;
    lemma_whole_rows(n, d, q, rem, r1, at.tick as int, at.ticks());
    lemma_whole_rows(n, d, q, rem, r2, later.tick as int, later.ticks());
    if q == r1 && r1 == r2 {
        let t1 = at.tick as int;
        let k1 = at.ticks();
        let t2 = later.tick as int;
        let k2 = later.ticks();
        if at.tick == 0 {
            assert(rem == 0) by (nonlinear_arith)
                requires
                    rem * k1 <= t1 * d,
                    t1 == 0,
                    k1 == 1,
                    rem >= 0,
            ;
            assert(rem * k2 <= t2 * d) by (nonlinear_arith)
                requires
                    rem == 0,
                    t2 >= 0,
                    d > 0,
            ;
        } else {
            assert(rem * k2 <= t2 * d) by (nonlinear_arith)
                requires
                    rem * k1 <= t1 * d,
                    k1 == k2,
                    t1 <= t2,
                    d > 0,
            ;
        }
    }
}

} // verus!
