//! The tempo of a chip rip.
use crate::export::automation::{clamp64, clamped};
use crate::export::clock::{nearest, round_signed};
use vstd::prelude::*;

verus! {

/// The waits of a VGM file count samples of this rate. It is the rate of the rendered audio
/// too, so that a wait is a number of its samples.
pub const VGM_SAMPLE_RATE: u32 = 44_100;

/// A tempo: so many beats in so many samples.
#[derive(Clone, Copy, Debug, PartialEq, Eq, Structural)]
pub struct Pace {
    pub beats: u64,
    pub samples: u64,
}

impl Pace {
    /// There is at least one sample, and no more beats than can be counted with.
    pub open spec fn wf(self) -> bool {
        &&& 0 < self.samples
        &&& self.beats <= 0x8_0000_0000
    }

    /// How many millionths of a beat a stretch lasts, given in halves of a sample.
    pub open spec fn micros_of_halves(self, halves: int) -> i64 {
        clamped(nearest(1_000_000 * (halves * self.beats), 2 * self.samples))
    }

    /// How many millionths of a beat a number of samples lasts.
    pub open spec fn micros(self, samples: int) -> i64 {
        self.micros_of_halves(2 * samples)
    }

    /// Beats per minute, in millionths: a minute has 2,646,000 samples.
    pub open spec fn bpm(self) -> int {
        nearest(2_646_000_000_000 * self.beats, self.samples as int)
    }

    /// Time does not run backwards.
    pub proof fn lemma_micros_positive(self, samples: int)
        requires
            self.wf(),
            0 <= samples,
        ensures
            0 <= self.micros(samples),
    {
        let b = self.beats as int;
        let n = self.samples as int;
        assert(0 <= (2 * samples) * b) by (nonlinear_arith)
            requires
                0 <= samples,
                0 <= b,
        ;
        let x = 1_000_000 * ((2 * samples) * b);
        assert(0 <= (2 * x + 2 * n) / (2 * (2 * n))) by (nonlinear_arith)
            requires
                0 <= x,
                0 < n,
        ;
    }

    pub(crate) fn half_samples_to_beats(&self, halves: i128) -> (r: i64)
        requires
            self.wf(),
            -0x2_0000_0000_0000_0000 <= halves <= 0x2_0000_0000_0000_0000,
        ensures
            r == self.micros_of_halves(halves as int),
    {
        let b: i128 = self.beats as i128;
        assert(-0x2_0000_0000_0000_0000 * 0x8_0000_0000 <= halves * b <= 0x2_0000_0000_0000_0000
            * 0x8_0000_0000) by (nonlinear_arith)
            requires
                -0x2_0000_0000_0000_0000 <= halves <= 0x2_0000_0000_0000_0000,
                0 <= b <= 0x8_0000_0000,
        ;
        clamp64(round_signed(1_000_000 * (halves * b), 2 * self.samples as u128))
    }

    /// How many millionths of a beat a number of samples lasts.
    pub fn samples_to_beats(&self, samples: u64) -> (r: i64)
        requires
            self.wf(),
        ensures
            r == self.micros(samples as int),
    {
        self.half_samples_to_beats(2 * samples as i128)
    }

    /// Beats per minute, in millionths.
    pub fn bpm_micros(&self) -> (r: i128)
        requires
            self.wf(),
        ensures
            r == self.bpm(),
    {
        let b: i128 = self.beats as i128;
        round_signed(2_646_000_000_000 * b, self.samples as u128)
    }

    /// The pace of a tempo in millionths of a beat per minute.
    pub fn of_bpm_micros(bpm: u64) -> (r: Pace)
        requires
            bpm <= 0x8_0000_0000,
        ensures
            r == (Pace { beats: bpm, samples: 2_646_000_000_000 }),
            r.wf(),
            r.bpm() == bpm,
    {
        let r = Pace { beats: bpm, samples: 2_646_000_000_000 };
        assert((2 * (2_646_000_000_000int * bpm) + 2_646_000_000_000) / (2 * 2_646_000_000_000int)
            == bpm) by (nonlinear_arith);
        r
    }
}

/// The bars of a repeated part: the least power of two that gives at least 80 beats per minute,
/// that is bars of at most three seconds or 132,300 samples; and at most 256.
pub open spec fn bars_from(bars: int, samples: int) -> int
    decreases 512 - bars,
{
    if bars <= 0 || bars >= 256 || 132_300 * bars >= samples {
        bars
    } else {
        bars_from(2 * bars, samples)
    }
}

/// The pace at which a repeated part fills whole bars of four beats.
pub open spec fn estimated(samples: u64) -> Pace {
    if samples == 0 {
        Pace { beats: 120_000_000, samples: 2_646_000_000_000 }
    } else {
        Pace { beats: (4 * bars_from(1, samples as int)) as u64, samples }
    }
}

proof fn lemma_bars(bars: int, samples: int)
    requires
        bars == 1 || bars == 2 || bars == 4 || bars == 8 || bars == 16 || bars == 32 || bars == 64
            || bars == 128 || bars == 256,
        bars == 1 || 132_300 * bars < 2 * samples,
    ensures
        ({
            let r = bars_from(bars, samples);
            &&& 1 <= bars <= r <= 256
            &&& r == 256 || 132_300 * r >= samples
            &&& r == 1 || 132_300 * r < 2 * samples
        }),
    decreases 256 - bars,
{
    if bars < 256 && 132_300 * bars < samples {
        lemma_bars(2 * bars, samples);
    }
}

/// Finds the tempo of a repeated part by its length in samples.
pub fn estimate_tempo(samples: u64) -> (r: Pace)
    ensures
        r == estimated(samples),
        r.wf(),
{
    if samples == 0 {
        return Pace { beats: 120_000_000, samples: 2_646_000_000_000 };
    }
    let mut bars: u64 = 1;
    proof {
        lemma_bars(1, samples as int);
    }
    while bars < 256 && 132_300 * bars < samples
        invariant
            1 <= bars <= 256,
            bars_from(bars as int, samples as int) == bars_from(1, samples as int),
            bars_from(1, samples as int) <= 256,
            bars == 1 || bars == 2 || bars == 4 || bars == 8 || bars == 16 || bars == 32 || bars
                == 64 || bars == 128 || bars == 256,
        decreases 256 - bars,
    {
        bars = 2 * bars;
    }
    Pace { beats: 4 * bars, samples }
}

/// The pace of a song: with a loop point, the one at which what is repeated fills whole bars;
/// without one there is nothing to tell a tempo by, and that of the template stays.
pub open spec fn song_pace_of(split: Option<usize>, frames: usize, template: Pace) -> Pace {
    match split {
        Some(s) => estimated((frames - s) as u64),
        None => template,
    }
}

/// Finds the pace of a song that is split at its loop point.
pub fn song_pace(split: Option<usize>, frames: usize, template: Pace) -> (r: Pace)
    requires
        split matches Some(s) ==> 0 < s < frames,
    ensures
        r == song_pace_of(split, frames, template),
        template.wf() ==> r.wf(),
{
    match split {
        Some(s) => estimate_tempo((frames - s) as u64),
        None => template,
    }
}

/// The estimated tempo of a part is at least 80 beats per minute, unless it is longer than 256
/// bars of that; and below 160, unless it is shorter than one bar of that.
pub proof fn law_estimated_range(samples: u64)
    requires
        samples > 0,
    ensures
        ({
            let p = estimated(samples);
            &&& p.beats % 4 == 0
            &&& p.samples == samples
            &&& p.beats == 1024 || 2_646_000 * p.beats >= 80 * samples
            &&& p.beats == 4 || 2_646_000 * p.beats < 160 * samples
        }),
{
    lemma_bars(1, samples as int);
}

/// A repeated part fills a whole number of bars: in beats it lasts a multiple of four.
pub proof fn law_estimated_bars(samples: u64)
    requires
        samples > 0,
    ensures
        estimated(samples).micros(samples as int) == 1_000_000 * estimated(samples).beats,
{
    let p = estimated(samples);
    lemma_bars(1, samples as int);
    let s = samples as int;
    let b = p.beats as int;
    assert(1_000_000 * (2 * s * b) == (1_000_000 * b) * (2 * s)) by (nonlinear_arith);
    assert((2 * ((1_000_000 * b) * (2 * s)) + 2 * s) / (2 * (2 * s)) == 1_000_000 * b)
        by (nonlinear_arith)
        requires
            s > 0,
            b >= 0,
    ;
}

} // verus!
