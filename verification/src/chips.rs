//! Sound chips: which of their channels are heard, and when they are asked for samples.
use vstd::prelude::*;

verus! {

/// Percussion of the FM chips, which takes the place of channels 6 to 8 in rhythm mode: bit
/// positions behind those of the nine channels.
pub const MASK_BD: u32 = 0x200;

pub const MASK_SD: u32 = 0x400;

pub const MASK_TOM: u32 = 0x800;

pub const MASK_CYM: u32 = 0x1000;

pub const MASK_HH: u32 = 0x2000;

/// All voices of an FM chip: nine channels and five of percussion.
pub const ALL_FM_CHANNELS: u32 = 0x3fff;

pub const ALL_AY_CHANNELS: u32 = 0x7;

pub const ALL_SCC_CHANNELS: u32 = 0x1f;

/// The channel is set in the mask.
pub open spec fn in_mask(mask: u32, ch: u32) -> bool {
    (mask >> ch) & 1 == 1
}

/// The bit of a channel.
pub fn mask_ch(ch: u32) -> (r: u32)
    requires
        ch < 32,
    ensures
        r == 1u32 << ch,
        forall|k: u32| k < 32 ==> #[trigger] in_mask(r, k) == (k == ch),
{
    let r: u32 = 1u32 << ch;
    assert forall|k: u32| k < 32 implies #[trigger] in_mask(r, k) == (k == ch) by {
        assert((((1u32 << ch) >> k) & 1 == 1) == (k == ch)) by (bit_vector)
            requires
                ch < 32,
                k < 32,
        ;
    }
    r
}

/// The mask without these bits: all channels of the chip but those are muted.
pub open spec fn all_but(all: u32, keep: u32) -> u32 {
    all & !keep
}

/// Muting all but some channels mutes exactly the others.
pub proof fn law_all_but(all: u32, keep: u32, k: u32)
    requires
        k < 32,
    ensures
        in_mask(all_but(all, keep), k) == (in_mask(all, k) && !in_mask(keep, k)),
{
    assert((((all & !keep) >> k) & 1 == 1) == (((all >> k) & 1 == 1) && !((keep >> k) & 1 == 1)))
        by (bit_vector)
        requires
            k < 32,
    ;
}

/// Muting all but one channel leaves exactly that one heard.
pub proof fn law_solo(all: u32, ch: u32, k: u32)
    requires
        ch < 32,
        k < 32,
        in_mask(all, k),
    ensures
        in_mask(all_but(all, 1u32 << ch), k) == (k != ch),
{
    law_all_but(all, 1u32 << ch, k);
    assert((((1u32 << ch) >> k) & 1 == 1) == (k == ch)) by (bit_vector)
        requires
            ch < 32,
            k < 32,
    ;
}

/// Keeps a chip's own rate in step with that of the output.
#[derive(Clone, Copy, Debug, PartialEq, Eq, Structural)]
pub struct RateClock {
    /// Samples that the chip makes in a second.
    pub chip_rate: u32,
    pub output_rate: u32,
    /// How far the chip is ahead, in parts of a sample.
    pub ahead: u64,
}

impl RateClock {
    pub open spec fn wf(self) -> bool {
        &&& 0 < self.output_rate
        &&& self.ahead < self.output_rate
    }

    /// How many samples the chip makes for the next one of the output.
    pub open spec fn due(self) -> int {
        if self.chip_rate <= self.ahead {
            0
        } else {
            (self.chip_rate - self.ahead + self.output_rate - 1) / (self.output_rate as int)
        }
    }

    /// Behind the next sample of the output.
    pub open spec fn moved(self) -> RateClock {
        RateClock {
            ahead: (self.ahead + self.due() * self.output_rate - self.chip_rate) as u64,
            ..self
        }
    }

    /// Behind `k` samples of the output.
    pub open spec fn moved_by(self, k: nat) -> RateClock
        decreases k,
    {
        if k == 0 {
            self
        } else {
            self.moved_by((k - 1) as nat).moved()
        }
    }

    /// How many samples the chip makes for `k` samples of the output.
    pub open spec fn made(self, k: nat) -> int
        decreases k,
    {
        if k == 0 {
            0
        } else {
            self.made((k - 1) as nat) + self.moved_by((k - 1) as nat).due()
        }
    }

    proof fn lemma_due(self)
        requires
            self.wf(),
        ensures
            0 <= self.due(),
            self.due() * self.output_rate < self.chip_rate + self.output_rate,
            0 <= self.ahead + self.due() * self.output_rate - self.chip_rate < self.output_rate,
            self.moved().wf(),
    {
        let o = self.output_rate as int;
        if self.chip_rate > self.ahead {
            let n = self.chip_rate - self.ahead + o - 1;
            vstd::arithmetic::div_mod::lemma_fundamental_div_mod(n, o);
            assert(0 <= n % o < o) by (nonlinear_arith)
                requires
                    o > 0,
            ;
            assert(o * (n / o) == (n / o) * o) by (nonlinear_arith);
            assert(n / o >= 0) by (nonlinear_arith)
                requires
                    n >= 0,
                    o > 0,
            ;
        }
    }

    proof fn lemma_made(self, k: nat)
        requires
            self.wf(),
        ensures
            self.moved_by(k).wf(),
            self.moved_by(k).output_rate == self.output_rate,
            self.moved_by(k).chip_rate == self.chip_rate,
            self.made(k) * self.output_rate == k * self.chip_rate + self.moved_by(k).ahead
                - self.ahead,
        decreases k,
    {
        if k > 0 {
            let j = (k - 1) as nat;
            self.lemma_made(j);
            let q = self.moved_by(j);
            q.lemma_due();
            let o = self.output_rate as int;
            let c = self.chip_rate as int;
            assert((self.made(j) + q.due()) * o == self.made(j) * o + q.due() * o)
                by (nonlinear_arith);
            assert(k * c == j * c + c) by (nonlinear_arith)
                requires
                    k == j + 1,
            ;
        }
    }

    pub fn new(chip_rate: u32, output_rate: u32) -> (r: RateClock)
        requires
            0 < output_rate,
        ensures
            r == (RateClock { chip_rate, output_rate, ahead: 0 }),
            r.wf(),
    {
        RateClock { chip_rate, output_rate, ahead: 0 }
    }

    /// The samples of the chip have to be converted: it runs at another rate than the output.
    pub fn converts(&self) -> (r: bool)
        ensures
            r == (self.chip_rate != self.output_rate),
    {
        self.chip_rate != self.output_rate
    }

    /// Moves on by one sample of the output. Gives the number of samples that the chip makes
    /// for it.
    pub fn advance(&mut self) -> (r: u64)
        requires
            old(self).wf(),
        ensures
            r == old(self).due(),
            *final(self) == old(self).moved(),
            final(self).wf(),
    {
        proof {
            self.lemma_due();
        }
        let chip: u64 = self.chip_rate as u64;
        let out: u64 = self.output_rate as u64;
        let n: u64 = if chip <= self.ahead {
            0
        } else {
            (chip - self.ahead + out - 1) / out
        };
        self.ahead = self.ahead + n * out - chip;
        n
    }
}

/// The chip and the output stay in step: for `k` samples of the output the chip makes just as
/// many as reach their time, and less than one sample of the output more.
pub proof fn law_rates_stay_in_step(chip_rate: u32, output_rate: u32, k: nat)
    requires
        0 < output_rate,
    ensures
        ({
            let c = RateClock { chip_rate, output_rate, ahead: 0 };
            k * chip_rate <= c.made(k) * output_rate < k * chip_rate + output_rate
        }),
{
    let c = RateClock { chip_rate, output_rate, ahead: 0 };
    c.lemma_made(k);
}

/// The K051649: what of it is heard, and when it is asked for samples.
#[derive(Clone, Copy, Debug, PartialEq, Eq, Structural)]
pub struct Scc {
    /// The channels that are muted.
    pub mask: u32,
    pub clock: RateClock,
}

impl Scc {
    pub fn new(chip_rate: u32, output_rate: u32) -> (r: Scc)
        requires
            0 < output_rate,
        ensures
            r == (Scc {
                mask: 0,
                clock: RateClock { chip_rate, output_rate, ahead: 0 },
            }),
            r.clock.wf(),
    {
        Scc { mask: 0, clock: RateClock::new(chip_rate, output_rate) }
    }

    /// The two writes to the SCC's bus that a write to a register takes: its number to the even
    /// address of the port, then the value to the odd one.
    pub fn write(port: u8, reg: u8, value: u8) -> (r: ((u8, u8), (u8, u8)))
        ensures
            r == (
                (((2 * port) % 256) as u8, reg),
                (((2 * port) % 256 + 1) as u8, value),
            ),
    {
        let address: u8 = (2 * port as u16 % 256) as u8;
        ((address, reg), (address + 1, value))
    }

    pub fn set_mask(&mut self, mask: u32)
        ensures
            *final(self) == (Scc { mask, ..*old(self) }),
    {
        self.mask = mask;
    }

    /// Leaves one channel heard.
    pub fn solo(&mut self, ch: u32)
        requires
            ch < 32,
        ensures
            *final(self) == (Scc { mask: all_but(ALL_SCC_CHANNELS, 1u32 << ch), ..*old(self) }),
    {
        self.set_mask(ALL_SCC_CHANNELS & !mask_ch(ch));
    }

    /// Moves on by one sample of the output: how many samples the chip makes for it. A chip
    /// that is muted as a whole stands still.
    pub fn advance(&mut self) -> (r: Option<u64>)
        requires
            old(self).clock.wf(),
        ensures
            old(self).mask == ALL_SCC_CHANNELS ==> r is None && *final(self) == *old(self),
            old(self).mask != ALL_SCC_CHANNELS ==> (r matches Some(n) && n == old(self).clock.due()) && *final(self) == (Scc {
                clock: old(self).clock.moved(),
                ..*old(self)
            }),
            final(self).clock.wf(),
    {
        if self.mask == ALL_SCC_CHANNELS {
            None
        } else {
            Some(self.clock.advance())
        }
    }
}

/// The AY-3-8910.
#[derive(Clone, Copy, Debug, PartialEq, Eq, Structural)]
pub struct Ay8910 {
    /// The channels that are muted.
    pub mask: u32,
    pub clock: RateClock,
}

impl Ay8910 {
    pub fn new(chip_rate: u32, output_rate: u32) -> (r: Ay8910)
        requires
            0 < output_rate,
        ensures
            r == (Ay8910 {
                mask: 0,
                clock: RateClock { chip_rate, output_rate, ahead: 0 },
            }),
            r.clock.wf(),
    {
        Ay8910 { mask: 0, clock: RateClock::new(chip_rate, output_rate) }
    }

    pub fn set_mask(&mut self, mask: u32)
        ensures
            *final(self) == (Ay8910 { mask, ..*old(self) }),
    {
        self.mask = mask;
    }

    /// Leaves one channel heard.
    pub fn solo(&mut self, ch: u32)
        requires
            ch < 32,
        ensures
            *final(self) == (Ay8910 { mask: all_but(ALL_AY_CHANNELS, 1u32 << ch), ..*old(self) }),
    {
        self.set_mask(ALL_AY_CHANNELS & !mask_ch(ch));
    }

    pub fn mute_all(&mut self)
        ensures
            *final(self) == (Ay8910 { mask: ALL_AY_CHANNELS, ..*old(self) }),
    {
        self.set_mask(ALL_AY_CHANNELS);
    }

    pub fn unmute_all(&mut self)
        ensures
            *final(self) == (Ay8910 { mask: 0, ..*old(self) }),
    {
        self.set_mask(0);
    }

    /// Moves on by one sample of the output: how many samples the chip makes for it. A chip
    /// that is muted as a whole stands still.
    pub fn advance(&mut self) -> (r: Option<u64>)
        requires
            old(self).clock.wf(),
        ensures
            old(self).mask == ALL_AY_CHANNELS ==> r is None && *final(self) == *old(self),
            old(self).mask != ALL_AY_CHANNELS ==> (r matches Some(n) && n == old(self).clock.due()) && *final(self) == (Ay8910 {
                clock: old(self).clock.moved(),
                ..*old(self)
            }),
            final(self).clock.wf(),
    {
        if self.mask == ALL_AY_CHANNELS {
            None
        } else {
            Some(self.clock.advance())
        }
    }
}

/// The YM2413.
#[derive(Clone, Copy, Debug, PartialEq, Eq, Structural)]
pub struct Opll {
    /// The channels that are muted.
    pub mask: u32,
    pub clock: RateClock,
}

impl Opll {
    pub fn new(chip_rate: u32, output_rate: u32) -> (r: Opll)
        requires
            0 < output_rate,
        ensures
            r == (Opll {
                mask: 0,
                clock: RateClock { chip_rate, output_rate, ahead: 0 },
            }),
            r.clock.wf(),
    {
        Opll { mask: 0, clock: RateClock::new(chip_rate, output_rate) }
    }

    pub fn set_mask(&mut self, mask: u32)
        ensures
            *final(self) == (Opll { mask, ..*old(self) }),
    {
        self.mask = mask;
    }

    /// The bit of FM channel `ch`.
    pub fn mask_ch(ch: u32) -> (r: u32)
        requires
            ch < 32,
        ensures
            r == 1u32 << ch,
    {
        mask_ch(ch)
    }

    /// The mask that leaves one channel heard.
    pub fn solo_ch_mask(ch: u32) -> (r: u32)
        requires
            ch < 32,
        ensures
            r == all_but(ALL_FM_CHANNELS, 1u32 << ch),
    {
        ALL_FM_CHANNELS & !mask_ch(ch)
    }

    /// The mask that leaves one voice of percussion heard.
    pub fn solo_rhythm_mask(keep: u32) -> (r: u32)
        ensures
            r == all_but(ALL_FM_CHANNELS, keep),
    {
        ALL_FM_CHANNELS & !keep
    }

    /// Moves on by one sample of the output: how many samples the chip makes for it. A chip
    /// that is muted as a whole stands still.
    pub fn advance(&mut self) -> (r: Option<u64>)
        requires
            old(self).clock.wf(),
        ensures
            old(self).mask == ALL_FM_CHANNELS ==> r is None && *final(self) == *old(self),
            old(self).mask != ALL_FM_CHANNELS ==> (r matches Some(n) && n == old(self).clock.due()) && *final(self) == (Opll {
                clock: old(self).clock.moved(),
                ..*old(self)
            }),
            final(self).clock.wf(),
    {
        if self.mask == ALL_FM_CHANNELS {
            None
        } else {
            Some(self.clock.advance())
        }
    }
}

} // verus!
